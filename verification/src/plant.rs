//! A plant that grows in space, branch by branch from the root: how high
//! it gets, how many bits of space it fills, and how far its leaves lie
//! from the trunk.

use crate::graph::{is_distance, out_of_reach, reaches, Hop, Source, StateGraph};
use crate::point::lemma_cell;
use crate::search::distances;
use crate::text::{integer, parse_integer, pieces_view, slice_of, split, split_at_each};

use std::collections::HashSet;
use vstd::prelude::*;

verus! {

broadcast use vstd::std_specs::hash::group_hash_axioms;

/// A place in space, or a step through it.
#[derive(Clone, Copy, Debug, PartialEq, Eq, Structural)]
pub struct Point3 {
    pub x: i32,
    pub y: i32,
    pub z: i32,
}

/// A stretch of a branch: so many steps in one direction.
#[derive(Clone, Copy, Debug, PartialEq, Eq, Structural)]
pub struct Move {
    pub dir: Point3,
    pub dist: i32,
}

/// How far from the root, along each axis, the plant may reach.
pub const REACH: i32 = 0x10_0000;

/// Twice the reach: how many places there are along an axis.
pub const SPAN: u64 = 0x20_0000;

/// The place lies within the reach of the plant.
pub open spec fn within(p: Point3) -> bool {
    -REACH < p.x < REACH && -REACH < p.y < REACH && -REACH < p.z < REACH
}

/// The key of a place within reach: a number that no other place shares.
pub open spec fn key3(p: Point3) -> u64 {
    (((p.x + REACH) * SPAN + (p.y + REACH)) * SPAN + (p.z + REACH)) as u64
}

/// The place that has the key.
pub open spec fn place3(key: u64) -> Point3 {
    Point3 {
        x: (key / SPAN / SPAN - REACH) as i32,
        y: (key / SPAN % SPAN - REACH) as i32,
        z: (key % SPAN - REACH) as i32,
    }
}

impl Point3 {
    /// The key of the place.
    pub fn key(&self) -> (key: u64)
        requires
            within(*self),
        ensures
            key == key3(*self),
            place3(key) == *self,
            key < SPAN * SPAN * SPAN,
    {
        let a: u64 = (self.x + REACH) as u64;
        let b: u64 = (self.y + REACH) as u64;
        let c: u64 = (self.z + REACH) as u64;
        proof {
            lemma_cell(a as int, b as int, SPAN as int, SPAN as int);
            lemma_cell((a * SPAN + b) as int, c as int, (SPAN * SPAN) as int, SPAN as int);
        }
        (a * SPAN + b) * SPAN + c
    }

    /// The place a step away, if it lies within reach.
    pub fn stepped(&self, dir: Point3) -> (to: Option<Point3>)
        ensures
            to == moved(*self, dir),
    {
        let x = self.x as i64 + dir.x as i64;
        let y = self.y as i64 + dir.y as i64;
        let z = self.z as i64 + dir.z as i64;
        let reach = REACH as i64;
        if -reach < x && x < reach && -reach < y && y < reach && -reach < z && z < reach {
            Some(Point3 { x: x as i32, y: y as i32, z: z as i32 })
        } else {
            None
        }
    }
}

/// The place a step of `dir` away from `p`, if it lies within reach.
pub open spec fn moved(p: Point3, dir: Point3) -> Option<Point3> {
    let to = (p.x + dir.x, p.y + dir.y, p.z + dir.z);
    if -REACH < to.0 < REACH && -REACH < to.1 < REACH && -REACH < to.2 < REACH {
        Some(Point3 { x: to.0 as i32, y: to.1 as i32, z: to.2 as i32 })
    } else {
        None
    }
}

/// Places with the same key are the same place.
pub proof fn lemma_key3_decides(a: Point3, b: Point3)
    requires
        within(a),
        within(b),
        key3(a) == key3(b),
    ensures
        a == b,
{
    lemma_cell(a.x + REACH, a.y + REACH, SPAN as int, SPAN as int);
    lemma_cell(b.x + REACH, b.y + REACH, SPAN as int, SPAN as int);
    lemma_cell(
        (a.x + REACH) * SPAN + (a.y + REACH),
        a.z + REACH,
        (SPAN * SPAN) as int,
        SPAN as int,
    );
    lemma_cell(
        (b.x + REACH) * SPAN + (b.y + REACH),
        b.z + REACH,
        (SPAN * SPAN) as int,
        SPAN as int,
    );
}

/// The direction that a letter stands for: up, down, right, left,
/// forward, back.
pub open spec fn dir_of(c: char) -> Option<Point3> {
    if c == 'U' {
        Some(Point3 { x: 0, y: 0, z: 1 })
    } else if c == 'D' {
        Some(Point3 { x: 0, y: 0, z: -1i32 })
    } else if c == 'R' {
        Some(Point3 { x: 0, y: 1, z: 0 })
    } else if c == 'L' {
        Some(Point3 { x: 0, y: -1i32, z: 0 })
    } else if c == 'F' {
        Some(Point3 { x: -1i32, y: 0, z: 0 })
    } else if c == 'B' {
        Some(Point3 { x: 1, y: 0, z: 0 })
    } else {
        None
    }
}

/// The stretch that a text such as `U5` spells.
pub open spec fn move_of(piece: Seq<char>) -> Option<Move> {
    if piece.len() == 0 {
        None
    } else {
        match (dir_of(piece[0]), integer(piece.drop_first())) {
            (Some(dir), Some(dist)) => if i32::MIN <= dist <= i32::MAX {
                Some(Move { dir, dist: dist as i32 })
            } else {
                None
            },
            _ => None,
        }
    }
}

/// The branch that a line such as `U5,R3` spells.
pub open spec fn branch_of(line: Seq<char>) -> Option<Seq<Move>> {
    let pieces = split(line, ',');
    if forall|k: int| 0 <= k < pieces.len() ==> move_of(#[trigger] pieces[k]) is Some {
        Some(Seq::new(pieces.len(), |k: int| move_of(pieces[k]).unwrap()))
    } else {
        None
    }
}

/// Reads one stretch.
pub fn parse_move(piece: &Vec<char>) -> (stretch: Option<Move>)
    ensures
        stretch == move_of(piece@),
{
    if piece.len() == 0 {
        return None;
    }
    let c = piece[0];
    let dir = if c == 'U' {
        Point3 { x: 0, y: 0, z: 1 }
    } else if c == 'D' {
        Point3 { x: 0, y: 0, z: -1 }
    } else if c == 'R' {
        Point3 { x: 0, y: 1, z: 0 }
    } else if c == 'L' {
        Point3 { x: 0, y: -1, z: 0 }
    } else if c == 'F' {
        Point3 { x: -1, y: 0, z: 0 }
    } else if c == 'B' {
        Point3 { x: 1, y: 0, z: 0 }
    } else {
        return None;
    };
    let rest = slice_of(piece, 1, piece.len());
    assert(rest@ =~= piece@.drop_first());
    match parse_integer(&rest) {
        Some(dist) => {
            if -0x8000_0000 <= dist && dist <= 0x7fff_ffff {
                Some(Move { dir, dist: dist as i32 })
            } else {
                None
            }
        },
        None => None,
    }
}

/// Reads one branch. Every piece has to spell a stretch; `read` tells
/// whether each does.
pub fn parse(input: &Vec<char>) -> (branch: Vec<Move>)
    requires
        branch_of(input@) is Some,
    ensures
        branch_of(input@) == Some(branch@),
{
    read(input).unwrap()
}

/// Reads one branch.
pub fn read(input: &Vec<char>) -> (branch: Option<Vec<Move>>)
    ensures
        match branch {
            Some(b) => branch_of(input@) == Some(b@),
            None => branch_of(input@).is_none(),
        },
{
    let pieces = split_at_each(input, ',');
    let ghost views = pieces_view(pieces@);
    let mut out: Vec<Move> = Vec::new();
    let mut k: usize = 0;
    while k < pieces.len()
        invariant
            0 <= k <= pieces.len(),
            views == pieces_view(pieces@),
            views == split(input@, ','),
            out@.len() == k,
            forall|j: int| 0 <= j < k ==> move_of(#[trigger] views[j]) == Some(out@[j]),
        decreases pieces.len() - k,
    {
        match parse_move(&pieces[k]) {
            Some(m) => {
                out.push(m);
            },
            None => {
                assert(move_of(views[k as int]).is_none());
                return None;
            },
        }
        k += 1;
    }
    assert(out@ =~= Seq::new(views.len(), |k: int| move_of(views[k]).unwrap()));
    Some(out)
}

/// The height reached after the first `upto` stretches of a branch.
pub open spec fn height_after(branch: Seq<Move>, upto: nat) -> int
    decreases upto,
{
    if upto == 0 {
        0
    } else {
        height_after(branch, (upto - 1) as nat) + branch[upto - 1].dist * branch[upto - 1].dir.z
    }
}

/// The greatest height at the end of one of the first `upto` stretches,
/// and at least 0.
pub open spec fn top_after(branch: Seq<Move>, upto: nat) -> int
    decreases upto,
{
    if upto == 0 {
        0
    } else {
        let before = top_after(branch, (upto - 1) as nat);
        if height_after(branch, upto) > before {
            height_after(branch, upto)
        } else {
            before
        }
    }
}

/// Every height on the way from the root fits in 64 bits.
pub open spec fn heights_fit(branch: Seq<Move>, upto: nat) -> bool {
    forall|k: nat| k <= upto ==> i64::MIN <= #[trigger] height_after(branch, k) <= i64::MAX
}

/// The greatest height that the branch reaches at the end of a stretch;
/// `None` when a height on the way leaves 64 bits.
pub fn max_height(branch: &Vec<Move>) -> (top: Option<i64>)
    ensures
        match top {
            Some(t) => heights_fit(branch@, branch@.len()) && t == top_after(branch@, branch@.len()),
            None => !heights_fit(branch@, branch@.len()),
        },
{
    let mut height: i64 = 0;
    let mut top: i64 = 0;
    let mut k: usize = 0;
    while k < branch.len()
        invariant
            0 <= k <= branch.len(),
            height == height_after(branch@, k as nat),
            top == top_after(branch@, k as nat),
            heights_fit(branch@, k as nat),
        decreases branch.len() - k,
    {
        let m = branch[k];
        assert(-0x8000_0000 * 0x8000_0000 <= m.dist * m.dir.z <= 0x8000_0000 * 0x8000_0000)
            by (nonlinear_arith)
            requires
                -0x8000_0000 <= m.dist <= 0x8000_0000,
                -0x8000_0000 <= m.dir.z <= 0x8000_0000,
        ;
        let rise: i64 = m.dist as i64 * m.dir.z as i64;
        height = match height.checked_add(rise) {
            Some(h) => h,
            None => {
                assert(!(i64::MIN <= height_after(branch@, (k + 1) as nat) <= i64::MAX));
                return None;
            },
        };
        if height > top {
            top = height;
        }
        proof {
            assert forall|j: nat| j <= k + 1 implies i64::MIN <= #[trigger] height_after(branch@, j)
                <= i64::MAX by {
                if j <= k {
                    assert(heights_fit(branch@, k as nat));
                }
            }
        }
        k += 1;
    }
    Some(top)
}

/// How many steps a stretch takes: its length, or none when that is
/// not positive.
pub open spec fn steps_of(stretch: Move) -> nat {
    if stretch.dist > 0 {
        stretch.dist as nat
    } else {
        0
    }
}

/// Where the tip of a branch is after `m` whole stretches and `s` steps
/// of the next; `None` once the branch has left the reach of the plant.
pub open spec fn tip(branch: Seq<Move>, m: nat, s: nat) -> Option<Point3>
    decreases m, s,
{
    if s > 0 {
        match tip(branch, m, (s - 1) as nat) {
            Some(p) => moved(p, branch[m as int].dir),
            None => None,
        }
    } else if m > 0 {
        tip(branch, (m - 1) as nat, steps_of(branch[m - 1]))
    } else {
        Some(Point3 { x: 0, y: 0, z: 0 })
    }
}

/// Step `s` of stretch `m` of the branch fills the place with key `key`.
pub open spec fn fills(branch: Seq<Move>, m: int, s: int, key: u64) -> bool {
    &&& 0 <= m < branch.len()
    &&& 1 <= s <= steps_of(branch[m])
    &&& tip(branch, m as nat, s as nat) is Some
    &&& key3(tip(branch, m as nat, s as nat).unwrap()) == key
}

/// One of the first `upto` steps of stretch `m` fills the place.
pub open spec fn stretch_fills(branch: Seq<Move>, m: int, upto: int, key: u64) -> bool {
    exists|s: int| 1 <= s <= upto && #[trigger] fills(branch, m, s, key)
}

/// One of the first `upto` stretches of the branch fills the place.
pub open spec fn branch_fills(branch: Seq<Move>, upto: int, key: u64) -> bool {
    exists|m: int|
        0 <= m < upto && #[trigger] stretch_fills(branch, m, steps_of(branch[m]) as int, key)
}

/// One of the first `upto` branches fills the place.
pub open spec fn plant_fills(branches: Seq<Seq<Move>>, upto: int, key: u64) -> bool {
    exists|b: int|
        0 <= b < upto && #[trigger] branch_fills(branches[b], branches[b].len() as int, key)
}

/// One of the first `upto` branches ends at the place.
pub open spec fn is_tip(branches: Seq<Seq<Move>>, upto: int, l: Point3) -> bool {
    exists|b: int| 0 <= b < upto && tip(#[trigger] branches[b], branches[b].len(), 0) == Some(l)
}

/// The branches of a list, as sequences.
pub open spec fn branches_view(branches: Seq<Vec<Move>>) -> Seq<Seq<Move>> {
    Seq::new(branches.len(), |b: int| branches[b]@)
}

/// A tip that is within reach stays the tip it is when the branch is
/// looked at further on; a branch that has left the reach stays outside.
pub proof fn lemma_tip_none_stays(branch: Seq<Move>, m: nat, s: nat, m2: nat, s2: nat)
    requires
        tip(branch, m, s).is_none(),
        m < m2 || (m == m2 && s <= s2),
        s <= steps_of(branch[m as int]) || m == m2,
    ensures
        tip(branch, m2, s2).is_none(),
    decreases m2, s2,
{
    if m == m2 && s == s2 {
    } else if s2 > 0 {
        lemma_tip_none_stays(branch, m, s, m2, (s2 - 1) as nat);
    } else {
        if m == m2 - 1 {
            if s <= steps_of(branch[m as int]) {
                lemma_tip_none_stays(branch, m, s, m, steps_of(branch[m as int]));
            }
        } else {
            lemma_tip_none_stays(branch, m, s, (m2 - 1) as nat, steps_of(branch[m2 - 1]));
        }
    }
}

/// The places that a plant fills, each once: as a set of keys for
/// looking up and as a list for going through, and the tips of its
/// branches, each once.
pub struct Plant {
    pub cells: HashSet<u64>,
    pub list: Vec<Point3>,
    pub leaves: Vec<Point3>,
}

impl Plant {
    /// The list holds the places of the set, each once and all within
    /// reach; no leaf is noted twice.
    pub open spec fn wf(&self) -> bool {
        &&& forall|i: int| 0 <= i < self.list@.len() ==> within(#[trigger] self.list@[i])
        &&& forall|i: int|
            0 <= i < self.list@.len() ==> self.cells@.contains(key3(#[trigger] self.list@[i]))
        &&& forall|key: u64| #[trigger]
            self.cells@.contains(key) ==> exists|i: int|
                0 <= i < self.list@.len() && key3(#[trigger] self.list@[i]) == key
        &&& forall|i: int, j: int|
            0 <= i < j < self.list@.len() ==> key3(#[trigger] self.list@[i]) != key3(
                #[trigger] self.list@[j],
            )
        &&& forall|i: int| 0 <= i < self.leaves@.len() ==> within(#[trigger] self.leaves@[i])
        &&& forall|i: int, j: int|
            0 <= i < j < self.leaves@.len() ==> #[trigger] self.leaves@[i] != #[trigger] self.leaves@[j]
    }

    /// A plant that fills nothing.
    pub fn new() -> (plant: Plant)
        ensures
            plant.wf(),
            plant.cells@ == Set::<u64>::empty(),
            plant.list@.len() == 0,
            plant.leaves@.len() == 0,
    {
        Plant { cells: HashSet::new(), list: Vec::new(), leaves: Vec::new() }
    }

    /// Fills the place `at`.
    fn fill(&mut self, at: Point3)
        requires
            old(self).wf(),
            within(at),
        ensures
            final(self).wf(),
            final(self).cells@ == old(self).cells@.insert(key3(at)),
            final(self).leaves@ == old(self).leaves@,
    {
        let key = at.key();
        if !self.cells.contains(&key) {
            self.cells.insert(key);
            self.list.push(at);
            proof {
                assert forall|k: u64| #[trigger] self.cells@.contains(k) implies exists|i: int|
                    0 <= i < self.list@.len() && key3(#[trigger] self.list@[i]) == k by {
                    if k == key {
                        assert(key3(self.list@[self.list@.len() - 1]) == k);
                    } else {
                        assert(old(self).cells@.contains(k));
                        let i = choose|i: int|
                            0 <= i < old(self).list@.len() && key3(#[trigger] old(self).list@[i])
                                == k;
                        assert(self.list@[i] == old(self).list@[i]);
                    }
                }
                assert forall|i: int, j: int| 0 <= i < j < self.list@.len() implies key3(
                    #[trigger] self.list@[i],
                ) != key3(#[trigger] self.list@[j]) by {
                    if j == self.list@.len() - 1 {
                        assert(self.list@[i] == old(self).list@[i]);
                        assert(old(self).cells@.contains(key3(old(self).list@[i])));
                    } else {
                        assert(self.list@[i] == old(self).list@[i]);
                        assert(self.list@[j] == old(self).list@[j]);
                    }
                }
                assert forall|i: int| 0 <= i < self.list@.len() implies self.cells@.contains(
                    key3(#[trigger] self.list@[i]),
                ) by {
                    if i < self.list@.len() - 1 {
                        assert(self.list@[i] == old(self).list@[i]);
                        assert(old(self).cells@.contains(key3(old(self).list@[i])));
                    }
                }
            }
        } else {
            assert(self.cells@ =~= old(self).cells@.insert(key3(at)));
        }
    }

    /// Lets one more branch grow from the root and notes its tip as a
    /// leaf; `false` when the branch leaves the reach of the plant, the
    /// places filled up to there staying filled.
    pub fn grow_branch(&mut self, branch: &Vec<Move>) -> (grown: bool)
        requires
            old(self).wf(),
        ensures
            final(self).wf(),
            grown == (tip(branch@, branch@.len(), 0) is Some),
            grown ==> forall|key: u64|
                #![trigger final(self).cells@.contains(key)]
                #![trigger branch_fills(branch@, branch@.len() as int, key)]
                final(self).cells@.contains(key) <==> (old(self).cells@.contains(key)
                    || branch_fills(branch@, branch@.len() as int, key)),
            grown ==> final(self).leaves@.len() > 0 && forall|l: Point3|
                final(self).leaves@.contains(l) == (old(self).leaves@.contains(l) || l == tip(
                    branch@,
                    branch@.len(),
                    0,
                ).unwrap()),
    {
        let ghost start = self.cells@;
        let mut current = Point3 { x: 0, y: 0, z: 0 };
        let mut m: usize = 0;
        while m < branch.len()
            invariant
                0 <= m <= branch.len(),
                self.wf(),
                self.leaves@ == old(self).leaves@,
                tip(branch@, m as nat, 0) == Some(current),
                within(current),
                forall|key: u64|
                    #![trigger self.cells@.contains(key)]
                    #![trigger branch_fills(branch@, m as int, key)]
                    self.cells@.contains(key) <==> (start.contains(key) || branch_fills(
                        branch@,
                        m as int,
                        key,
                    )),
            decreases branch.len() - m,
        {
            let stretch = branch[m];
            let ghost at_stretch = self.cells@;
            let steps: usize = if stretch.dist > 0 {
                stretch.dist as usize
            } else {
                0
            };
            let mut s: usize = 0;
            while s < steps
                invariant
                    0 <= s <= steps,
                    0 <= m < branch.len(),
                    stretch == branch@[m as int],
                    steps == steps_of(stretch),
                    self.wf(),
                    self.leaves@ == old(self).leaves@,
                    tip(branch@, m as nat, s as nat) == Some(current),
                    within(current),
                    forall|key: u64|
                        #![trigger self.cells@.contains(key)]
                        #![trigger stretch_fills(branch@, m as int, s as int, key)]
                        self.cells@.contains(key) <==> (at_stretch.contains(key)
                            || stretch_fills(branch@, m as int, s as int, key)),
                decreases steps - s,
            {
                let ghost before = self.cells@;
                current = match current.stepped(stretch.dir) {
                    Some(p) => p,
                    None => {
                        proof {
                            assert(tip(branch@, m as nat, (s + 1) as nat).is_none());
                            lemma_tip_none_stays(
                                branch@,
                                m as nat,
                                (s + 1) as nat,
                                branch@.len(),
                                0,
                            );
                        }
                        return false;
                    },
                };
                self.fill(current);
                proof {
                    assert(fills(branch@, m as int, s + 1, key3(current)));
                    assert forall|key: u64|
                        #![trigger self.cells@.contains(key)]
                        #![trigger stretch_fills(branch@, m as int, s + 1, key)]
                        self.cells@.contains(key) <==> (at_stretch.contains(key)
                            || stretch_fills(branch@, m as int, s + 1, key)) by {
                        assert(self.cells@.contains(key) == (before.contains(key) || key == key3(
                            current,
                        )));
                        assert(before.contains(key) <==> (at_stretch.contains(key) || stretch_fills(
                            branch@,
                            m as int,
                            s as int,
                            key,
                        )));
                        if key == key3(current) {
                            assert(fills(branch@, m as int, s + 1, key));
                        }
                        if stretch_fills(branch@, m as int, s + 1, key) {
                            let c = choose|c: int|
                                1 <= c <= s + 1 && #[trigger] fills(branch@, m as int, c, key);
                            if c <= s {
                                assert(stretch_fills(branch@, m as int, s as int, key));
                            }
                        }
                        if stretch_fills(branch@, m as int, s as int, key) {
                            let c = choose|c: int|
                                1 <= c <= s && #[trigger] fills(branch@, m as int, c, key);
                            assert(1 <= c <= s + 1);
                        }
                    }
                }
                s += 1;
            }
            proof {
                assert forall|key: u64|
                    #![trigger self.cells@.contains(key)]
                    #![trigger branch_fills(branch@, m + 1, key)]
                    self.cells@.contains(key) <==> (start.contains(key) || branch_fills(
                        branch@,
                        m + 1,
                        key,
                    )) by {
                    let now = stretch_fills(branch@, m as int, steps as int, key);
                    assert(self.cells@.contains(key) <==> (at_stretch.contains(key) || now));
                    assert(at_stretch.contains(key) <==> (start.contains(key) || branch_fills(
                        branch@,
                        m as int,
                        key,
                    )));
                    if branch_fills(branch@, m + 1, key) {
                        let c = choose|c: int|
                            0 <= c < m + 1 && #[trigger] stretch_fills(
                                branch@,
                                c,
                                steps_of(branch@[c]) as int,
                                key,
                            );
                        if c < m {
                            assert(branch_fills(branch@, m as int, key));
                        }
                    }
                    if branch_fills(branch@, m as int, key) {
                        let c = choose|c: int|
                            0 <= c < m && #[trigger] stretch_fills(
                                branch@,
                                c,
                                steps_of(branch@[c]) as int,
                                key,
                            );
                        assert(0 <= c < m + 1);
                    }
                    if now {
                        assert(stretch_fills(
                            branch@,
                            m as int,
                            steps_of(branch@[m as int]) as int,
                            key,
                        ));
                    }
                }
            }
            m += 1;
        }
        self.note_leaf(current);
        true
    }

    /// Notes `leaf` as a tip unless it is noted already.
    fn note_leaf(&mut self, leaf: Point3)
        requires
            old(self).wf(),
            within(leaf),
        ensures
            final(self).wf(),
            final(self).cells@ == old(self).cells@,
            final(self).list@ == old(self).list@,
            final(self).leaves@.len() > 0,
            forall|l: Point3|
                final(self).leaves@.contains(l) == (old(self).leaves@.contains(l) || l == leaf),
    {
        let mut known = false;
        let mut i: usize = 0;
        while i < self.leaves.len()
            invariant
                0 <= i <= self.leaves.len(),
                *self == *old(self),
                known == exists|j: int| 0 <= j < i && self.leaves@[j] == leaf,
            decreases self.leaves.len() - i,
        {
            let l = self.leaves[i];
            if l.x == leaf.x && l.y == leaf.y && l.z == leaf.z {
                known = true;
            }
            i += 1;
        }
        if !known {
            self.leaves.push(leaf);
            proof {
                assert forall|l: Point3|
                    self.leaves@.contains(l) == (old(self).leaves@.contains(l) || l == leaf) by {
                    if self.leaves@.contains(l) {
                        let j = choose|j: int| 0 <= j < self.leaves@.len() && self.leaves@[j] == l;
                        if j < old(self).leaves@.len() {
                            assert(old(self).leaves@[j] == l);
                        }
                    }
                    if old(self).leaves@.contains(l) {
                        let j = choose|j: int|
                            0 <= j < old(self).leaves@.len() && old(self).leaves@[j] == l;
                        assert(self.leaves@[j] == l);
                    }
                    if l == leaf {
                        assert(self.leaves@[self.leaves@.len() - 1] == l);
                    }
                }
                assert forall|i: int| 0 <= i < self.leaves@.len() implies within(
                    #[trigger] self.leaves@[i],
                ) by {
                    if i < old(self).leaves@.len() {
                        assert(self.leaves@[i] == old(self).leaves@[i]);
                    }
                }
            }
        } else {
            proof {
                let j = choose|j: int| 0 <= j < self.leaves@.len() && self.leaves@[j] == leaf;
                assert(self.leaves@.contains(leaf));
            }
        }
    }

    /// How many places the plant fills.
    pub fn size(&self) -> (n: usize)
        requires
            self.wf(),
        ensures
            n == self.list@.len(),
    {
        self.list.len()
    }
}

/// The plant that grows from the branches; `None` when a branch leaves
/// the reach of the plant.
pub fn grow(branches: &Vec<Vec<Move>>) -> (plant: Option<Plant>)
    ensures
        match plant {
            Some(p) => p.wf() && (forall|b: int|
                0 <= b < branches@.len() ==> tip(
                    #[trigger] branches_view(branches@)[b],
                    branches@[b]@.len(),
                    0,
                ) is Some) && (forall|key: u64|
                #![trigger p.cells@.contains(key)]
                #![trigger plant_fills(branches_view(branches@), branches@.len() as int, key)]
                p.cells@.contains(key) <==> plant_fills(
                    branches_view(branches@),
                    branches@.len() as int,
                    key,
                )) && (forall|l: Point3|
                #![trigger p.leaves@.contains(l)]
                #![trigger is_tip(branches_view(branches@), branches@.len() as int, l)]
                p.leaves@.contains(l) <==> is_tip(
                    branches_view(branches@),
                    branches@.len() as int,
                    l,
                )),
            None => exists|b: int|
                0 <= b < branches@.len() && tip(
                    #[trigger] branches_view(branches@)[b],
                    branches@[b]@.len(),
                    0,
                ).is_none(),
        },
{
    let ghost all = branches_view(branches@);
    let mut plant = Plant::new();
    let mut b: usize = 0;
    while b < branches.len()
        invariant
            0 <= b <= branches.len(),
            all == branches_view(branches@),
            plant.wf(),
            forall|j: int| 0 <= j < b ==> tip(#[trigger] all[j], branches@[j]@.len(), 0) is Some,
            forall|key: u64|
                #![trigger plant.cells@.contains(key)]
                #![trigger plant_fills(all, b as int, key)]
                plant.cells@.contains(key) <==> plant_fills(all, b as int, key),
            forall|l: Point3|
                #![trigger plant.leaves@.contains(l)]
                #![trigger is_tip(all, b as int, l)]
                plant.leaves@.contains(l) <==> is_tip(all, b as int, l),
        decreases branches.len() - b,
    {
        let ghost before = plant.cells@;
        let ghost leaves_before = plant.leaves@;
        assert(all[b as int] == branches@[b as int]@);
        if !plant.grow_branch(&branches[b]) {
            return None;
        }
        proof {
            assert forall|key: u64|
                #![trigger plant.cells@.contains(key)]
                #![trigger plant_fills(all, b + 1, key)]
                plant.cells@.contains(key) <==> plant_fills(all, b + 1, key) by {
                let now = branch_fills(all[b as int], all[b as int].len() as int, key);
                assert(plant.cells@.contains(key) <==> (before.contains(key) || now));
                assert(before.contains(key) <==> plant_fills(all, b as int, key));
                if now {
                    assert(branch_fills(all[b as int], all[b as int].len() as int, key));
                }
                if plant_fills(all, b + 1, key) {
                    let c = choose|c: int|
                        0 <= c < b + 1 && #[trigger] branch_fills(all[c], all[c].len() as int, key);
                    if c < b {
                        assert(plant_fills(all, b as int, key));
                    }
                }
                if plant_fills(all, b as int, key) {
                    let c = choose|c: int|
                        0 <= c < b && #[trigger] branch_fills(all[c], all[c].len() as int, key);
                    assert(0 <= c < b + 1);
                }
            }
            assert forall|l: Point3|
                #![trigger plant.leaves@.contains(l)]
                #![trigger is_tip(all, b + 1, l)]
                plant.leaves@.contains(l) <==> is_tip(all, b + 1, l) by {
                let end = tip(all[b as int], all[b as int].len(), 0);
                assert(plant.leaves@.contains(l) == (leaves_before.contains(l) || l
                    == end.unwrap()));
                assert(leaves_before.contains(l) <==> is_tip(all, b as int, l));
                if is_tip(all, b + 1, l) {
                    let c = choose|c: int|
                        0 <= c < b + 1 && tip(#[trigger] all[c], all[c].len(), 0) == Some(l);
                    if c < b {
                        assert(is_tip(all, b as int, l));
                    }
                }
                if is_tip(all, b as int, l) {
                    let c = choose|c: int|
                        0 <= c < b && tip(#[trigger] all[c], all[c].len(), 0) == Some(l);
                    assert(0 <= c < b + 1);
                }
                if l == end.unwrap() {
                    assert(tip(all[b as int], all[b as int].len(), 0) == Some(l));
                }
            }
        }
        b += 1;
    }
    Some(plant)
}

/// Direction number `k` of six: up, down, right, left, back, forward.
pub open spec fn direction6(k: int) -> Point3 {
    if k == 0 {
        Point3 { x: 0, y: 0, z: 1 }
    } else if k == 1 {
        Point3 { x: 0, y: 0, z: -1i32 }
    } else if k == 2 {
        Point3 { x: 0, y: 1, z: 0 }
    } else if k == 3 {
        Point3 { x: 0, y: -1i32, z: 0 }
    } else if k == 4 {
        Point3 { x: -1i32, y: 0, z: 0 }
    } else {
        Point3 { x: 1, y: 0, z: 0 }
    }
}

/// Direction number `k` as a step.
pub fn direction6_of(k: usize) -> (dir: Point3)
    requires
        k < 6,
    ensures
        dir == direction6(k as int),
{
    if k == 0 {
        Point3 { x: 0, y: 0, z: 1 }
    } else if k == 1 {
        Point3 { x: 0, y: 0, z: -1 }
    } else if k == 2 {
        Point3 { x: 0, y: 1, z: 0 }
    } else if k == 3 {
        Point3 { x: 0, y: -1, z: 0 }
    } else if k == 4 {
        Point3 { x: -1, y: 0, z: 0 }
    } else {
        Point3 { x: 1, y: 0, z: 0 }
    }
}

impl Point3 {
    /// The place that has the key.
    pub fn from_key(key: u64) -> (p: Point3)
        ensures
            p == place3(key),
    {
        let x = (key / SPAN / SPAN) as i64 - REACH as i64;
        let y = (key / SPAN % SPAN) as i64 - REACH as i64;
        let z = (key % SPAN) as i64 - REACH as i64;
        assert(key / SPAN / SPAN <= 0x40_0000) by (bit_vector)
            requires
                SPAN == 0x20_0000u64,
        ;
        Point3 { x: x as i32, y: y as i32, z: z as i32 }
    }
}

impl Plant {
    /// The edge from the place `p` in direction `k`, as a sequence of
    /// none or one: a step onto a place beside it that the plant fills.
    pub open spec fn hop(&self, p: Point3, k: int) -> Seq<Hop> {
        match moved(p, direction6(k)) {
            Some(q) => if self.cells@.contains(key3(q)) {
                seq![(key3(q), 1u64)]
            } else {
                Seq::empty()
            },
            None => Seq::empty(),
        }
    }

    /// The edges in the first `upto` directions.
    pub open spec fn hops(&self, p: Point3, upto: nat) -> Seq<Hop>
        decreases upto,
    {
        if upto == 0 {
            Seq::empty()
        } else {
            self.hops(p, (upto - 1) as nat) + self.hop(p, upto - 1)
        }
    }
}

impl StateGraph for Plant {
    open spec fn wf(&self) -> bool {
        Plant::wf(self)
    }

    open spec fn edges(&self, state: u64) -> Seq<Hop> {
        self.hops(place3(state), 6)
    }

    fn neighbors(&self, state: u64) -> (out: Vec<Hop>) {
        let mut out: Vec<Hop> = Vec::new();
        let p = Point3::from_key(state);
        let mut k: usize = 0;
        while k < 6
            invariant
                0 <= k <= 6,
                p == place3(state),
                out@ == self.hops(p, k as nat),
            decreases 6 - k,
        {
            let ghost before = out@;
            match p.stepped(direction6_of(k)) {
                Some(q) => {
                    let key = q.key();
                    if self.cells.contains(&key) {
                        out.push((key, 1));
                    }
                },
                None => {},
            }
            assert(out@ =~= before + self.hop(p, k as int));
            k += 1;
        }
        out
    }
}

/// The place belongs to the trunk: it lies straight above the root and
/// is no leaf.
pub open spec fn is_trunk(plant: &Plant, p: Point3) -> bool {
    p.x == 0 && p.y == 0 && p.z > 0 && !plant.leaves@.contains(p)
}

/// The way through the plant from the leaf `leaf` to the place `to` is
/// `d` steps long.
pub open spec fn is_way(plant: &Plant, leaf: Point3, to: Point3, d: nat) -> bool {
    d <= u64::MAX && is_distance(plant, seq![(key3(leaf), 0u64)], key3(to), d)
}

/// The length of the way through the plant from a leaf to a place, and
/// nothing when there is no way.
pub open spec fn way(plant: &Plant, leaf: Point3, to: Point3) -> nat {
    if exists|d: nat| is_way(plant, leaf, to, d) {
        choose|d: nat| is_way(plant, leaf, to, d)
    } else {
        0
    }
}

/// The ways from the first `upto` leaves to the place, summed.
pub open spec fn murkiness(plant: &Plant, to: Point3, upto: nat) -> nat
    decreases upto,
{
    if upto == 0 {
        0
    } else {
        murkiness(plant, to, (upto - 1) as nat) + way(plant, plant.leaves@[upto - 1], to)
    }
}

/// The murkiness grows with the leaves counted.
pub proof fn lemma_murkiness_grows(plant: &Plant, to: Point3, a: nat, b: nat)
    requires
        a <= b,
    ensures
        murkiness(plant, to, a) <= murkiness(plant, to, b),
    decreases b,
{
    if a < b {
        lemma_murkiness_grows(plant, to, a, (b - 1) as nat);
    }
}

/// A way that was found is the way.
pub proof fn lemma_way_found(plant: &Plant, leaf: Point3, to: Point3, d: nat)
    requires
        is_way(plant, leaf, to, d),
    ensures
        way(plant, leaf, to) == d,
{
    let other = choose|e: nat| is_way(plant, leaf, to, e);
    assert(reaches(plant, seq![(key3(leaf), 0u64)], key3(to), d));
    assert(reaches(plant, seq![(key3(leaf), 0u64)], key3(to), other));
}

/// The least murkiness among the places of the trunk: for each, the ways
/// to it from all the leaves are summed. `None` when the plant has no
/// trunk or a sum leaves 64 bits.
pub fn least_murkiness(plant: &Plant) -> (least: Option<u64>)
    requires
        plant.wf(),
    ensures
        match least {
            Some(m) => (exists|i: int|
                0 <= i < plant.list@.len() && is_trunk(plant, #[trigger] plant.list@[i]) && m
                    == murkiness(plant, plant.list@[i], plant.leaves@.len())) && forall|i: int|
                0 <= i < plant.list@.len() && is_trunk(plant, #[trigger] plant.list@[i]) ==> m
                    <= murkiness(plant, plant.list@[i], plant.leaves@.len()),
            None => (forall|i: int|
                0 <= i < plant.list@.len() ==> !is_trunk(plant, #[trigger] plant.list@[i]))
                || exists|i: int|
                0 <= i < plant.list@.len() && murkiness(
                    plant,
                    #[trigger] plant.list@[i],
                    plant.leaves@.len(),
                ) > u64::MAX,
        },
{
    let n = plant.list.len();
    let mut murk: Vec<u64> = Vec::new();
    let mut i: usize = 0;
    while i < n
        invariant
            0 <= i <= n,
            murk@.len() == i,
            forall|j: int| 0 <= j < i ==> murk@[j] == 0,
        decreases n - i,
    {
        murk.push(0);
        i += 1;
    }
    let mut l: usize = 0;
    while l < plant.leaves.len()
        invariant
            0 <= l <= plant.leaves.len(),
            plant.wf(),
            n == plant.list@.len(),
            murk@.len() == n,
            forall|j: int|
                0 <= j < n ==> #[trigger] murk@[j] == murkiness(plant, plant.list@[j], l as nat),
        decreases plant.leaves.len() - l,
    {
        let leaf = plant.leaves[l];
        assert(within(plant.leaves@[l as int]));
        let mut sources: Vec<Source> = Vec::new();
        sources.push((leaf.key(), 0));
        assert(sources@ =~= seq![(key3(leaf), 0u64)]);
        let table = distances(plant, &sources);
        let ghost before = murk@;
        let mut j: usize = 0;
        while j < n
            invariant
                0 <= j <= n,
                0 <= l < plant.leaves.len(),
                leaf == plant.leaves@[l as int],
                plant.wf(),
                n == plant.list@.len(),
                murk@.len() == n,
                before.len() == n,
                sources@ == seq![(key3(leaf), 0u64)],
                forall|v: u64| #[trigger]
                    table@.contains_key(v) ==> is_distance(plant, sources@, v, table@[v] as nat),
                forall|v: u64| !table@.contains_key(v) ==> #[trigger] out_of_reach(plant, sources@, v),
                forall|c: int|
                    0 <= c < n ==> #[trigger] before[c] == murkiness(plant, plant.list@[c], l as nat),
                forall|c: int|
                    0 <= c < j ==> #[trigger] murk@[c] == murkiness(
                        plant,
                        plant.list@[c],
                        (l + 1) as nat,
                    ),
                forall|c: int| j <= c < n ==> #[trigger] murk@[c] == before[c],
            decreases n - j,
        {
            let to = plant.list[j];
            assert(within(plant.list@[j as int]));
            let key = to.key();
            let far: u64 = match table.get(&key) {
                Some(d) => {
                    proof {
                        assert(table@.contains_key(key));
                        lemma_way_found(plant, leaf, to, *d as nat);
                    }
                    *d
                },
                None => {
                    proof {
                        assert(out_of_reach(plant, sources@, key));
                        if exists|d: nat| is_way(plant, leaf, to, d) {
                            let d = choose|d: nat| is_way(plant, leaf, to, d);
                            assert(reaches(plant, sources@, key, d));
                        }
                    }
                    0
                },
            };
            assert(far == way(plant, leaf, to));
            let sum = match murk[j].checked_add(far) {
                Some(s) => s,
                None => {
                    proof {
                        lemma_murkiness_grows(plant, to, (l + 1) as nat, plant.leaves@.len());
                        assert(murkiness(plant, plant.list@[j as int], plant.leaves@.len())
                            > u64::MAX);
                    }
                    return None;
                },
            };
            murk.set(j, sum);
            j += 1;
        }
        l += 1;
    }
    let mut least: Option<u64> = None;
    let mut i: usize = 0;
    while i < n
        invariant
            0 <= i <= n,
            plant.wf(),
            n == plant.list@.len(),
            murk@.len() == n,
            forall|j: int|
                0 <= j < n ==> #[trigger] murk@[j] == murkiness(
                    plant,
                    plant.list@[j],
                    plant.leaves@.len(),
                ),
            match least {
                Some(m) => (exists|c: int|
                    0 <= c < i && is_trunk(plant, #[trigger] plant.list@[c]) && m == murk@[c])
                    && forall|c: int|
                    0 <= c < i && is_trunk(plant, #[trigger] plant.list@[c]) ==> m <= murk@[c],
                None => forall|c: int| 0 <= c < i ==> !is_trunk(plant, #[trigger] plant.list@[c]),
            },
        decreases n - i,
    {
        let p = plant.list[i];
        if p.x == 0 && p.y == 0 && p.z > 0 && !plant.is_leaf(p) {
            let better = match least {
                Some(m) => murk[i] < m,
                None => true,
            };
            if better {
                least = Some(murk[i]);
            }
        }
        i += 1;
    }
    proof {
        match least {
            Some(m) => {
                let c = choose|c: int|
                    0 <= c < n && is_trunk(plant, #[trigger] plant.list@[c]) && m == murk@[c];
                assert(m == murkiness(plant, plant.list@[c], plant.leaves@.len()));
                assert forall|j: int|
                    0 <= j < plant.list@.len() && is_trunk(plant, #[trigger] plant.list@[j]) implies m
                    <= murkiness(plant, plant.list@[j], plant.leaves@.len()) by {
                    assert(m <= murk@[j]);
                }
            },
            None => {},
        }
    }
    least
}

impl Plant {
    /// Whether the place is the tip of a branch.
    pub fn is_leaf(&self, p: Point3) -> (yes: bool)
        ensures
            yes == self.leaves@.contains(p),
    {
        let mut i: usize = 0;
        while i < self.leaves.len()
            invariant
                0 <= i <= self.leaves.len(),
                forall|j: int| 0 <= j < i ==> self.leaves@[j] != p,
            decreases self.leaves.len() - i,
        {
            let l = self.leaves[i];
            if l.x == p.x && l.y == p.y && l.z == p.z {
                return true;
            }
            i += 1;
        }
        false
    }
}

} // verus!
