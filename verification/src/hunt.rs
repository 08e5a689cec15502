//! A dragon hunting sheep that walk down the board in step: every turn
//! the dragon makes a knight's move, then every sheep moves a square
//! down. A sheep is eaten when the dragon lands on it, or when it walks
//! onto the dragon, outside a shelter. The dragon is not held by the
//! edges of the board.

use crate::board::{knight, knight_move, Board};
use crate::point::{fits_i32, key_of, Point};
use std::collections::HashSet;
use vstd::prelude::*;

verus! {

broadcast use vstd::std_specs::hash::group_hash_axioms;

/// The square a knight's move number `k` from `p`, if it can be
/// written down.
pub open spec fn step_to(p: Point, k: int) -> Option<Point> {
    if fits_i32(p.x + knight(k).0) && fits_i32(p.y + knight(k).1) {
        Some(Point { x: (p.x + knight(k).0) as i32, y: (p.y + knight(k).1) as i32 })
    } else {
        None
    }
}

/// The dragon can stand on `p` after exactly `moves` knight's moves
/// from `from`.
pub open spec fn lands_on(from: Point, p: Point, moves: nat) -> bool
    decreases moves,
{
    if moves == 0 {
        p == from
    } else {
        exists|before: Point, k: int|
            0 <= k < 8 && lands_on(from, before, (moves - 1) as nat) && #[trigger] step_to(before, k)
                == Some(p)
    }
}

/// One of the first `upto` squares of the list lies a knight's move
/// from `q`.
pub open spec fn one_move_from(list: Seq<Point>, upto: int, q: Point) -> bool {
    exists|i: int, k: int|
        0 <= i < upto && 0 <= k < 8 && #[trigger] step_to(list[i], k) == Some(q)
}

/// One of the first `upto` knight's moves leads from `p` to `q`.
pub open spec fn one_of_moves(p: Point, upto: int, q: Point) -> bool {
    exists|k: int| 0 <= k < upto && #[trigger] step_to(p, k) == Some(q)
}

/// The squares a knight's move from the squares listed, each once, as
/// a set of keys and as a list.
pub fn spread(list: &Vec<Point>) -> (out: (HashSet<u64>, Vec<Point>))
    ensures
        forall|q: Point|
            #![trigger out.1@.contains(q)]
            #![trigger one_move_from(list@, list@.len() as int, q)]
            out.1@.contains(q) <==> one_move_from(list@, list@.len() as int, q),
        forall|q: Point|
            #![trigger out.1@.contains(q)]
            #![trigger out.0@.contains(key_of(q))]
            out.1@.contains(q) <==> out.0@.contains(key_of(q)),
{
    let mut cells: HashSet<u64> = HashSet::new();
    let mut next: Vec<Point> = Vec::new();
    let mut i: usize = 0;
    while i < list.len()
        invariant
            0 <= i <= list.len(),
            forall|q: Point|
                #![trigger next@.contains(q)]
                #![trigger one_move_from(list@, i as int, q)]
                next@.contains(q) <==> one_move_from(list@, i as int, q),
            forall|q: Point|
                #![trigger next@.contains(q)]
                #![trigger cells@.contains(key_of(q))]
                next@.contains(q) <==> cells@.contains(key_of(q)),
        decreases list.len() - i,
    {
        let p = list[i];
        let mut k: usize = 0;
        while k < 8
            invariant
                0 <= k <= 8,
                0 <= i < list.len(),
                p == list@[i as int],
                forall|q: Point|
                    #![trigger next@.contains(q)]
                    #![trigger one_move_from(list@, i as int, q)]
                    #![trigger one_of_moves(p, k as int, q)]
                    next@.contains(q) <==> (one_move_from(list@, i as int, q) || one_of_moves(
                        p,
                        k as int,
                        q,
                    )),
                forall|q: Point|
                    #![trigger next@.contains(q)]
                    #![trigger cells@.contains(key_of(q))]
                    next@.contains(q) <==> cells@.contains(key_of(q)),
            decreases 8 - k,
        {
            let step = knight_move(k);
            let x: i64 = p.x as i64 + step.0;
            let y: i64 = p.y as i64 + step.1;
            let ghost before = next@;
            let ghost cells_before = cells@;
            if -0x8000_0000 <= x && x <= 0x7fff_ffff && -0x8000_0000 <= y && y <= 0x7fff_ffff {
                let to = Point { x: x as i32, y: y as i32 };
                assert(step_to(p, k as int) == Some(to));
                let key = to.key();
                if !cells.contains(&key) {
                    cells.insert(key);
                    next.push(to);
                    proof {
                        assert forall|q: Point|
                            #![trigger next@.contains(q)]
                            #![trigger cells@.contains(key_of(q))]
                            next@.contains(q) <==> cells@.contains(key_of(q)) by {
                            lemma_pushed(before, to, q);
                            assert(before.contains(q) <==> cells_before.contains(key_of(q)));
                            if key_of(q) == key {
                                crate::point::lemma_key_decides(q, to);
                            }
                        }
                        assert forall|q: Point|
                            #![trigger next@.contains(q)]
                            #![trigger one_move_from(list@, i as int, q)]
                            #![trigger one_of_moves(p, k + 1, q)]
                            next@.contains(q) <==> (one_move_from(list@, i as int, q)
                                || one_of_moves(p, k + 1, q)) by {
                            lemma_pushed(before, to, q);
                            assert(before.contains(q) <==> (one_move_from(list@, i as int, q)
                                || one_of_moves(p, k as int, q)));
                            lemma_one_more_move(p, k as int, q);
                        }
                    }
                } else {
                    proof {
                        assert(before.contains(to));
                        assert forall|q: Point|
                            #![trigger next@.contains(q)]
                            #![trigger one_move_from(list@, i as int, q)]
                            #![trigger one_of_moves(p, k + 1, q)]
                            next@.contains(q) <==> (one_move_from(list@, i as int, q)
                                || one_of_moves(p, k + 1, q)) by {
                            assert(before.contains(q) <==> (one_move_from(list@, i as int, q)
                                || one_of_moves(p, k as int, q)));
                            assert(before.contains(to) <==> (one_move_from(list@, i as int, to)
                                || one_of_moves(p, k as int, to)));
                            lemma_one_more_move(p, k as int, q);
                        }
                    }
                }
            } else {
                proof {
                    assert(step_to(p, k as int).is_none());
                    assert forall|q: Point|
                        #![trigger next@.contains(q)]
                        #![trigger one_move_from(list@, i as int, q)]
                        #![trigger one_of_moves(p, k + 1, q)]
                        next@.contains(q) <==> (one_move_from(list@, i as int, q) || one_of_moves(
                            p,
                            k + 1,
                            q,
                        )) by {
                        assert(before.contains(q) <==> (one_move_from(list@, i as int, q)
                            || one_of_moves(p, k as int, q)));
                        lemma_one_more_move(p, k as int, q);
                    }
                }
            }
            k += 1;
        }
        proof {
            assert forall|q: Point|
                #![trigger next@.contains(q)]
                #![trigger one_move_from(list@, i + 1, q)]
                next@.contains(q) <==> one_move_from(list@, i + 1, q) by {
                assert(next@.contains(q) <==> (one_move_from(list@, i as int, q) || one_of_moves(
                    p,
                    8,
                    q,
                )));
                lemma_one_more_square(list@, i as int, q);
            }
        }
        i += 1;
    }
    (cells, next)
}

/// What a list holds after a push.
pub proof fn lemma_pushed(before: Seq<Point>, to: Point, q: Point)
    ensures
        before.push(to).contains(q) <==> (before.contains(q) || q == to),
{
    let after = before.push(to);
    if after.contains(q) {
        let j = choose|j: int| 0 <= j < after.len() && after[j] == q;
        if j < before.len() {
            assert(before[j] == q);
        }
    }
    if before.contains(q) {
        let j = choose|j: int| 0 <= j < before.len() && before[j] == q;
        assert(after[j] == q);
    }
    if q == to {
        assert(after[before.len() as int] == q);
    }
}

/// The moves up to number `k` and with it lead where the moves before
/// it lead, and where it leads.
pub proof fn lemma_one_more_move(p: Point, k: int, q: Point)
    requires
        0 <= k,
    ensures
        one_of_moves(p, k + 1, q) <==> (one_of_moves(p, k, q) || step_to(p, k) == Some(q)),
{
    if one_of_moves(p, k + 1, q) {
        let j = choose|j: int| 0 <= j < k + 1 && #[trigger] step_to(p, j) == Some(q);
        if j < k {
            assert(one_of_moves(p, k, q));
        }
    }
    if one_of_moves(p, k, q) {
        let j = choose|j: int| 0 <= j < k && #[trigger] step_to(p, j) == Some(q);
        assert(0 <= j < k + 1);
    }
}

/// The squares up to number `i` and with it lead where the squares
/// before it lead, and where its eight moves lead.
pub proof fn lemma_one_more_square(list: Seq<Point>, i: int, q: Point)
    requires
        0 <= i < list.len(),
    ensures
        one_move_from(list, i + 1, q) <==> (one_move_from(list, i, q) || one_of_moves(
            list[i],
            8,
            q,
        )),
{
    if one_move_from(list, i + 1, q) {
        let (j, k) = choose|j: int, k: int|
            0 <= j < i + 1 && 0 <= k < 8 && #[trigger] step_to(list[j], k) == Some(q);
        if j < i {
            assert(one_move_from(list, i, q));
        } else {
            assert(one_of_moves(list[i], 8, q));
        }
    }
    if one_move_from(list, i, q) {
        let (j, k) = choose|j: int, k: int|
            0 <= j < i && 0 <= k < 8 && #[trigger] step_to(list[j], k) == Some(q);
        assert(0 <= j < i + 1);
    }
    if one_of_moves(list[i], 8, q) {
        let k = choose|k: int| 0 <= k < 8 && #[trigger] step_to(list[i], k) == Some(q);
        assert(step_to(list[i], k) == Some(q));
    }
}

/// The list holds the squares that the dragon can stand on after
/// exactly `moves` moves.
pub open spec fn lists_landings(list: Seq<Point>, from: Point, moves: nat) -> bool {
    forall|p: Point|
        #![trigger list.contains(p)]
        #![trigger lands_on(from, p, moves)]
        list.contains(p) <==> lands_on(from, p, moves)
}

/// A move from the squares of one turn leads to the squares of the next.
pub proof fn lemma_next_landings(list: Seq<Point>, next: Seq<Point>, from: Point, moves: nat)
    requires
        lists_landings(list, from, moves),
        forall|q: Point|
            #![trigger next.contains(q)]
            #![trigger one_move_from(list, list.len() as int, q)]
            next.contains(q) <==> one_move_from(list, list.len() as int, q),
    ensures
        lists_landings(next, from, moves + 1),
{
    assert forall|q: Point|
        #![trigger next.contains(q)]
        #![trigger lands_on(from, q, moves + 1)]
        next.contains(q) <==> lands_on(from, q, moves + 1) by {
        assert(next.contains(q) <==> one_move_from(list, list.len() as int, q));
        if one_move_from(list, list.len() as int, q) {
            let (i, k) = choose|i: int, k: int|
                0 <= i < list.len() && 0 <= k < 8 && #[trigger] step_to(list[i], k) == Some(q);
            assert(list.contains(list[i]));
            assert(lands_on(from, list[i], moves));
            assert(step_to(list[i], k) == Some(q));
        }
        if lands_on(from, q, moves + 1) {
            let (before, k) = choose|before: Point, k: int|
                0 <= k < 8 && lands_on(from, before, moves) && #[trigger] step_to(before, k)
                    == Some(q);
            assert(list.contains(before));
            let i = choose|i: int| 0 <= i < list.len() && list[i] == before;
            assert(step_to(list[i], k) == Some(q));
        }
    }
}

/// The dragon can stand on the square `down` below `s` after `moves`
/// moves, and the square is no shelter.
pub open spec fn caught_at(board: &Board, s: Point, down: int, moves: nat) -> bool {
    fits_i32(s.y + down) && lands_on(
        board.init_state.dragon,
        Point { x: s.x, y: (s.y + down) as i32 },
        moves,
    ) && !board.shelters@.contains(Point { x: s.x, y: (s.y + down) as i32 })
}

/// The sheep that started on `s` is eaten in turn `t`, the first turn
/// being turn 0: the dragon lands on it, or it walks onto the dragon.
pub open spec fn eaten_in_turn(board: &Board, s: Point, t: nat) -> bool {
    caught_at(board, s, t as int, t + 1) || caught_at(board, s, (t + 1) as int, t + 1)
}

/// The sheep that started on `s` is eaten in one of the first `turns` turns.
pub open spec fn eaten_within(board: &Board, s: Point, turns: nat) -> bool {
    exists|t: nat| t < turns && #[trigger] eaten_in_turn(board, s, t)
}

/// No sheep before number `i` started on the square of sheep `i`.
pub open spec fn first_there(sheep: Seq<Point>, i: int) -> bool {
    forall|j: int| 0 <= j < i ==> #[trigger] sheep[j] != sheep[i]
}

/// How many of the squares that the first `upto` sheep started on lose
/// their sheep within `turns` turns.
pub open spec fn eaten_count(board: &Board, turns: nat, upto: nat) -> nat
    decreases upto,
{
    if upto == 0 {
        0
    } else {
        eaten_count(board, turns, (upto - 1) as nat) + (if first_there(
            board.init_state.sheep@,
            upto - 1,
        ) && eaten_within(board, board.init_state.sheep@[upto - 1], turns) {
            1nat
        } else {
            0nat
        })
    }
}

/// Whether the point is among the points listed.
pub fn among(points: &Vec<Point>, p: Point) -> (yes: bool)
    ensures
        yes == points@.contains(p),
{
    let mut i: usize = 0;
    while i < points.len()
        invariant
            0 <= i <= points.len(),
            forall|j: int| 0 <= j < i ==> points@[j] != p,
        decreases points.len() - i,
    {
        let q = points[i];
        if q.x == p.x && q.y == p.y {
            return true;
        }
        i += 1;
    }
    false
}

/// Whether the dragon, which can stand on the squares with the keys
/// in `cells`, catches the sheep there.
fn catches(board: &Board, cells: &HashSet<u64>, s: Point, down: u32) -> (yes: bool)
    ensures
        yes == (fits_i32(s.y + down) && cells@.contains(
            key_of(Point { x: s.x, y: (s.y + down) as i32 }),
        ) && !board.shelters@.contains(Point { x: s.x, y: (s.y + down) as i32 })),
{
    let y: i64 = s.y as i64 + down as i64;
    if y > 0x7fff_ffff {
        return false;
    }
    let p = Point { x: s.x, y: y as i32 };
    let key = p.key();
    cells.contains(&key) && !among(&board.shelters, p)
}

/// A sheep eaten within some turns stays eaten when more turns are
/// played; one not eaten is eaten then only in the turns added.
pub proof fn lemma_one_more_turn(board: &Board, s: Point, t: nat)
    ensures
        eaten_within(board, s, t + 1) <==> (eaten_within(board, s, t) || eaten_in_turn(board, s, t)),
{
    if eaten_within(board, s, t + 1) {
        let u = choose|u: nat| u < t + 1 && #[trigger] eaten_in_turn(board, s, u);
        if u < t {
            assert(eaten_within(board, s, t));
        }
    }
    if eaten_within(board, s, t) {
        let u = choose|u: nat| u < t && #[trigger] eaten_in_turn(board, s, u);
        assert(u < t + 1);
    }
}

/// How many of the squares on which sheep start lose their sheep
/// within `turns` turns.
pub fn count_eaten(board: &Board, turns: u32) -> (count: usize)
    ensures
        count == eaten_count(board, turns as nat, board.init_state.sheep@.len()),
{
    let n = board.init_state.sheep.len();
    let mut eaten: Vec<bool> = Vec::new();
    let mut i: usize = 0;
    while i < n
        invariant
            0 <= i <= n,
            n == board.init_state.sheep@.len(),
            eaten@.len() == i,
            forall|j: int|
                0 <= j < i ==> #[trigger] eaten@[j] == eaten_within(
                    board,
                    board.init_state.sheep@[j],
                    0,
                ),
        decreases n - i,
    {
        eaten.push(false);
        i += 1;
    }
    let mut list: Vec<Point> = Vec::new();
    list.push(board.init_state.dragon);
    proof {
        assert forall|p: Point|
            #![trigger list@.contains(p)]
            #![trigger lands_on(board.init_state.dragon, p, 0)]
            list@.contains(p) <==> lands_on(board.init_state.dragon, p, 0) by {
            if p == board.init_state.dragon {
                assert(list@[0] == p);
            }
        }
    }
    let mut t: u32 = 0;
    while t < turns
        invariant
            0 <= t <= turns,
            n == board.init_state.sheep@.len(),
            eaten@.len() == n,
            lists_landings(list@, board.init_state.dragon, t as nat),
            forall|j: int|
                0 <= j < n ==> #[trigger] eaten@[j] == eaten_within(
                    board,
                    board.init_state.sheep@[j],
                    t as nat,
                ),
        decreases turns - t,
    {
        let (cells, next) = spread(&list);
        proof {
            lemma_next_landings(list@, next@, board.init_state.dragon, t as nat);
        }
        let ghost before = eaten@;
        let mut i: usize = 0;
        while i < n
            invariant
                0 <= i <= n,
                0 <= t < turns,
                n == board.init_state.sheep@.len(),
                eaten@.len() == n,
                before.len() == n,
                lists_landings(next@, board.init_state.dragon, (t + 1) as nat),
                forall|q: Point|
                    #![trigger next@.contains(q)]
                    #![trigger cells@.contains(key_of(q))]
                    next@.contains(q) <==> cells@.contains(key_of(q)),
                forall|j: int|
                    0 <= j < n ==> #[trigger] before[j] == eaten_within(
                        board,
                        board.init_state.sheep@[j],
                        t as nat,
                    ),
                forall|j: int|
                    0 <= j < i ==> #[trigger] eaten@[j] == eaten_within(
                        board,
                        board.init_state.sheep@[j],
                        (t + 1) as nat,
                    ),
                forall|j: int| i <= j < n ==> #[trigger] eaten@[j] == before[j],
            decreases n - i,
        {
            let s = board.init_state.sheep[i];
            let met = catches(board, &cells, s, t);
            let walked: bool = t < 0xffff_ffff && catches(board, &cells, s, t + 1);
            proof {
                let from = board.init_state.dragon;
                if fits_i32(s.y + t) {
                    let p = Point { x: s.x, y: (s.y + t) as i32 };
                    assert(next@.contains(p) <==> cells@.contains(key_of(p)));
                    assert(next@.contains(p) <==> lands_on(from, p, (t + 1) as nat));
                }
                if fits_i32(s.y + t + 1) {
                    let p = Point { x: s.x, y: (s.y + t + 1) as i32 };
                    assert(next@.contains(p) <==> cells@.contains(key_of(p)));
                    assert(next@.contains(p) <==> lands_on(from, p, (t + 1) as nat));
                }
                assert(met == caught_at(board, s, t as int, (t + 1) as nat));
                assert(walked == caught_at(board, s, t + 1, (t + 1) as nat));
                lemma_one_more_turn(board, s, t as nat);
            }
            if met || walked {
                eaten.set(i, true);
            }
            i += 1;
        }
        list = next;
        t += 1;
    }
    let mut count: usize = 0;
    let mut i: usize = 0;
    while i < n
        invariant
            0 <= i <= n,
            n == board.init_state.sheep@.len(),
            eaten@.len() == n,
            count <= i,
            count == eaten_count(board, turns as nat, i as nat),
            forall|j: int|
                0 <= j < n ==> #[trigger] eaten@[j] == eaten_within(
                    board,
                    board.init_state.sheep@[j],
                    turns as nat,
                ),
        decreases n - i,
    {
        if eaten[i] {
            let s = board.init_state.sheep[i];
            let mut first = true;
            let mut j: usize = 0;
            while j < i
                invariant
                    0 <= j <= i,
                    i < n,
                    n == board.init_state.sheep@.len(),
                    s == board.init_state.sheep@[i as int],
                    first == forall|c: int|
                        0 <= c < j ==> #[trigger] board.init_state.sheep@[c] != s,
                decreases i - j,
            {
                let other = board.init_state.sheep[j];
                if other.x == s.x && other.y == s.y {
                    first = false;
                }
                j += 1;
            }
            if first {
                count += 1;
            }
        }
        i += 1;
    }
    count
}

} // verus!
