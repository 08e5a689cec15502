//! A map of platforms on a ring of ten levels. Going from a platform to
//! the one beside it costs one, plus the shorter way round the ring
//! between their levels.

use crate::graph::{is_distance, out_of_reach, Hop, Source, StateGraph};
use crate::point::{fits_i32, key_of, point_of, Point};
use crate::search::distances;
use crate::text::{chars_of, lines, lines_of, pieces_view};
use std::collections::HashMap;
use vstd::prelude::*;

verus! {

broadcast use vstd::std_specs::hash::group_hash_axioms;

/// The platforms by the key of their place, each with its level, and the
/// places marked as starts and as goals.
pub struct Grid {
    pub nodes: HashMap<u64, i32>,
    pub starts: Vec<Point>,
    pub goals: Vec<Point>,
}

/// The shorter way round the ring of ten between two levels.
pub open spec fn ring_shift(a: int, b: int) -> int {
    let diff = if a >= b {
        a - b
    } else {
        b - a
    };
    if diff <= 10 - diff {
        diff
    } else {
        10 - diff
    }
}

/// The shorter way round the ring of ten between two levels.
pub fn ring_shift_of(a: i32, b: i32) -> (shift: u64)
    requires
        0 <= a <= 9,
        0 <= b <= 9,
    ensures
        shift == ring_shift(a as int, b as int),
        shift <= 5,
{
    let diff = if a >= b {
        a - b
    } else {
        b - a
    };
    if diff <= 10 - diff {
        diff as u64
    } else {
        (10 - diff) as u64
    }
}

/// Direction number `k` of four: along x, against x, along y, against y.
pub open spec fn direction(k: int) -> (int, int) {
    if k == 0 {
        (1, 0)
    } else if k == 1 {
        (-1, 0)
    } else if k == 2 {
        (0, 1)
    } else {
        (0, -1)
    }
}

/// Direction number `k` as a step.
pub fn direction_of(k: usize) -> (step: Point)
    requires
        k < 4,
    ensures
        step.x == direction(k as int).0,
        step.y == direction(k as int).1,
{
    if k == 0 {
        Point::unit_x()
    } else if k == 1 {
        Point::neg_x()
    } else if k == 2 {
        Point::unit_y()
    } else {
        Point::neg_y()
    }
}

impl Grid {
    /// Every level is one of the ten of the ring.
    pub open spec fn levels_on_ring(&self) -> bool {
        forall|k: u64| #[trigger] self.nodes@.contains_key(k) ==> 0 <= self.nodes@[k] <= 9
    }

    /// The edge from the platform at `p` in direction `k`, as a sequence of
    /// none or one.
    pub open spec fn hop(&self, p: Point, k: int) -> Seq<Hop> {
        let to = (p.x + direction(k).0, p.y + direction(k).1);
        if fits_i32(to.0) && fits_i32(to.1) {
            let q = Point { x: to.0 as i32, y: to.1 as i32 };
            if self.nodes@.contains_key(key_of(q)) {
                seq![
                    (
                        key_of(q),
                        (ring_shift(self.nodes@[key_of(q)] as int, self.nodes@[key_of(p)] as int)
                            + 1) as u64,
                    ),
                ]
            } else {
                Seq::empty()
            }
        } else {
            Seq::empty()
        }
    }

    /// The edges from the platform at `p` in the first `upto` directions.
    pub open spec fn hops(&self, p: Point, upto: nat) -> Seq<Hop>
        decreases upto,
    {
        if upto == 0 {
            Seq::empty()
        } else {
            self.hops(p, (upto - 1) as nat) + self.hop(p, upto - 1)
        }
    }
}

impl StateGraph for Grid {
    open spec fn wf(&self) -> bool {
        self.levels_on_ring()
    }

    open spec fn edges(&self, state: u64) -> Seq<Hop> {
        if self.nodes@.contains_key(state) {
            self.hops(point_of(state), 4)
        } else {
            Seq::empty()
        }
    }

    fn neighbors(&self, state: u64) -> (out: Vec<Hop>) {
        let mut out: Vec<Hop> = Vec::new();
        let here = match self.nodes.get(&state) {
            Some(level) => *level,
            None => {
                return out;
            },
        };
        let p = Point::from_key(state);
        let mut k: usize = 0;
        while k < 4
            invariant
                0 <= k <= 4,
                self.levels_on_ring(),
                p == point_of(state),
                key_of(p) == state,
                self.nodes@.contains_key(state),
                here == self.nodes@[state],
                out@ == self.hops(p, k as nat),
            decreases 4 - k,
        {
            let ghost before = out@;
            match p.plus(direction_of(k)) {
                Some(q) => {
                    match self.nodes.get(&q.key()) {
                        Some(level) => {
                            let cost = ring_shift_of(*level, here) + 1;
                            out.push((q.key(), cost));
                        },
                        None => {},
                    }
                },
                None => {},
            }
            assert(out@ =~= before + self.hop(p, k as int));
            k += 1;
        }
        out
    }
}

/// The cheapest way from `start` to every platform that can be reached
/// from it, by the key of the platform's place.
pub fn shortest_times(grid: &Grid, start: Point) -> (times: HashMap<u64, u64>)
    requires
        grid.levels_on_ring(),
    ensures
        forall|v: u64| #[trigger]
            times@.contains_key(v) ==> is_distance(
                grid,
                seq![(key_of(start), 0u64)],
                v,
                times@[v] as nat,
            ),
        forall|v: u64|
            !times@.contains_key(v) ==> #[trigger] out_of_reach(
                grid,
                seq![(key_of(start), 0u64)],
                v,
            ),
{
    let mut sources: Vec<Source> = Vec::new();
    sources.push((start.key(), 0));
    assert(sources@ =~= seq![(key_of(start), 0u64)]);
    distances(grid, &sources)
}

/// What has been read of a map so far.
pub struct Plan {
    pub nodes: Map<u64, i32>,
    pub starts: Seq<Point>,
    pub goals: Seq<Point>,
}

/// The level that a character stands for, if it stands for a platform.
pub open spec fn level_of(c: char) -> Option<i32> {
    if c == 'S' || c == 'E' {
        Some(0i32)
    } else if 48 <= c as u32 <= 57 {
        Some((c as u32 - 48) as i32)
    } else {
        None
    }
}

/// The plan after the character `c` at column `x` of row `y` was read:
/// walls and gaps change nothing, `S` and `E` are platforms of level 0
/// that are marked, a digit is a platform of that level. Anything else
/// cannot be read.
pub open spec fn read_cell(plan: Plan, x: int, y: int, c: char) -> Option<Plan> {
    let at = Point { x: x as i32, y: y as i32 };
    if c == '#' || c == ' ' {
        Some(plan)
    } else if !fits_i32(x) || !fits_i32(y) {
        None
    } else {
        match level_of(c) {
            None => None,
            Some(level) => Some(
                Plan {
                    nodes: plan.nodes.insert(key_of(at), level),
                    starts: if c == 'S' {
                        plan.starts.push(at)
                    } else {
                        plan.starts
                    },
                    goals: if c == 'E' {
                        plan.goals.push(at)
                    } else {
                        plan.goals
                    },
                },
            ),
        }
    }
}

/// The plan after the first `upto` characters of row `y` were read.
pub open spec fn read_row(plan: Plan, row: Seq<char>, y: int, upto: nat) -> Option<Plan>
    decreases upto,
{
    if upto == 0 {
        Some(plan)
    } else {
        match read_row(plan, row, y, (upto - 1) as nat) {
            Some(before) => read_cell(before, upto - 1, y, row[upto - 1]),
            None => None,
        }
    }
}

/// The plan after the first `upto` rows were read.
pub open spec fn read_rows(rows: Seq<Seq<char>>, upto: nat) -> Option<Plan>
    decreases upto,
{
    if upto == 0 {
        Some(Plan { nodes: Map::empty(), starts: Seq::empty(), goals: Seq::empty() })
    } else {
        match read_rows(rows, (upto - 1) as nat) {
            Some(before) => read_row(before, rows[upto - 1], upto - 1, rows[upto - 1].len()),
            None => None,
        }
    }
}

impl Grid {
    /// What the grid holds, as a plan.
    pub open spec fn plan(&self) -> Plan {
        Plan { nodes: self.nodes@, starts: self.starts@, goals: self.goals@ }
    }

    /// Reads a map from its rows; `None` when a character stands for
    /// nothing or a place does not fit in 32 bits.
    pub fn from_rows(rows: &Vec<Vec<char>>) -> (made: Option<Grid>)
        ensures
            match made {
                Some(g) => read_rows(pieces_view(rows@), rows@.len()) == Some(g.plan())
                    && g.levels_on_ring(),
                None => read_rows(pieces_view(rows@), rows@.len()).is_none(),
            },
    {
        let mut grid = Grid { nodes: HashMap::new(), starts: Vec::new(), goals: Vec::new() };
        let ghost views = pieces_view(rows@);
        let mut y: usize = 0;
        while y < rows.len()
            invariant
                0 <= y <= rows.len(),
                views == pieces_view(rows@),
                read_rows(views, y as nat) == Some(grid.plan()),
                grid.levels_on_ring(),
            decreases rows.len() - y,
        {
            let row = &rows[y];
            let ghost start_plan = grid.plan();
            let mut x: usize = 0;
            while x < row.len()
                invariant
                    0 <= x <= row.len(),
                    0 <= y < rows.len(),
                    views == pieces_view(rows@),
                    row@ == views[y as int],
                    read_rows(views, y as nat) == Some(start_plan),
                    read_row(start_plan, row@, y as int, x as nat) == Some(grid.plan()),
                    grid.levels_on_ring(),
                decreases row.len() - x,
            {
                let c = row[x];
                let code = c as u32;
                let ghost before = grid.plan();
                if c == '#' || c == ' ' {
                } else if x > 0x7fff_ffff || y > 0x7fff_ffff {
                    assert(read_cell(before, x as int, y as int, c).is_none());
                    assert(read_row(start_plan, row@, y as int, (x + 1) as nat).is_none());
                    proof {
                        lemma_row_stays_unread(start_plan, row@, y as int, (x + 1) as nat, row@.len());
                        lemma_rows_stay_unread(views, (y + 1) as nat, views.len());
                    }
                    return None;
                } else {
                    let at = Point { x: x as i32, y: y as i32 };
                    if c == 'S' {
                        grid.nodes.insert(at.key(), 0);
                        grid.starts.push(at);
                    } else if c == 'E' {
                        grid.nodes.insert(at.key(), 0);
                        grid.goals.push(at);
                    } else if 48 <= code && code <= 57 {
                        grid.nodes.insert(at.key(), (code - 48) as i32);
                    } else {
                        assert(read_cell(before, x as int, y as int, c).is_none());
                        assert(read_row(start_plan, row@, y as int, (x + 1) as nat).is_none());
                        proof {
                            lemma_row_stays_unread(
                                start_plan,
                                row@,
                                y as int,
                                (x + 1) as nat,
                                row@.len(),
                            );
                            lemma_rows_stay_unread(views, (y + 1) as nat, views.len());
                        }
                        return None;
                    }
                }
                assert(read_cell(before, x as int, y as int, c) == Some(grid.plan())) by {
                    if !(c == '#' || c == ' ') {
                        assert(grid.plan().nodes =~= before.nodes.insert(
                            key_of(Point { x: x as i32, y: y as i32 }),
                            level_of(c).unwrap(),
                        ));
                    }
                }
                x += 1;
            }
            y += 1;
        }
        Some(grid)
    }
}

/// A row that cannot be read up to some character cannot be read further.
pub proof fn lemma_row_stays_unread(plan: Plan, row: Seq<char>, y: int, from: nat, upto: nat)
    requires
        from <= upto,
        read_row(plan, row, y, from).is_none(),
    ensures
        read_row(plan, row, y, upto).is_none(),
    decreases upto,
{
    if from < upto {
        lemma_row_stays_unread(plan, row, y, from, (upto - 1) as nat);
    }
}

/// A map that cannot be read up to some row cannot be read further.
pub proof fn lemma_rows_stay_unread(rows: Seq<Seq<char>>, from: nat, upto: nat)
    requires
        from <= upto,
        read_rows(rows, from).is_none(),
    ensures
        read_rows(rows, upto).is_none(),
    decreases upto,
{
    if from < upto {
        lemma_rows_stay_unread(rows, from, (upto - 1) as nat);
    }
}

/// The plan that a text describes, row by row.
pub open spec fn plan_of(text: Seq<char>) -> Option<Plan> {
    read_rows(lines(text), lines(text).len())
}

/// Reads a map of platforms from its text. The text has to spell a
/// map; `read_grid` tells whether it does.
pub fn parse_grid(input: &str) -> (made: Grid)
    requires
        plan_of(input@) is Some,
    ensures
        plan_of(input@) == Some(made.plan()),
        made.levels_on_ring(),
{
    read_grid(input).unwrap()
}

/// Reads a map of platforms from its text.
pub fn read_grid(input: &str) -> (made: Option<Grid>)
    ensures
        match made {
            Some(g) => plan_of(input@) == Some(g.plan()) && g.levels_on_ring(),
            None => plan_of(input@).is_none(),
        },
{
    let chars = chars_of(input);
    let rows = lines_of(&chars);
    Grid::from_rows(&rows)
}

/// `best` is the least of the times recorded for the first `upto` of
/// `places`; `None` when none of them has a time.
pub open spec fn is_least_time(
    times: Map<u64, u64>,
    places: Seq<Point>,
    upto: int,
    best: Option<u64>,
) -> bool {
    match best {
        Some(b) => (exists|k: int|
            0 <= k < upto && times.contains_key(key_of(#[trigger] places[k])) && times[key_of(
                places[k],
            )] == b) && forall|k: int|
            0 <= k < upto && times.contains_key(key_of(#[trigger] places[k])) ==> b <= times[key_of(
                places[k],
            )],
        None => forall|k: int| 0 <= k < upto ==> !times.contains_key(key_of(#[trigger] places[k])),
    }
}

/// The least of the times recorded for `places`.
pub fn least_time(times: &HashMap<u64, u64>, places: &Vec<Point>) -> (best: Option<u64>)
    ensures
        is_least_time(times@, places@, places@.len() as int, best),
{
    let mut best: Option<u64> = None;
    let mut k: usize = 0;
    while k < places.len()
        invariant
            0 <= k <= places.len(),
            is_least_time(times@, places@, k as int, best),
        decreases places.len() - k,
    {
        let key = places[k].key();
        match times.get(&key) {
            Some(t) => {
                let better = match best {
                    Some(b) => *t < b,
                    None => true,
                };
                if better {
                    best = Some(*t);
                    assert(times@.contains_key(key_of(places@[k as int])));
                }
            },
            None => {},
        }
        k += 1;
    }
    best
}

/// Start number `k` of the grid lies at the distance `d` from its first goal.
pub open spec fn start_at(grid: &Grid, k: int, d: nat) -> bool {
    0 <= k < grid.starts@.len() && is_distance(
        grid,
        seq![(key_of(grid.goals@[0]), 0u64)],
        key_of(grid.starts@[k]),
        d,
    )
}

/// The cheapest way from any of the starts of the grid to its first
/// goal: the least of the ways from the goal to a start, every way
/// costing the same in both directions. `None` when the grid has no goal
/// or no start can be reached.
pub fn nearest_start(grid: &Grid) -> (best: Option<u64>)
    requires
        grid.levels_on_ring(),
    ensures
        grid.goals@.len() == 0 ==> best.is_none(),
        grid.goals@.len() > 0 ==> match best {
            Some(b) => (exists|k: int| start_at(grid, k, b as nat)) && forall|k: int, d: nat| #[trigger]
                start_at(grid, k, d) ==> b <= d,
            None => forall|k: int|
                0 <= k < grid.starts@.len() ==> out_of_reach(
                    grid,
                    seq![(key_of(grid.goals@[0]), 0u64)],
                    key_of(#[trigger] grid.starts@[k]),
                ),
        },
{
    if grid.goals.len() == 0 {
        return None;
    }
    let times = shortest_times(grid, grid.goals[0]);
    let best = least_time(&times, &grid.starts);
    proof {
        let src = seq![(key_of(grid.goals@[0]), 0u64)];
        match best {
            Some(b) => {
                let w = choose|k: int|
                    0 <= k < grid.starts@.len() && times@.contains_key(
                        key_of(#[trigger] grid.starts@[k]),
                    ) && times@[key_of(grid.starts@[k])] == b;
                assert(start_at(grid, w, b as nat));
                assert forall|k: int, d: nat| #[trigger] start_at(grid, k, d) implies b <= d by {
                    let key = key_of(grid.starts@[k]);
                    assert(crate::graph::reaches(grid, src, key, d));
                    if !times@.contains_key(key) {
                        assert(out_of_reach(grid, src, key));
                        assert(is_distance(grid, src, key, d));
                        lemma_distance_in_reach(grid, src, key, d);
                    } else {
                        assert(is_distance(grid, src, key, times@[key] as nat));
                        assert(crate::graph::reaches(grid, src, key, times@[key] as nat));
                    }
                }
            },
            None => {},
        }
    }
    best
}

/// A place that no route within 64 bits reaches lies further away than
/// any number of 64 bits.
proof fn lemma_distance_in_reach(grid: &Grid, src: Seq<Source>, key: u64, d: nat)
    requires
        out_of_reach(grid, src, key),
        is_distance(grid, src, key, d),
    ensures
        d > u64::MAX,
{
}

} // verus!
