//! A plane with walls, walked between the coordinates that matter.
//!
//! Walls are boxes. A walker stands on a point whose coordinates are both
//! kept by the world's compressors, and steps along one axis to the next
//! kept coordinate, unless the stretch it would cross touches a wall.

use crate::compressor::CoordinateCompressor;
use crate::graph::{answers, Hop, Source, StateGraph};
use crate::compressor::beside_one_of;
use crate::point::{fits_i32, lemma_cell, lemma_cell_of, Point, Square};
use crate::text::{chars_of, integer, parse_integer, pieces_view, split, split_at_each, trim, trimmed};
use crate::search::shortest_path;
use vstd::prelude::*;

verus! {

/// An upright box of grid points, given by its least and greatest
/// coordinate on each axis, both included.
#[derive(Clone, Copy, Debug, PartialEq, Eq, Structural)]
pub struct CollisionBox {
    pub x_min: i32,
    pub x_max: i32,
    pub y_min: i32,
    pub y_max: i32,
}

/// The smaller of two coordinates.
pub open spec fn lesser(a: i32, b: i32) -> i32 {
    if a <= b {
        a
    } else {
        b
    }
}

/// The greater of two coordinates.
pub open spec fn greater(a: i32, b: i32) -> i32 {
    if a >= b {
        a
    } else {
        b
    }
}

impl CollisionBox {
    /// The smallest box that holds both points.
    pub open spec fn spanning(start: Point, end: Point) -> CollisionBox {
        CollisionBox {
            x_min: lesser(start.x, end.x),
            x_max: greater(start.x, end.x),
            y_min: lesser(start.y, end.y),
            y_max: greater(start.y, end.y),
        }
    }

    /// The point lies in the box.
    pub open spec fn covers(&self, p: Point) -> bool {
        self.x_min <= p.x <= self.x_max && self.y_min <= p.y <= self.y_max
    }

    /// The box holds at least one point.
    pub open spec fn inhabited(&self) -> bool {
        self.x_min <= self.x_max && self.y_min <= self.y_max
    }

    /// The two boxes meet on both axes.
    pub open spec fn meets(&self, other: CollisionBox) -> bool {
        self.x_min <= other.x_max && self.x_max >= other.x_min && self.y_min <= other.y_max
            && self.y_max >= other.y_min
    }

    /// The smallest box that holds both points.
    pub fn new(start: Point, end: Point) -> (made: CollisionBox)
        ensures
            made == CollisionBox::spanning(start, end),
            made.inhabited(),
    {
        CollisionBox {
            x_min: if start.x <= end.x {
                start.x
            } else {
                end.x
            },
            x_max: if start.x >= end.x {
                start.x
            } else {
                end.x
            },
            y_min: if start.y <= end.y {
                start.y
            } else {
                end.y
            },
            y_max: if start.y >= end.y {
                start.y
            } else {
                end.y
            },
        }
    }

    /// Whether the two boxes meet.
    pub fn overlaps(&self, other: &CollisionBox) -> (yes: bool)
        ensures
            yes == self.meets(*other),
    {
        (self.x_min <= other.x_max && self.x_max >= other.x_min) && (self.y_min <= other.y_max
            && self.y_max >= other.y_min)
    }

    /// Two boxes that each hold a point meet exactly when some point lies in both.
    pub proof fn lemma_meets_shares_point(&self, other: CollisionBox)
        requires
            self.inhabited(),
            other.inhabited(),
        ensures
            self.meets(other) <==> exists|p: Point| self.covers(p) && other.covers(p),
    {
        if self.meets(other) {
            let p = Point {
                x: greater(self.x_min, other.x_min),
                y: greater(self.y_min, other.y_min),
            };
            assert(self.covers(p) && other.covers(p));
        }
    }
}

/// The direction from `from` to `to` along one axis: -1, 0 or 1.
pub open spec fn toward(from: i32, to: i32) -> int {
    if to > from {
        1
    } else if to < from {
        -1
    } else {
        0
    }
}

/// Index `index` moved by `by`, if that stays below `len`.
pub open spec fn shifted(index: int, by: int, len: int) -> Option<int> {
    if 0 <= index + by < len {
        Some(index + by)
    } else {
        None
    }
}

/// Moves an index by a signed amount, bounds-checked.
pub fn shift_index(index: usize, by: i32, len: usize) -> (moved: Option<usize>)
    ensures
        moved == (match shifted(index as int, by as int, len as int) {
            Some(j) => Some(j as usize),
            None => None,
        }),
{
    let j: i128 = index as i128 + by as i128;
    if 0 <= j && j < len as i128 {
        Some(j as usize)
    } else {
        None
    }
}

/// Walls, a start, an end, and the coordinates that matter on each axis.
pub struct World {
    pub walls: Vec<CollisionBox>,
    pub start: Point,
    pub end: Point,
    pub reduced_xs: CoordinateCompressor,
    pub reduced_ys: CoordinateCompressor,
}

impl World {
    /// The stretch crossed on the way from `from` to `to`: everything from
    /// the first point after `from` up to `to` itself.
    pub open spec fn travel_box(from: Point, to: Point) -> CollisionBox {
        CollisionBox::spanning(
            Point {
                x: (from.x + toward(from.x, to.x)) as i32,
                y: (from.y + toward(from.y, to.y)) as i32,
            },
            to,
        )
    }

    /// Some wall meets the box.
    pub open spec fn blocked(&self, stretch: CollisionBox) -> bool {
        exists|k: int| 0 <= k < self.walls@.len() && (#[trigger] self.walls@[k]).meets(stretch)
    }

    /// Where a step of `delta` ranks from `p` leads, walls aside.
    pub open spec fn target(&self, p: Point, delta: Point) -> Option<Point> {
        match (self.reduced_xs.rank(p.x), self.reduced_ys.rank(p.y)) {
            (Some(ix), Some(iy)) => match (
                shifted(ix, delta.x as int, self.reduced_xs@.len() as int),
                shifted(iy, delta.y as int, self.reduced_ys@.len() as int),
            ) {
                (Some(jx), Some(jy)) => Some(
                    Point { x: self.reduced_xs@[jx], y: self.reduced_ys@[jy] },
                ),
                _ => None,
            },
            _ => None,
        }
    }

    /// Where a step of `delta` ranks from `p` leads, or `None` when it
    /// leaves the kept coordinates or crosses a wall.
    pub open spec fn neighbour(&self, p: Point, delta: Point) -> Option<Point> {
        match self.target(p, delta) {
            Some(q) => if self.blocked(World::travel_box(p, q)) {
                None
            } else {
                Some(q)
            },
            None => None,
        }
    }

    /// The neighbour as a sequence of none or one.
    pub open spec fn neighbour_seq(&self, p: Point, delta: Point) -> Seq<Point> {
        match self.neighbour(p, delta) {
            Some(q) => seq![q],
            None => Seq::empty(),
        }
    }

    /// The neighbours of `p` in the four directions, in the order
    /// +x, +y, -x, -y.
    pub open spec fn valid_neighbours(&self, p: Point) -> Seq<Point> {
        self.neighbour_seq(p, Point { x: 1, y: 0 }) + self.neighbour_seq(p, Point { x: 0, y: 1 })
            + self.neighbour_seq(p, Point { x: -1i32, y: 0 }) + self.neighbour_seq(
            p,
            Point { x: 0, y: -1i32 },
        )
    }

    /// Whether some wall meets the box.
    pub fn hits_wall(&self, stretch: &CollisionBox) -> (hit: bool)
        ensures
            hit == self.blocked(*stretch),
    {
        let mut k: usize = 0;
        while k < self.walls.len()
            invariant
                0 <= k <= self.walls.len(),
                forall|j: int| 0 <= j < k ==> !(#[trigger] self.walls@[j]).meets(*stretch),
            decreases self.walls.len() - k,
        {
            if self.walls[k].overlaps(stretch) {
                return true;
            }
            k += 1;
        }
        false
    }

    /// The neighbour of `point` a step of `delta` ranks away.
    pub fn get_neighbour(&self, point: &Point, delta: &Point) -> (found: Option<Point>)
        requires
            self.wf(),
        ensures
            found == self.neighbour(*point, *delta),
    {
        let old_x_index = match self.reduced_xs.rank_of(point.x) {
            Some(i) => i,
            None => {
                return None;
            },
        };
        let old_y_index = match self.reduced_ys.rank_of(point.y) {
            Some(i) => i,
            None => {
                return None;
            },
        };
        let new_x_index = match shift_index(old_x_index, delta.x, self.reduced_xs.len()) {
            Some(i) => i,
            None => {
                return None;
            },
        };
        let new_y_index = match shift_index(old_y_index, delta.y, self.reduced_ys.len()) {
            Some(i) => i,
            None => {
                return None;
            },
        };
        let new_pos = Point {
            x: self.reduced_xs.coordinate_of(new_x_index),
            y: self.reduced_ys.coordinate_of(new_y_index),
        };
        let shifted_old_pos = Point {
            x: if new_pos.x > point.x {
                point.x + 1
            } else if new_pos.x < point.x {
                point.x - 1
            } else {
                point.x
            },
            y: if new_pos.y > point.y {
                point.y + 1
            } else if new_pos.y < point.y {
                point.y - 1
            } else {
                point.y
            },
        };
        let travel_hit_box = CollisionBox::new(shifted_old_pos, new_pos);
        if self.hits_wall(&travel_hit_box) {
            None
        } else {
            Some(new_pos)
        }
    }

    /// The neighbours of `point` in the four directions.
    pub fn get_valid_neighbours(&self, point: &Point) -> (found: Vec<Point>)
        requires
            self.wf(),
        ensures
            found@ == self.valid_neighbours(*point),
    {
        let mut found: Vec<Point> = Vec::new();
        let ghost p = *point;
        match self.get_neighbour(point, &Point::unit_x()) {
            Some(q) => {
                found.push(q);
            },
            None => {},
        }
        assert(found@ =~= self.neighbour_seq(p, Point { x: 1, y: 0 }));
        match self.get_neighbour(point, &Point::unit_y()) {
            Some(q) => {
                found.push(q);
            },
            None => {},
        }
        assert(found@ =~= self.neighbour_seq(p, Point { x: 1, y: 0 }) + self.neighbour_seq(
            p,
            Point { x: 0, y: 1 },
        ));
        match self.get_neighbour(point, &Point::neg_x()) {
            Some(q) => {
                found.push(q);
            },
            None => {},
        }
        assert(found@ =~= self.neighbour_seq(p, Point { x: 1, y: 0 }) + self.neighbour_seq(
            p,
            Point { x: 0, y: 1 },
        ) + self.neighbour_seq(p, Point { x: -1i32, y: 0 }));
        match self.get_neighbour(point, &Point::neg_y()) {
            Some(q) => {
                found.push(q);
            },
            None => {},
        }
        assert(found@ =~= self.valid_neighbours(p));
        found
    }

    /// How many points have both coordinates kept.
    pub open spec fn nodes(&self) -> int {
        (self.reduced_xs@.len() * self.reduced_ys@.len()) as int
    }

    /// The compressors are in order and the points can be numbered in 64 bits.
    pub open spec fn wf(&self) -> bool {
        &&& self.reduced_xs.wf()
        &&& self.reduced_ys.wf()
        &&& self.nodes() <= u64::MAX
    }

    /// The number of a point whose coordinates are both kept: its x rank
    /// times the number of kept y coordinates, plus its y rank.
    pub open spec fn id(&self, p: Point) -> Option<u64> {
        match (self.reduced_xs.rank(p.x), self.reduced_ys.rank(p.y)) {
            (Some(ix), Some(iy)) => Some((ix * self.reduced_ys@.len() + iy) as u64),
            _ => None,
        }
    }

    /// The point with number `id`.
    pub open spec fn point(&self, id: u64) -> Point {
        Point {
            x: self.reduced_xs@[id as int / self.reduced_ys@.len() as int],
            y: self.reduced_ys@[id as int % self.reduced_ys@.len() as int],
        }
    }

    /// Numbering a point and reading the number back gives the point.
    pub proof fn lemma_id_round_trip(&self, p: Point)
        requires
            self.wf(),
            self.id(p) is Some,
        ensures
            self.id(p).unwrap() < self.nodes(),
            self.point(self.id(p).unwrap()) == p,
    {
        let ix = self.reduced_xs.rank(p.x).unwrap();
        let iy = self.reduced_ys.rank(p.y).unwrap();
        let ny = self.reduced_ys@.len() as int;
        let nx = self.reduced_xs@.len() as int;
        self.reduced_xs.lemma_round_trip(p.x);
        self.reduced_ys.lemma_round_trip(p.y);
        lemma_cell(ix, iy, nx, ny);
    }

    /// Reading a number and numbering the point gives the number back.
    pub proof fn lemma_point_round_trip(&self, id: u64)
        requires
            self.wf(),
            id < self.nodes(),
        ensures
            self.id(self.point(id)) == Some(id),
    {
        let ny = self.reduced_ys@.len() as int;
        let nx = self.reduced_xs@.len() as int;
        lemma_cell_of(id as int, nx, ny);
        self.reduced_xs.lemma_rank_of_coordinate(id as int / ny);
        self.reduced_ys.lemma_rank_of_coordinate(id as int % ny);
    }

    /// The number of `p`, if both its coordinates are kept.
    pub fn id_of(&self, p: &Point) -> (id: Option<u64>)
        requires
            self.wf(),
        ensures
            id == self.id(*p),
    {
        match (self.reduced_xs.rank_of(p.x), self.reduced_ys.rank_of(p.y)) {
            (Some(ix), Some(iy)) => {
                proof {
                    lemma_cell(
                        ix as int,
                        iy as int,
                        self.reduced_xs@.len() as int,
                        self.reduced_ys@.len() as int,
                    );
                }
                Some(ix as u64 * self.reduced_ys.len() as u64 + iy as u64)
            },
            _ => None,
        }
    }

    /// The point with number `id`.
    pub fn point_at(&self, id: u64) -> (p: Point)
        requires
            self.wf(),
            id < self.nodes(),
        ensures
            p == self.point(id),
    {
        let ny = self.reduced_ys.len() as u64;
        proof {
            lemma_cell_of(id as int, self.reduced_xs@.len() as int, ny as int);
        }
        let nx = self.reduced_xs.len();
        let row = (id / ny) as usize;
        let column = (id % ny) as usize;
        assert(row as int == id as int / self.reduced_ys@.len() as int);
        assert(column as int == id as int % self.reduced_ys@.len() as int);
        let p = Point {
            x: self.reduced_xs.coordinate_of(row),
            y: self.reduced_ys.coordinate_of(column),
        };
        p
    }

    /// The edge from `p` in direction `delta`, as a sequence of none or one:
    /// the number of the neighbour and the distance walked.
    pub open spec fn hop_seq(&self, p: Point, delta: Point) -> Seq<Hop> {
        match self.neighbour(p, delta) {
            Some(q) => seq![(self.id(q).unwrap(), p.spec_manhattan(q) as u64)],
            None => Seq::empty(),
        }
    }

    /// A neighbour along an axis has a number and lies a distance away that
    /// fits in 32 bits.
    pub proof fn lemma_neighbour_numbered(&self, p: Point, delta: Point)
        requires
            self.wf(),
            delta.x == 0 || delta.y == 0,
            self.neighbour(p, delta) is Some,
        ensures
            self.id(self.neighbour(p, delta).unwrap()) is Some,
            0 <= p.spec_manhattan(self.neighbour(p, delta).unwrap()) <= u32::MAX,
    {
        let q = self.neighbour(p, delta).unwrap();
        let ix = self.reduced_xs.rank(p.x).unwrap();
        let iy = self.reduced_ys.rank(p.y).unwrap();
        let jx = shifted(ix, delta.x as int, self.reduced_xs@.len() as int).unwrap();
        let jy = shifted(iy, delta.y as int, self.reduced_ys@.len() as int).unwrap();
        self.reduced_xs.lemma_rank_of_coordinate(jx);
        self.reduced_ys.lemma_rank_of_coordinate(jy);
        self.reduced_xs.lemma_round_trip(p.x);
        self.reduced_ys.lemma_round_trip(p.y);
    }

    /// Computes the edge from `p` in direction `delta` and appends it.
    fn push_hop(&self, p: &Point, delta: &Point, out: &mut Vec<Hop>)
        requires
            self.wf(),
            delta.x == 0 || delta.y == 0,
        ensures
            final(out)@ == old(out)@ + self.hop_seq(*p, *delta),
    {
        match self.get_neighbour(p, delta) {
            Some(q) => {
                proof {
                    self.lemma_neighbour_numbered(*p, *delta);
                }
                let id = self.id_of(&q).unwrap();
                let d = p.manhattan_distance(q).unwrap();
                out.push((id, d as u64));
                assert(out@ =~= old(out)@ + self.hop_seq(*p, *delta));
            },
            None => {
                assert(out@ =~= old(out)@ + self.hop_seq(*p, *delta));
            },
        }
    }
}

impl StateGraph for World {
    open spec fn wf(&self) -> bool {
        World::wf(self)
    }

    open spec fn edges(&self, state: u64) -> Seq<Hop> {
        if state < self.nodes() {
            let p = self.point(state);
            self.hop_seq(p, Point { x: 1, y: 0 }) + self.hop_seq(p, Point { x: 0, y: 1 })
                + self.hop_seq(p, Point { x: -1i32, y: 0 }) + self.hop_seq(
                p,
                Point { x: 0, y: -1i32 },
            )
        } else {
            Seq::empty()
        }
    }

    fn neighbors(&self, state: u64) -> (out: Vec<Hop>) {
        let mut out: Vec<Hop> = Vec::new();
        let nx = self.reduced_xs.len() as u64;
        let ny = self.reduced_ys.len() as u64;
        proof {
            assert(nx * ny == self.nodes());
        }
        if ny == 0 || state / ny >= nx {
            proof {
                if ny > 0 {
                    assert(state >= nx * ny) by (nonlinear_arith)
                        requires
                            state / ny >= nx,
                            ny > 0,
                            state >= 0,
                            nx >= 0,
                    ;
                } else {
                    assert(nx * ny == 0) by (nonlinear_arith)
                        requires
                            ny == 0,
                    ;
                }
            }
            return out;
        }
        proof {
            assert(state < nx * ny) by (nonlinear_arith)
                requires
                    state / ny < nx,
                    ny > 0,
                    state >= 0,
            ;
        }
        let p = self.point_at(state);
        self.push_hop(&p, &Point::unit_x(), &mut out);
        self.push_hop(&p, &Point::unit_y(), &mut out);
        self.push_hop(&p, &Point::neg_x(), &mut out);
        self.push_hop(&p, &Point::neg_y(), &mut out);
        assert(out@ =~= self.edges(state));
        out
    }
}

/// The walking distance from the world's start to its end.
///
/// When both have numbers, this is the cheapest route between them in the
/// graph of kept points. A start without a number can only reach itself.
pub fn get_shortest_distance(world: &World) -> (found: Option<u64>)
    requires
        world.wf(),
    ensures
        match (world.id(world.start), world.id(world.end)) {
            (Some(s), Some(e)) => answers(world, seq![(s, 0u64)], e, found),
            _ => found == (if world.start == world.end {
                Some(0u64)
            } else {
                None
            }),
        },
{
    match (world.id_of(&world.start), world.id_of(&world.end)) {
        (Some(s), Some(e)) => {
            let mut sources: Vec<Source> = Vec::new();
            sources.push((s, 0));
            assert(sources@ =~= seq![(s, 0u64)]);
            shortest_path(world, &sources, e)
        },
        _ => {
            if world.start.x == world.end.x && world.start.y == world.end.y {
                Some(0)
            } else {
                None
            }
        },
    }
}

/// A quarter turn.
#[derive(Clone, Copy, Debug, PartialEq, Eq, Structural)]
pub enum Turn {
    Left,
    Right,
}

/// One stretch of wall: turn, then build `count` squares.
#[derive(Clone, Copy, Debug, PartialEq, Eq, Structural)]
pub struct Step {
    pub turn: Turn,
    pub count: i32,
}

/// The most steps a world is built from.
pub const MOST_STEPS: usize = 1_000_000_000;

/// The heading `dir` after a quarter turn.
pub open spec fn turned(dir: Square, turn: Turn) -> Square {
    match turn {
        Turn::Left => (dir.1, -dir.0),
        Turn::Right => (-dir.1, dir.0),
    }
}

/// The heading during step `k`, counted from 1; before the first step the
/// builder looks up the y axis.
pub open spec fn heading(steps: Seq<Step>, k: nat) -> Square
    decreases k,
{
    if k == 0 {
        (0, -1)
    } else {
        turned(heading(steps, (k - 1) as nat), steps[k - 1].turn)
    }
}

/// A heading taken `count` times.
pub open spec fn scaled(dir: Square, count: int) -> Square {
    (dir.0 * count, dir.1 * count)
}

/// The sum of two squares.
pub open spec fn offset(p: Square, by: Square) -> Square {
    (p.0 + by.0, p.1 + by.1)
}

/// Where the builder stands after `k` steps.
pub open spec fn corner(steps: Seq<Step>, k: nat) -> Square
    decreases k,
{
    if k == 0 {
        (0, 0)
    } else {
        offset(corner(steps, (k - 1) as nat), scaled(heading(steps, k), steps[k - 1].count as int))
    }
}

/// The last square of the wall built in step `k`, counted from 0: one
/// short of the corner the builder goes on to.
pub open spec fn wall_end(steps: Seq<Step>, k: nat) -> Square {
    offset(corner(steps, k), scaled(heading(steps, k + 1), steps[k as int].count - 1))
}

/// Both coordinates fit in 32 bits.
pub open spec fn fits_square(p: Square) -> bool {
    fits_i32(p.0) && fits_i32(p.1)
}

/// Step `k` can be built without a number leaving 32 bits.
pub open spec fn step_fits(steps: Seq<Step>, k: int) -> bool {
    &&& steps[k].count > i32::MIN
    &&& fits_square(scaled(heading(steps, (k + 1) as nat), steps[k].count - 1))
    &&& fits_square(scaled(heading(steps, (k + 1) as nat), steps[k].count as int))
    &&& fits_square(wall_end(steps, k as nat))
    &&& fits_square(corner(steps, (k + 1) as nat))
}

/// Every step can be built.
pub open spec fn walkable(steps: Seq<Step>) -> bool {
    forall|k: int| 0 <= k < steps.len() ==> #[trigger] step_fits(steps, k)
}

/// A square with coordinates that fit, as a point.
pub open spec fn as_point(p: Square) -> Point {
    Point { x: p.0 as i32, y: p.1 as i32 }
}

/// The x coordinates of the corners up to corner `upto`.
pub open spec fn corner_xs(steps: Seq<Step>, upto: nat) -> Seq<i32> {
    Seq::new(upto + 1, |k: int| corner(steps, k as nat).0 as i32)
}

/// The y coordinates of the corners up to corner `upto`.
pub open spec fn corner_ys(steps: Seq<Step>, upto: nat) -> Seq<i32> {
    Seq::new(upto + 1, |k: int| corner(steps, k as nat).1 as i32)
}

/// A heading is one step along an axis.
pub open spec fn is_heading(dir: Square) -> bool {
    dir == (0int, 1int) || dir == (0int, -1int) || dir == (1int, 0int) || dir == (-1int, 0int)
}

/// Every heading is one step along an axis.
pub proof fn lemma_heading_unit(steps: Seq<Step>, k: nat)
    ensures
        is_heading(heading(steps, k)),
    decreases k,
{
    if k > 0 {
        lemma_heading_unit(steps, (k - 1) as nat);
    }
}

impl World {
    /// The world is the one that `steps` build: it starts at the origin and
    /// ends at the last corner, has one wall for each step, and keeps the
    /// coordinates of every corner and of the squares beside it.
    pub open spec fn laid_out(&self, steps: Seq<Step>) -> bool {
        &&& World::wf(self)
        &&& self.start == (Point { x: 0, y: 0 })
        &&& self.end == as_point(corner(steps, steps.len()))
        &&& self.walls@.len() == steps.len()
        &&& forall|k: int|
            0 <= k < steps.len() ==> #[trigger] self.walls@[k] == CollisionBox::spanning(
                as_point(corner(steps, k as nat)),
                as_point(wall_end(steps, k as nat)),
            )
        &&& forall|c: i32|
            #![trigger self.reduced_xs@.contains(c)]
            self.reduced_xs@.contains(c) <==> beside_one_of(corner_xs(steps, steps.len()), c)
        &&& forall|c: i32|
            #![trigger self.reduced_ys@.contains(c)]
            self.reduced_ys@.contains(c) <==> beside_one_of(corner_ys(steps, steps.len()), c)
    }

    /// Builds the world that `steps` describe; `None` when a coordinate
    /// leaves 32 bits or there are more steps than `MOST_STEPS`.
    pub fn from_steps(steps: &Vec<Step>) -> (made: Option<World>)
        ensures
            made is Some <==> walkable(steps@) && steps@.len() <= MOST_STEPS,
            made is Some ==> made.unwrap().laid_out(steps@),
    {
        if steps.len() > MOST_STEPS {
            return None;
        }
        let start = Point::zero();
        let mut current_dir = Point::neg_y();
        let mut current_pos = start;
        let mut walls: Vec<CollisionBox> = Vec::new();
        let mut xs: Vec<i32> = Vec::new();
        let mut ys: Vec<i32> = Vec::new();
        xs.push(0);
        ys.push(0);
        assert(xs@ =~= corner_xs(steps@, 0));
        assert(ys@ =~= corner_ys(steps@, 0));
        let mut k: usize = 0;
        while k < steps.len()
            invariant
                0 <= k <= steps.len(),
                steps@.len() <= MOST_STEPS,
                (current_dir.x as int, current_dir.y as int) == heading(steps@, k as nat),
                (current_pos.x as int, current_pos.y as int) == corner(steps@, k as nat),
                forall|j: int| 0 <= j < k ==> #[trigger] step_fits(steps@, j),
                walls@.len() == k,
                forall|j: int|
                    0 <= j < k ==> #[trigger] walls@[j] == CollisionBox::spanning(
                        as_point(corner(steps@, j as nat)),
                        as_point(wall_end(steps@, j as nat)),
                    ),
                xs@ == corner_xs(steps@, k as nat),
                ys@ == corner_ys(steps@, k as nat),
            decreases steps.len() - k,
        {
            let step = steps[k];
            proof {
                lemma_heading_unit(steps@, k as nat);
                lemma_heading_unit(steps@, (k + 1) as nat);
            }
            let turned_to = match step.turn {
                Turn::Left => Point::neg_y().rotate(current_dir),
                Turn::Right => Point::unit_y().rotate(current_dir),
            };
            let dir = turned_to.unwrap();
            assert((dir.x as int, dir.y as int) == heading(steps@, (k + 1) as nat));
            if step.count == i32::MIN {
                assert(!step_fits(steps@, k as int));
                return None;
            }
            let wall_vec = match dir.times(step.count - 1) {
                Some(v) => v,
                None => {
                    assert(!step_fits(steps@, k as int));
                    return None;
                },
            };
            let wall_last = match current_pos.plus(wall_vec) {
                Some(p) => p,
                None => {
                    assert(!step_fits(steps@, k as int));
                    return None;
                },
            };
            let stride = match dir.times(step.count) {
                Some(v) => v,
                None => {
                    assert(!step_fits(steps@, k as int));
                    return None;
                },
            };
            let next_pos = match current_pos.plus(stride) {
                Some(p) => p,
                None => {
                    assert(!step_fits(steps@, k as int));
                    return None;
                },
            };
            assert(step_fits(steps@, k as int));
            walls.push(CollisionBox::new(current_pos, wall_last));
            current_pos = next_pos;
            current_dir = dir;
            xs.push(current_pos.x);
            ys.push(current_pos.y);
            assert(xs@ =~= corner_xs(steps@, (k + 1) as nat));
            assert(ys@ =~= corner_ys(steps@, (k + 1) as nat));
            k += 1;
        }
        let reduced_xs = CoordinateCompressor::around(&xs);
        let reduced_ys = CoordinateCompressor::around(&ys);
        proof {
            let nx = reduced_xs@.len() as int;
            let ny = reduced_ys@.len() as int;
            assert(nx * ny <= u64::MAX) by (nonlinear_arith)
                requires
                    0 <= nx <= 3_000_000_003,
                    0 <= ny <= 3_000_000_003,
            ;
        }
        Some(World { walls, start, end: current_pos, reduced_xs, reduced_ys })
    }
}

/// The step that a piece of text spells: `L` or `R` and a whole number
/// that fits in 32 bits.
pub open spec fn step_of(piece: Seq<char>) -> Option<Step> {
    if piece.len() == 0 || !(piece[0] == 'L' || piece[0] == 'R') {
        None
    } else {
        match integer(piece.drop_first()) {
            Some(v) => if fits_i32(v) {
                Some(
                    Step {
                        turn: if piece[0] == 'L' {
                            Turn::Left
                        } else {
                            Turn::Right
                        },
                        count: v as i32,
                    },
                )
            } else {
                None
            },
            None => None,
        }
    }
}

/// The steps that a text spells, separated by commas, if every piece
/// spells one.
pub open spec fn steps_of(text: Seq<char>) -> Option<Seq<Step>> {
    let pieces = split(trim(text), ',');
    if forall|k: int| 0 <= k < pieces.len() ==> step_of(#[trigger] pieces[k]) is Some {
        Some(Seq::new(pieces.len(), |k: int| step_of(pieces[k]).unwrap()))
    } else {
        None
    }
}

/// Reads one step.
pub fn parse_step(piece: &Vec<char>) -> (read: Option<Step>)
    ensures
        read == step_of(piece@),
{
    if piece.len() == 0 {
        return None;
    }
    let turn = if piece[0] == 'L' {
        Turn::Left
    } else if piece[0] == 'R' {
        Turn::Right
    } else {
        return None;
    };
    let mut rest: Vec<char> = Vec::new();
    let mut i: usize = 1;
    while i < piece.len()
        invariant
            1 <= i <= piece.len(),
            rest@ == piece@.subrange(1, i as int),
        decreases piece.len() - i,
    {
        rest.push(piece[i]);
        assert(rest@ =~= piece@.subrange(1, i + 1));
        i += 1;
    }
    assert(rest@ =~= piece@.drop_first());
    match parse_integer(&rest) {
        Some(v) => {
            if v >= -0x8000_0000 && v <= 0x7fff_ffff {
                Some(Step { turn, count: v as i32 })
            } else {
                None
            }
        },
        None => None,
    }
}

/// Reads the steps of a text such as `L5,R3`.
pub fn parse_steps(s: &str) -> (read: Option<Vec<Step>>)
    ensures
        match read {
            Some(v) => steps_of(s@) == Some(v@),
            None => steps_of(s@).is_none(),
        },
{
    let chars = chars_of(s);
    let body = trimmed(&chars);
    let pieces = split_at_each(&body, ',');
    let ghost views = pieces_view(pieces@);
    let mut out: Vec<Step> = Vec::new();
    let mut k: usize = 0;
    while k < pieces.len()
        invariant
            0 <= k <= pieces.len(),
            views == pieces_view(pieces@),
            views == split(trim(s@), ','),
            out@.len() == k,
            forall|j: int| 0 <= j < k ==> step_of(#[trigger] views[j]) == Some(out@[j]),
        decreases pieces.len() - k,
    {
        match parse_step(&pieces[k]) {
            Some(step) => {
                out.push(step);
            },
            None => {
                assert(step_of(views[k as int]).is_none());
                return None;
            },
        }
        k += 1;
    }
    assert(out@ =~= Seq::new(views.len(), |k: int| step_of(views[k]).unwrap()));
    Some(out)
}

impl World {
    /// Builds the world that a text such as `L5,R3` describes. The text
    /// has to spell steps that can be walked, no more than `MOST_STEPS`
    /// of them; `read` tells whether it does.
    pub fn new(s: &str) -> (made: World)
        requires
            steps_of(s@) is Some,
            walkable(steps_of(s@).unwrap()),
            steps_of(s@).unwrap().len() <= MOST_STEPS,
        ensures
            made.laid_out(steps_of(s@).unwrap()),
    {
        World::read(s).unwrap()
    }

    /// Builds the world that a text such as `L5,R3` describes; `None` when
    /// the text spells no steps or the steps cannot be built.
    pub fn read(s: &str) -> (made: Option<World>)
        ensures
            made is Some <==> steps_of(s@) is Some && walkable(steps_of(s@).unwrap())
                && steps_of(s@).unwrap().len() <= MOST_STEPS,
            made is Some ==> made.unwrap().laid_out(steps_of(s@).unwrap()),
    {
        match parse_steps(s) {
            Some(steps) => World::from_steps(&steps),
            None => None,
        }
    }
}

} // verus!
