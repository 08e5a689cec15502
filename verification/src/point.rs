//! Points of the integer plane. The arithmetic is that of `glam::IVec2`,
//! which is called for it; a `Point` holds the two coordinates as plain
//! numbers so that contracts can speak of them.

use glam::IVec2;
use vstd::prelude::*;

verus! {

/// A point, or a step between points, with 32-bit coordinates.
#[derive(Clone, Copy, Debug, PartialEq, Eq, Structural)]
pub struct Point {
    pub x: i32,
    pub y: i32,
}

/// A point as a pair of unbounded numbers.
pub type Square = (int, int);

/// The distance between two numbers.
pub open spec fn gap(a: int, b: int) -> int {
    if a >= b {
        a - b
    } else {
        b - a
    }
}

/// The number fits in a signed 32-bit coordinate.
pub open spec fn fits_i32(n: int) -> bool {
    i32::MIN <= n <= i32::MAX
}

/// `IVec2::manhattan_distance`: the sum of the distances along both axes.
/// The outside function adds two `u32` values, so the sum has to fit.
#[verifier::external_body]
fn glam_manhattan_distance(a: Point, b: Point) -> (d: u32)
    requires
        gap(a.x as int, b.x as int) + gap(a.y as int, b.y as int) <= u32::MAX,
    ensures
        d == gap(a.x as int, b.x as int) + gap(a.y as int, b.y as int),
{
    IVec2::new(a.x, a.y).manhattan_distance(IVec2::new(b.x, b.y))
}

/// `IVec2::rotate`: the product of the two points read as complex numbers.
/// The outside function multiplies and adds in `i32`, so every product and
/// both results have to fit.
#[verifier::external_body]
fn glam_rotate(a: Point, b: Point) -> (r: Point)
    requires
        fits_i32(a.x * b.x),
        fits_i32(a.y * b.y),
        fits_i32(a.y * b.x),
        fits_i32(a.x * b.y),
        fits_i32(a.x * b.x - a.y * b.y),
        fits_i32(a.y * b.x + a.x * b.y),
    ensures
        r.x == a.x * b.x - a.y * b.y,
        r.y == a.y * b.x + a.x * b.y,
{
    let r = IVec2::new(a.x, a.y).rotate(IVec2::new(b.x, b.y));
    Point { x: r.x, y: r.y }
}

/// `IVec2 + IVec2`: the sum by coordinate, which has to fit.
#[verifier::external_body]
fn glam_add(a: Point, b: Point) -> (r: Point)
    requires
        fits_i32(a.x + b.x),
        fits_i32(a.y + b.y),
    ensures
        r.x == a.x + b.x,
        r.y == a.y + b.y,
{
    let r = IVec2::new(a.x, a.y) + IVec2::new(b.x, b.y);
    Point { x: r.x, y: r.y }
}

impl Point {
    /// The origin.
    pub fn zero() -> (p: Point)
        ensures
            p == (Point { x: 0, y: 0 }),
    {
        Point { x: 0, y: 0 }
    }

    /// One step along the x axis.
    pub fn unit_x() -> (p: Point)
        ensures
            p == (Point { x: 1, y: 0 }),
    {
        Point { x: 1, y: 0 }
    }

    /// One step along the y axis.
    pub fn unit_y() -> (p: Point)
        ensures
            p == (Point { x: 0, y: 1 }),
    {
        Point { x: 0, y: 1 }
    }

    /// One step against the x axis.
    pub fn neg_x() -> (p: Point)
        ensures
            p == (Point { x: -1i32, y: 0 }),
    {
        Point { x: -1, y: 0 }
    }

    /// One step against the y axis.
    pub fn neg_y() -> (p: Point)
        ensures
            p == (Point { x: 0, y: -1i32 }),
    {
        Point { x: 0, y: -1 }
    }

    /// The point with the given coordinates.
    pub fn new(x: i32, y: i32) -> (p: Point)
        ensures
            p.x == x,
            p.y == y,
    {
        Point { x, y }
    }

    /// The sum of the distances along both axes, as a number.
    pub open spec fn spec_manhattan(self, other: Point) -> int {
        gap(self.x as int, other.x as int) + gap(self.y as int, other.y as int)
    }

    /// The sum of the distances along both axes, or `None` when it does not
    /// fit in 32 bits.
    pub fn manhattan_distance(self, other: Point) -> (d: Option<u32>)
        ensures
            d == (if self.spec_manhattan(other) <= u32::MAX {
                Some(self.spec_manhattan(other) as u32)
            } else {
                None
            }),
    {
        let dx: u64 = gap_of(self.x, other.x);
        let dy: u64 = gap_of(self.y, other.y);
        if dx + dy <= 0xffff_ffff {
            Some(glam_manhattan_distance(self, other))
        } else {
            None
        }
    }

    /// The step `other` turned by the step `self`: by a quarter turn one way
    /// for `Y`, the other way for `NEG_Y`. `None` when a coordinate would
    /// leave 32 bits.
    pub fn rotate(self, other: Point) -> (r: Option<Point>)
        ensures
            match r {
                Some(p) => p.x == self.x * other.x - self.y * other.y && p.y == self.y * other.x
                    + self.x * other.y,
                None => !fits_i32(self.x * other.x - self.y * other.y) || !fits_i32(
                    self.y * other.x + self.x * other.y,
                ) || !fits_i32(self.x * other.x) || !fits_i32(self.y * other.y) || !fits_i32(
                    self.y * other.x,
                ) || !fits_i32(self.x * other.y),
            },
    {
        let xx = self.x.checked_mul(other.x);
        let yy = self.y.checked_mul(other.y);
        let yx = self.y.checked_mul(other.x);
        let xy = self.x.checked_mul(other.y);
        match (xx, yy, yx, xy) {
            (Some(a), Some(b), Some(c), Some(e)) => {
                if a.checked_sub(b).is_some() && c.checked_add(e).is_some() {
                    Some(glam_rotate(self, other))
                } else {
                    None
                }
            },
            _ => None,
        }
    }

    /// The sum by coordinate, or `None` when a coordinate would leave 32 bits.
    pub fn plus(self, other: Point) -> (r: Option<Point>)
        ensures
            r == (if fits_i32(self.x + other.x) && fits_i32(self.y + other.y) {
                Some(Point { x: (self.x + other.x) as i32, y: (self.y + other.y) as i32 })
            } else {
                None
            }),
    {
        if self.x.checked_add(other.x).is_some() && self.y.checked_add(other.y).is_some() {
            Some(glam_add(self, other))
        } else {
            None
        }
    }

    /// The step taken `count` times, or `None` when a coordinate would leave
    /// 32 bits.
    pub fn times(self, count: i32) -> (r: Option<Point>)
        ensures
            r == (if fits_i32(self.x * count) && fits_i32(self.y * count) {
                Some(Point { x: (self.x * count) as i32, y: (self.y * count) as i32 })
            } else {
                None
            }),
    {
        match (self.x.checked_mul(count), self.y.checked_mul(count)) {
            (Some(x), Some(y)) => Some(Point { x, y }),
            _ => None,
        }
    }
}

/// The distance between two coordinates.
pub fn gap_of(a: i32, b: i32) -> (d: u64)
    ensures
        d == gap(a as int, b as int),
{
    let wide_a: i64 = a as i64;
    let wide_b: i64 = b as i64;
    if wide_a >= wide_b {
        (wide_a - wide_b) as u64
    } else {
        (wide_b - wide_a) as u64
    }
}

/// Row `a` and column `b` of a table of `nx` rows and `ny` columns share
/// the cell numbered `a * ny + b`, and the number tells them apart.
pub proof fn lemma_cell(a: int, b: int, nx: int, ny: int)
    requires
        0 <= a < nx,
        0 <= b < ny,
    ensures
        0 <= a * ny + b < nx * ny,
        (a * ny + b) / ny == a,
        (a * ny + b) % ny == b,
{
    assert(0 <= a * ny + b < nx * ny) by (nonlinear_arith)
        requires
            0 <= a < nx,
            0 <= b < ny,
    ;
    vstd::arithmetic::div_mod::lemma_fundamental_div_mod_converse(a * ny + b, ny, a, b);
}

/// The cell numbered `id` lies in row `id / ny` and column `id % ny`.
pub proof fn lemma_cell_of(id: int, nx: int, ny: int)
    requires
        0 <= id < nx * ny,
        0 <= nx,
        0 <= ny,
    ensures
        ny > 0,
        0 <= id / ny < nx,
        0 <= id % ny < ny,
        (id / ny) * ny + id % ny == id,
{
    assert(ny > 0) by (nonlinear_arith)
        requires
            0 <= id < nx * ny,
            0 <= nx,
            0 <= ny,
    ;
    vstd::arithmetic::div_mod::lemma_fundamental_div_mod(id, ny);
    assert(0 <= id / ny < nx) by (nonlinear_arith)
        requires
            0 <= id < nx * ny,
            ny > 0,
            id == ny * (id / ny) + id % ny,
            0 <= id % ny < ny,
    ;
    assert((id / ny) * ny == ny * (id / ny)) by (nonlinear_arith);
}

/// Half the span of a 32-bit coordinate.
pub const HALF_SPAN: u64 = 0x8000_0000;

/// The span of a 32-bit coordinate.
pub const SPAN: u64 = 0x1_0000_0000;

/// The key of a point: a number that no other point shares.
pub open spec fn key_of(p: Point) -> u64 {
    ((p.x + HALF_SPAN) * SPAN + (p.y + HALF_SPAN)) as u64
}

/// The point that has the key.
pub open spec fn point_of(key: u64) -> Point {
    Point { x: (key / SPAN - HALF_SPAN) as i32, y: (key % SPAN - HALF_SPAN) as i32 }
}

impl Point {
    /// The key of the point.
    pub fn key(&self) -> (key: u64)
        ensures
            key == key_of(*self),
            point_of(key) == *self,
    {
        let column: u64 = (self.x as i64 + 0x8000_0000) as u64;
        let row: u64 = (self.y as i64 + 0x8000_0000) as u64;
        proof {
            lemma_cell(column as int, row as int, SPAN as int, SPAN as int);
        }
        column * 0x1_0000_0000 + row
    }

    /// The point that has the key.
    pub fn from_key(key: u64) -> (p: Point)
        ensures
            p == point_of(key),
            key_of(p) == key,
    {
        proof {
            lemma_cell_of(key as int, SPAN as int, SPAN as int);
        }
        let column: u64 = key / 0x1_0000_0000;
        let row: u64 = key % 0x1_0000_0000;
        Point { x: (column as i64 - 0x8000_0000) as i32, y: (row as i64 - 0x8000_0000) as i32 }
    }
}

/// Points with the same key are the same point.
pub proof fn lemma_key_decides(a: Point, b: Point)
    requires
        key_of(a) == key_of(b),
    ensures
        a == b,
{
    lemma_cell(a.x + HALF_SPAN, a.y + HALF_SPAN, SPAN as int, SPAN as int);
    lemma_cell(b.x + HALF_SPAN, b.y + HALF_SPAN, SPAN as int, SPAN as int);
}

} // verus!
