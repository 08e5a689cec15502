//! Pairs of integers with the arithmetic of an engraving machine: sums by
//! component, quotients by component, and a product that squares correctly.

use crate::text::{
    chars_of, integer, parse_integer, split_once, split_once_at, strip_prefix, strip_suffix, trim,
    trimmed, without_prefix, without_suffix,
};
use vstd::prelude::*;

verus! {

/// A pair of a real and an imaginary part.
#[derive(Clone, Copy, Debug, PartialEq, Eq, Structural)]
pub struct Complex {
    pub re: i64,
    pub im: i64,
}

/// The limit beyond which a part counts as excessive.
pub const EXCESS: i64 = 1_000_000;

/// The largest part of a base value for which a hundred cycles cannot overflow.
pub const BASE_LIMIT: i64 = 0x4000_0000_0000_0000;

/// How many cycles `valid_hundred` runs.
pub const CYCLES: u32 = 100;

/// The quotient of `a` by `b`, rounded towards zero.
pub open spec fn quotient(a: int, b: int) -> int
    recommends
        b != 0,
{
    if a >= 0 && b > 0 {
        a / b
    } else if a >= 0 {
        -(a / (-b))
    } else if b > 0 {
        -((-a) / b)
    } else {
        (-a) / (-b)
    }
}

/// The quotient of `a` by `b`, rounded towards zero.
pub fn divide(a: i64, b: i64) -> (q: i64)
    requires
        b != 0,
        a != i64::MIN,
        b != i64::MIN,
    ensures
        q == quotient(a as int, b as int),
        -abs(a as int) <= q <= abs(a as int),
{
    let ua: u64 = if a >= 0 {
        a as u64
    } else {
        (-a) as u64
    };
    let ub: u64 = if b >= 0 {
        b as u64
    } else {
        (-b) as u64
    };
    let uq: u64 = ua / ub;
    assert(uq <= ua) by (nonlinear_arith)
        requires
            uq == ua / ub,
            ub > 0,
    ;
    if (a >= 0) == (b > 0) {
        uq as i64
    } else {
        -(uq as i64)
    }
}

/// The absolute value of an integer.
pub open spec fn abs(a: int) -> int {
    if a >= 0 {
        a
    } else {
        -a
    }
}

/// One cycle on parts taken as unbounded integers: square, divide by
/// component, add the base.
pub open spec fn cycle_of(r: (int, int), a: (int, int), d: (int, int)) -> (int, int) {
    let sq = (r.0 * r.0 - r.1 * r.1, r.0 * r.1 + r.1 * r.0);
    (quotient(sq.0, d.0) + a.0, quotient(sq.1, d.1) + a.1)
}

/// The value after `n` cycles from zero.
pub open spec fn orbit(a: (int, int), d: (int, int), n: nat) -> (int, int)
    decreases n,
{
    if n == 0 {
        (0, 0)
    } else {
        cycle_of(orbit(a, d, (n - 1) as nat), a, d)
    }
}

/// Some part has reached the limit.
pub open spec fn excessive(r: (int, int)) -> bool {
    abs(r.0) >= EXCESS || abs(r.1) >= EXCESS
}

impl Complex {
    /// The parts as unbounded integers.
    pub open spec fn parts(&self) -> (int, int) {
        (self.re as int, self.im as int)
    }

    /// The sum by component.
    pub fn add(self, other: &Complex) -> (sum: Complex)
        requires
            i64::MIN <= self.re + other.re <= i64::MAX,
            i64::MIN <= self.im + other.im <= i64::MAX,
        ensures
            sum.re == self.re + other.re,
            sum.im == self.im + other.im,
    {
        Complex { re: self.re + other.re, im: self.im + other.im }
    }

    /// The product as the machine forms it: the real part is that of the
    /// complex product, the imaginary part is twice `self.re * other.im`.
    /// For `other == self` this is the complex square.
    pub fn mul(self, other: &Complex) -> (product: Complex)
        requires
            i64::MIN <= self.re * other.re <= i64::MAX,
            i64::MIN <= self.im * other.im <= i64::MAX,
            i64::MIN <= self.re * other.re - self.im * other.im <= i64::MAX,
            i64::MIN <= self.re * other.im <= i64::MAX,
            i64::MIN <= self.re * other.im + other.im * self.re <= i64::MAX,
        ensures
            product.re == self.re * other.re - self.im * other.im,
            product.im == self.re * other.im + other.im * self.re,
    {
        assert(other.im * self.re == self.re * other.im) by (nonlinear_arith);
        Complex {
            re: self.re * other.re - self.im * other.im,
            im: self.re * other.im + other.im * self.re,
        }
    }

    /// The quotient by component, each rounded towards zero.
    pub fn div(self, other: &Complex) -> (q: Complex)
        requires
            other.re != 0,
            other.im != 0,
            self.re != i64::MIN,
            self.im != i64::MIN,
            other.re != i64::MIN,
            other.im != i64::MIN,
        ensures
            q.re == quotient(self.re as int, other.re as int),
            q.im == quotient(self.im as int, other.im as int),
    {
        Complex { re: divide(self.re, other.re), im: divide(self.im, other.im) }
    }

    /// Some part has reached the limit of a million, in either direction.
    pub fn is_excessive(&self) -> (yes: bool)
        ensures
            yes == excessive(self.parts()),
    {
        self.re >= EXCESS || self.re <= -EXCESS || self.im >= EXCESS || self.im <= -EXCESS
    }

    /// One cycle: the square of `self`, divided by `d`, plus `a`.
    pub fn cycle(self, a: &Complex, d: &Complex) -> (next: Complex)
        requires
            !excessive(self.parts()),
            d.re != 0,
            d.im != 0,
            d.re != i64::MIN,
            d.im != i64::MIN,
            -BASE_LIMIT <= a.re <= BASE_LIMIT,
            -BASE_LIMIT <= a.im <= BASE_LIMIT,
        ensures
            next.parts() == cycle_of(self.parts(), a.parts(), d.parts()),
    {
        let rc = self;
        proof {
            lemma_square_bounds(self.re as int, self.im as int);
        }
        let squared = self.mul(&rc);
        let divided = squared.div(d);
        divided.add(a)
    }

    /// Whether a hundred cycles from zero with base `a` and divisor `d` pass
    /// without a part ever reaching the limit.
    pub fn valid_hundred(a: &Complex, d: &Complex) -> (ok: bool)
        requires
            d.re != 0,
            d.im != 0,
            d.re != i64::MIN,
            d.im != i64::MIN,
            -BASE_LIMIT <= a.re <= BASE_LIMIT,
            -BASE_LIMIT <= a.im <= BASE_LIMIT,
        ensures
            ok == (forall|n: nat| 1 <= n <= CYCLES ==> !excessive(#[trigger] orbit(a.parts(), d.parts(), n))),
    {
        let mut r = Complex { re: 0, im: 0 };
        let mut n: u32 = 0;
        while n < CYCLES
            invariant
                0 <= n <= CYCLES,
                r.parts() == orbit(a.parts(), d.parts(), n as nat),
                !excessive(r.parts()),
                forall|k: nat| 1 <= k <= n ==> !excessive(#[trigger] orbit(a.parts(), d.parts(), k)),
                d.re != 0,
                d.im != 0,
                d.re != i64::MIN,
                d.im != i64::MIN,
                -BASE_LIMIT <= a.re <= BASE_LIMIT,
                -BASE_LIMIT <= a.im <= BASE_LIMIT,
            decreases CYCLES - n,
        {
            r = r.cycle(a, d);
            n = n + 1;
            if r.is_excessive() {
                assert(excessive(orbit(a.parts(), d.parts(), n as nat)));
                return false;
            }
        }
        true
    }
}

/// The parts of the square of a value within the limit stay far inside 64 bits.
pub proof fn lemma_square_bounds(re: int, im: int)
    requires
        -EXCESS < re < EXCESS,
        -EXCESS < im < EXCESS,
    ensures
        -1_000_000_000_000 <= re * re <= 1_000_000_000_000,
        -1_000_000_000_000 <= im * im <= 1_000_000_000_000,
        -1_000_000_000_000 <= re * im <= 1_000_000_000_000,
        -1_000_000_000_000 <= im * re <= 1_000_000_000_000,
{
    assert(-1_000_000_000_000 <= re * re <= 1_000_000_000_000) by (nonlinear_arith)
        requires
            -1_000_000 < re < 1_000_000,
    ;
    assert(-1_000_000_000_000 <= im * im <= 1_000_000_000_000) by (nonlinear_arith)
        requires
            -1_000_000 < im < 1_000_000,
    ;
    assert(-1_000_000_000_000 <= re * im <= 1_000_000_000_000) by (nonlinear_arith)
        requires
            -1_000_000 < re < 1_000_000,
            -1_000_000 < im < 1_000_000,
    ;
    assert(im * re == re * im) by (nonlinear_arith);
}

/// A part that a text spells, if it fits in 64 bits.
pub open spec fn part_of(s: Seq<char>) -> Option<i64> {
    match integer(s) {
        Some(v) => if i64::MIN <= v <= i64::MAX {
            Some(v as i64)
        } else {
            None
        },
        None => None,
    }
}

/// The value that a text such as `A=[25,9]` spells.
pub open spec fn value_of(text: Seq<char>) -> Option<Complex> {
    match strip_prefix(trim(text), "A=["@) {
        Some(opened) => match strip_suffix(opened, "]"@) {
            Some(inner) => match split_once(inner, ',') {
                Some((re, im)) => match (part_of(re), part_of(im)) {
                    (Some(r), Some(i)) => Some(Complex { re: r, im: i }),
                    _ => None,
                },
                None => None,
            },
            None => None,
        },
        None => None,
    }
}

/// Reads a value written as `A=[re,im]`, with blanks round it or
/// without. The text has to spell one: `read_a` tells whether it does.
pub fn parse_a(s: &str) -> (a: Complex)
    requires
        value_of(s@) is Some,
    ensures
        value_of(s@) == Some(a),
{
    read_a(s).unwrap()
}

/// Reads a value written as `A=[re,im]`; `None` when the text spells none.
pub fn read_a(s: &str) -> (read: Option<Complex>)
    ensures
        read == value_of(s@),
{
    let chars = chars_of(s);
    let body = trimmed(&chars);
    let opened = match without_prefix(&body, "A=[") {
        Some(r) => r,
        None => {
            return None;
        },
    };
    let inner = match without_suffix(&opened, "]") {
        Some(r) => r,
        None => {
            return None;
        },
    };
    let (re, im) = match split_once_at(&inner, ',') {
        Some(parts) => parts,
        None => {
            return None;
        },
    };
    match (parse_integer(&re), parse_integer(&im)) {
        (Some(r), Some(i)) => Some(Complex { re: r, im: i }),
        _ => None,
    }
}

/// The base value of the point in column `x` and row `y` of a grid that
/// begins at `corner` and whose points lie `step` apart.
pub open spec fn grid_point(corner: Complex, step: i64, x: int, y: int) -> (int, int) {
    (corner.re + step * x, corner.im + step * y)
}

/// The point stays within the limit for a hundred cycles.
pub open spec fn engraved(a: (int, int), d: (int, int)) -> bool {
    forall|n: nat| 1 <= n <= CYCLES ==> !excessive(#[trigger] orbit(a, d, n))
}

/// How many points of the first `upto_y` rows of the grid, and of the
/// first `upto_x` columns of the row after them, are engraved.
pub open spec fn engraved_count(
    corner: Complex,
    d: Complex,
    step: i64,
    side: int,
    upto_y: nat,
    upto_x: nat,
) -> nat
    decreases upto_y, upto_x,
{
    if upto_x > 0 {
        engraved_count(corner, d, step, side, upto_y, (upto_x - 1) as nat) + (if engraved(
            grid_point(corner, step, upto_x - 1, upto_y as int),
            d.parts(),
        ) {
            1nat
        } else {
            0nat
        })
    } else if upto_y > 0 {
        engraved_count(corner, d, step, side, (upto_y - 1) as nat, side as nat)
    } else {
        0
    }
}

/// The greatest side of a grid that can be counted.
pub const MOST_SIDE: u32 = 1_000_000;

/// The greatest step between the points of a grid.
pub const MOST_STEP: i64 = 1_000_000;

/// How many points of a square grid of `side` by `side` points are
/// engraved: those that stay within the limit for a hundred cycles with
/// the divisor `d`. The grid begins at `corner`, its points `step` apart.
pub fn count_engraved(corner: &Complex, d: &Complex, step: i64, side: u32) -> (count: u64)
    requires
        d.re != 0,
        d.im != 0,
        d.re != i64::MIN,
        d.im != i64::MIN,
        0 <= step <= MOST_STEP,
        side <= MOST_SIDE,
        -0x2000_0000_0000_0000 <= corner.re <= 0x2000_0000_0000_0000,
        -0x2000_0000_0000_0000 <= corner.im <= 0x2000_0000_0000_0000,
    ensures
        count == engraved_count(*corner, *d, step, side as int, side as nat, 0),
{
    let mut count: u64 = 0;
    let mut y: u32 = 0;
    while y < side
        invariant
            0 <= y <= side <= MOST_SIDE,
            d.re != 0,
            d.im != 0,
            d.re != i64::MIN,
            d.im != i64::MIN,
            0 <= step <= MOST_STEP,
            -0x2000_0000_0000_0000 <= corner.re <= 0x2000_0000_0000_0000,
            -0x2000_0000_0000_0000 <= corner.im <= 0x2000_0000_0000_0000,
            count == engraved_count(*corner, *d, step, side as int, y as nat, 0),
            count <= y * side,
        decreases side - y,
    {
        let mut x: u32 = 0;
        let ghost row_start = count;
        while x < side
            invariant
                0 <= x <= side <= MOST_SIDE,
                0 <= y < side,
                d.re != 0,
                d.im != 0,
                d.re != i64::MIN,
                d.im != i64::MIN,
                0 <= step <= MOST_STEP,
                -0x2000_0000_0000_0000 <= corner.re <= 0x2000_0000_0000_0000,
                -0x2000_0000_0000_0000 <= corner.im <= 0x2000_0000_0000_0000,
                count == engraved_count(*corner, *d, step, side as int, y as nat, x as nat),
                count <= row_start + x,
                row_start <= y * side,
            decreases side - x,
        {
            assert(0 <= step * x <= 1_000_000 * 1_000_000) by (nonlinear_arith)
                requires
                    0 <= step <= 1_000_000,
                    0 <= x <= 1_000_000,
            ;
            assert(0 <= step * y <= 1_000_000 * 1_000_000) by (nonlinear_arith)
                requires
                    0 <= step <= 1_000_000,
                    0 <= y <= 1_000_000,
            ;
            assert(y * side <= 1_000_000 * 1_000_000) by (nonlinear_arith)
                requires
                    0 <= y <= 1_000_000,
                    0 <= side <= 1_000_000,
            ;
            let a = Complex { re: corner.re + step * x as i64, im: corner.im + step * y as i64 };
            assert(a.parts() == grid_point(*corner, step, x as int, y as int));
            if Complex::valid_hundred(&a, d) {
                count += 1;
            }
            x += 1;
        }
        proof {
            assert((y + 1) * side == y * side + side) by (nonlinear_arith);
        }
        y += 1;
    }
    count
}

} // verus!
