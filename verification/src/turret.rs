//! Catapults that shoot at targets: which of three turrets reaches a
//! target, with what power, and what that costs.

use crate::complex::{divide, quotient};
use crate::point::{fits_i32, Point};
use crate::text::{
    chars_of, integer, lines, lines_of, parse_integer, pieces_view, split_once, split_once_at,
};
use vstd::prelude::*;

verus! {

/// What is left of `a` after the quotient by `b`, rounded towards zero,
/// is taken out.
pub open spec fn remainder(a: int, b: int) -> int {
    a - b * quotient(a, b)
}

/// The ranking of a hit on `(x, y)`: the number of the turret times the
/// power of the shot.
pub open spec fn ranking(x: int, y: int) -> int {
    if y - x >= 0 {
        (y - x + 1) * x
    } else if x > y && x <= 2 * y {
        y
    } else {
        (remainder(x + y, 3) + 1) * quotient(x + y, 3)
    }
}

/// The ranking of a hit on `target`, or `None` when it does not fit in
/// 32 bits.
pub fn ranking_score(target: Point) -> (score: Option<i32>)
    ensures
        score == (if fits_i32(ranking(target.x as int, target.y as int)) {
            Some(ranking(target.x as int, target.y as int) as i32)
        } else {
            None
        }),
{
    let x: i64 = target.x as i64;
    let y: i64 = target.y as i64;
    let wide: Option<i64> = if y - x >= 0 {
        (y - x + 1).checked_mul(x)
    } else if x > y && x <= 2 * y {
        Some(y)
    } else {
        let third = divide(x + y, 3);
        ((x + y) - 3 * third + 1).checked_mul(third)
    };
    match wide {
        Some(v) => {
            if -0x8000_0000 <= v && v <= 0x7fff_ffff {
                Some(v as i32)
            } else {
                None
            }
        },
        None => None,
    }
}

/// Where a meteor seen at `(x, y)` is met: half its x, and its y less the
/// other half.
pub open spec fn intercept(x: int, y: int) -> (int, int) {
    (quotient(x, 2), y - (x - quotient(x, 2)))
}

/// Where the meteor is met, or `None` when that leaves 32 bits.
pub fn meteor_intercept_position(meteor: Point) -> (met: Option<Point>)
    ensures
        met == (if fits_i32(intercept(meteor.x as int, meteor.y as int).1) {
            Some(
                Point {
                    x: intercept(meteor.x as int, meteor.y as int).0 as i32,
                    y: intercept(meteor.x as int, meteor.y as int).1 as i32,
                },
            )
        } else {
            None
        }),
{
    let half = divide(meteor.x as i64, 2);
    let y: i64 = meteor.y as i64 - (meteor.x as i64 - half);
    if -0x8000_0000 <= y && y <= 0x7fff_ffff {
        Some(Point { x: half as i32, y: y as i32 })
    } else {
        None
    }
}

/// The targets that the first `upto` characters of a row add to those
/// found before: a `T` is a target, an `H` a hard target that is listed
/// twice. The row is row `y` from the ground; both coordinates are counted
/// from the square of the first catapult, one in from the edge.
pub open spec fn targets_in_row(found: Seq<Point>, row: Seq<char>, y: int, upto: nat) -> Seq<Point>
    decreases upto,
{
    if upto == 0 {
        found
    } else {
        let before = targets_in_row(found, row, y, (upto - 1) as nat);
        let at = Point { x: (upto - 2) as i32, y: (y - 1) as i32 };
        if row[upto - 1] == 'T' {
            before.push(at)
        } else if row[upto - 1] == 'H' {
            before.push(at).push(at)
        } else {
            before
        }
    }
}

/// The targets of the lowest `upto` rows, the lowest row first.
pub open spec fn targets_in_rows(rows: Seq<Seq<char>>, upto: nat) -> Seq<Point>
    decreases upto,
{
    if upto == 0 {
        Seq::empty()
    } else {
        let row = rows[rows.len() - upto];
        targets_in_row(targets_in_rows(rows, (upto - 1) as nat), row, upto - 1, row.len())
    }
}

/// The most rows and columns of a field of targets.
pub const MOST_CELLS: usize = 0x7fff_ffff;

/// Reads the targets of a field from its rows, the lowest row first;
/// `None` when the field has more rows or columns than `MOST_CELLS`.
pub fn targets_from_rows(rows: &Vec<Vec<char>>) -> (targets: Option<Vec<Point>>)
    ensures
        match targets {
            Some(t) => t@ == targets_in_rows(pieces_view(rows@), rows@.len()),
            None => rows@.len() > MOST_CELLS || exists|k: int|
                0 <= k < rows@.len() && (#[trigger] rows@[k])@.len() > MOST_CELLS,
        },
{
    if rows.len() > MOST_CELLS {
        return None;
    }
    let ghost views = pieces_view(rows@);
    let n = rows.len();
    let mut targets: Vec<Point> = Vec::new();
    let mut y: usize = 0;
    while y < n
        invariant
            0 <= y <= n,
            n == rows@.len(),
            n <= MOST_CELLS,
            views == pieces_view(rows@),
            targets@ == targets_in_rows(views, y as nat),
        decreases n - y,
    {
        let row = &rows[n - 1 - y];
        assert(views[n - 1 - y] == row@);
        if row.len() > MOST_CELLS {
            return None;
        }
        let ghost start = targets@;
        let mut x: usize = 0;
        while x < row.len()
            invariant
                0 <= x <= row.len(),
                row@.len() <= MOST_CELLS,
                0 <= y < n <= MOST_CELLS,
                targets@ == targets_in_row(start, row@, y as int, x as nat),
            decreases row.len() - x,
        {
            let c = row[x];
            let at = Point { x: (x as i64 - 1) as i32, y: (y as i64 - 1) as i32 };
            if c == 'T' {
                targets.push(at);
            } else if c == 'H' {
                targets.push(at);
                targets.push(at);
            }
            x += 1;
        }
        y += 1;
    }
    Some(targets)
}

/// Reads the targets of a field from its text.
pub fn parse_targets(input: &str) -> (targets: Option<Vec<Point>>)
    ensures
        match targets {
            Some(t) => t@ == targets_in_rows(lines(input@), lines(input@).len()),
            None => lines(input@).len() > MOST_CELLS || exists|k: int|
                0 <= k < lines(input@).len() && (#[trigger] lines(input@)[k]).len() > MOST_CELLS,
        },
{
    let chars = chars_of(input);
    let rows = lines_of(&chars);
    let targets = targets_from_rows(&rows);
    proof {
        if targets.is_none() && rows@.len() <= MOST_CELLS {
            let k = choose|k: int| 0 <= k < rows@.len() && (#[trigger] rows@[k])@.len() > MOST_CELLS;
            assert(pieces_view(rows@)[k] == rows@[k]@);
            assert(lines(input@)[k].len() > MOST_CELLS);
        }
    }
    targets
}

/// The meteor that a line such as `6 5` spells.
pub open spec fn meteor_of(line: Seq<char>) -> Option<Point> {
    match split_once(line, ' ') {
        Some((a, b)) => match (integer(a), integer(b)) {
            (Some(x), Some(y)) => if fits_i32(x) && fits_i32(y) {
                Some(Point { x: x as i32, y: y as i32 })
            } else {
                None
            },
            _ => None,
        },
        None => None,
    }
}

/// Reads one meteor.
pub fn parse_meteor(line: &Vec<char>) -> (meteor: Option<Point>)
    ensures
        meteor == meteor_of(line@),
{
    match split_once_at(line, ' ') {
        Some((a, b)) => match (parse_integer(&a), parse_integer(&b)) {
            (Some(x), Some(y)) => {
                if -0x8000_0000 <= x && x <= 0x7fff_ffff && -0x8000_0000 <= y && y
                    <= 0x7fff_ffff {
                    Some(Point { x: x as i32, y: y as i32 })
                } else {
                    None
                }
            },
            _ => None,
        },
        None => None,
    }
}

/// The meteors that the lines of a text spell, if every line spells one.
pub open spec fn meteors_of(text: Seq<char>) -> Option<Seq<Point>> {
    let ls = lines(text);
    if forall|k: int| 0 <= k < ls.len() ==> meteor_of(#[trigger] ls[k]) is Some {
        Some(Seq::new(ls.len(), |k: int| meteor_of(ls[k]).unwrap()))
    } else {
        None
    }
}

/// Reads the meteors of a text, one to a line. Every line has to spell
/// a meteor; `read_meteors` tells whether each does.
pub fn parse_meteors(input: &str) -> (meteors: Vec<Point>)
    requires
        meteors_of(input@) is Some,
    ensures
        meteors_of(input@) == Some(meteors@),
{
    read_meteors(input).unwrap()
}

/// Reads the meteors of a text, one to a line.
pub fn read_meteors(input: &str) -> (meteors: Option<Vec<Point>>)
    ensures
        match meteors {
            Some(v) => meteors_of(input@) == Some(v@),
            None => meteors_of(input@).is_none(),
        },
{
    let chars = chars_of(input);
    let ls = lines_of(&chars);
    let ghost views = pieces_view(ls@);
    let mut out: Vec<Point> = Vec::new();
    let mut k: usize = 0;
    while k < ls.len()
        invariant
            0 <= k <= ls.len(),
            views == pieces_view(ls@),
            views == lines(input@),
            out@.len() == k,
            forall|j: int| 0 <= j < k ==> meteor_of(#[trigger] views[j]) == Some(out@[j]),
        decreases ls.len() - k,
    {
        match parse_meteor(&ls[k]) {
            Some(m) => {
                out.push(m);
            },
            None => {
                assert(meteor_of(views[k as int]).is_none());
                return None;
            },
        }
        k += 1;
    }
    assert(out@ =~= Seq::new(views.len(), |k: int| meteor_of(views[k]).unwrap()));
    Some(out)
}

/// A number as it is handed out: itself when it fits in 32 bits.
pub open spec fn in_i32(n: int) -> Option<i32> {
    if fits_i32(n) {
        Some(n as i32)
    } else {
        None
    }
}

/// The sum of the rankings of the first `upto` targets, if every ranking
/// and every sum on the way fit in 32 bits.
pub open spec fn rankings(targets: Seq<Point>, upto: nat) -> Option<i32>
    decreases upto,
{
    if upto == 0 {
        Some(0i32)
    } else {
        match (
            rankings(targets, (upto - 1) as nat),
            in_i32(ranking(targets[upto - 1].x as int, targets[upto - 1].y as int)),
        ) {
            (Some(before), Some(score)) => in_i32(before + score),
            _ => None,
        }
    }
}

/// Rankings that cannot be summed up to some target cannot be summed further.
pub proof fn lemma_rankings_stay_none(targets: Seq<Point>, from: nat, upto: nat)
    requires
        from <= upto,
        rankings(targets, from).is_none(),
    ensures
        rankings(targets, upto).is_none(),
    decreases upto,
{
    if from < upto {
        lemma_rankings_stay_none(targets, from, (upto - 1) as nat);
    }
}

/// The sum of the rankings of the hits on all targets; `None` when a
/// ranking or a sum on the way leaves 32 bits.
pub fn total_ranking(targets: &Vec<Point>) -> (total: Option<i32>)
    ensures
        total == rankings(targets@, targets@.len()),
{
    let mut total: i32 = 0;
    let mut k: usize = 0;
    while k < targets.len()
        invariant
            0 <= k <= targets.len(),
            rankings(targets@, k as nat) == Some(total),
        decreases targets.len() - k,
    {
        let next = match ranking_score(targets[k]) {
            Some(s) => total.checked_add(s),
            None => None,
        };
        total = match next {
            Some(t) => t,
            None => {
                proof {
                    lemma_rankings_stay_none(targets@, (k + 1) as nat, targets@.len());
                }
                return None;
            },
        };
        k += 1;
    }
    Some(total)
}

} // verus!
