//! Gears on shafts: how far the last gear turns when the first one does.

use crate::text::{
    chars_of, lines, lines_of, parse_word, parse_words_of, split_once, split_once_at, trim, trimmed, word, words,
};
use vstd::prelude::*;

verus! {

/// The numbers of teeth that a text lists, one to a line.
pub open spec fn teeth_of(text: Seq<char>) -> Option<Seq<usize>> {
    words(lines(trim(text)))
}

/// Reads the numbers of teeth, one to a line. Every line has to spell
/// a number; `read` tells whether each does.
pub fn parse(s: &str) -> (teeth: Vec<usize>)
    requires
        teeth_of(s@) is Some,
    ensures
        teeth_of(s@) == Some(teeth@),
{
    read(s).unwrap()
}

/// Reads the numbers of teeth, one to a line.
pub fn read(s: &str) -> (teeth: Option<Vec<usize>>)
    ensures
        match teeth {
            Some(v) => teeth_of(s@) == Some(v@),
            None => teeth_of(s@).is_none(),
        },
{
    let chars = chars_of(s);
    let body = trimmed(&chars);
    let rows = lines_of(&body);
    parse_words_of(&rows)
}

/// A number as it is handed out: itself when it fits in a machine word.
pub open spec fn in_word(n: int) -> Option<usize> {
    if 0 <= n <= usize::MAX {
        Some(n as usize)
    } else {
        None
    }
}

/// The full turns of the last gear while the first turns `turns` times.
pub open spec fn turns_spec(gears: Seq<usize>, turns: usize) -> Option<usize> {
    if gears.len() == 0 || gears.last() == 0 {
        None
    } else {
        in_word((turns * gears[0]) / (gears.last() as int))
    }
}

/// The full turns of the last gear while the first turns `turns` times;
/// `None` without gears, with a last gear without teeth, or when the
/// number leaves the machine word.
pub fn turns_of_last(gears: &Vec<usize>, turns: usize) -> (full: Option<usize>)
    ensures
        full == turns_spec(gears@, turns),
{
    if gears.len() == 0 {
        return None;
    }
    let first = gears[0];
    let last = gears[gears.len() - 1];
    if last == 0 {
        return None;
    }
    assert(turns * first <= 0xffff_ffff_ffff_ffff * 0xffff_ffff_ffff_ffff) by (nonlinear_arith)
        requires
            0 <= turns <= 0xffff_ffff_ffff_ffff,
            0 <= first <= 0xffff_ffff_ffff_ffff,
    ;
    let teeth: u128 = turns as u128 * first as u128;
    let full: u128 = teeth / (last as u128);
    if full <= usize::MAX as u128 {
        Some(full as usize)
    } else {
        None
    }
}

/// The fewest turns of the first gear that turn the last one at least
/// `target` times.
pub open spec fn turns_needed_spec(gears: Seq<usize>, target: usize) -> Option<usize> {
    if gears.len() == 0 || gears[0] == 0 {
        None
    } else {
        let teeth = target * gears.last();
        if teeth % (gears[0] as int) == 0 {
            in_word(teeth / (gears[0] as int))
        } else {
            in_word(teeth / (gears[0] as int) + 1)
        }
    }
}

/// The fewest turns of the first gear that turn the last one at least
/// `target` times; `None` without gears, with a first gear without teeth,
/// or when the number leaves the machine word.
pub fn turns_needed(gears: &Vec<usize>, target: usize) -> (turns: Option<usize>)
    ensures
        turns == turns_needed_spec(gears@, target),
{
    if gears.len() == 0 {
        return None;
    }
    let first = gears[0];
    let last = gears[gears.len() - 1];
    if first == 0 {
        return None;
    }
    assert(target * last <= 0xffff_ffff_ffff_ffff * 0xffff_ffff_ffff_ffff) by (nonlinear_arith)
        requires
            0 <= target <= 0xffff_ffff_ffff_ffff,
            0 <= last <= 0xffff_ffff_ffff_ffff,
    ;
    let teeth: u128 = target as u128 * last as u128;
    let whole: u128 = teeth / (first as u128);
    let turns: u128 = if teeth % (first as u128) == 0 {
        whole
    } else {
        whole + 1
    };
    if turns <= usize::MAX as u128 {
        Some(turns as usize)
    } else {
        None
    }
}

/// A shaft with two gears: the one driven and the one that drives on.
#[derive(Clone, Copy, Debug, PartialEq, Eq, Structural)]
pub struct Shaft {
    pub driven: usize,
    pub driving: usize,
}

/// The factor after all the shafts, if no driven gear is without teeth and
/// the factor stays in the machine word all the way.
pub open spec fn factor_through(start: int, shafts: Seq<Shaft>, upto: nat) -> Option<int>
    decreases upto,
{
    if upto == 0 {
        in_range(start)
    } else {
        match factor_through(start, shafts, (upto - 1) as nat) {
            Some(before) => if shafts[upto - 1].driven == 0 {
                None
            } else {
                in_range(
                    before * (shafts[upto - 1].driving as int / shafts[upto - 1].driven as int),
                )
            },
            None => None,
        }
    }
}

/// The number itself when it fits in a machine word.
pub open spec fn in_range(n: int) -> Option<int> {
    if 0 <= n <= usize::MAX {
        Some(n)
    } else {
        None
    }
}

/// The turns of the last gear for a hundred turns of the first, through
/// a train of shafts.
pub open spec fn train_turns_spec(first: usize, shafts: Seq<Shaft>, last: usize) -> Option<usize> {
    match factor_through(100 * first, shafts, shafts.len()) {
        Some(factor) => if last == 0 {
            None
        } else {
            Some((factor / (last as int)) as usize)
        },
        None => None,
    }
}

/// A train that cannot be gone through up to some shaft cannot be gone
/// through further.
pub proof fn lemma_factor_stays_none(start: int, shafts: Seq<Shaft>, from: nat, upto: nat)
    requires
        from <= upto,
        factor_through(start, shafts, from).is_none(),
    ensures
        factor_through(start, shafts, upto).is_none(),
    decreases upto,
{
    if from < upto {
        lemma_factor_stays_none(start, shafts, from, (upto - 1) as nat);
    }
}

/// The turns of the last gear for a hundred turns of the first, through
/// a train of shafts: every shaft multiplies by the whole number of times
/// its driven gear goes into its driving gear. `None` when a gear has no
/// teeth or a number on the way leaves the machine word.
pub fn train_turns(first: usize, shafts: &Vec<Shaft>, last: usize) -> (turns: Option<usize>)
    ensures
        turns == train_turns_spec(first, shafts@, last),
{
    let mut factor: usize = match first.checked_mul(100) {
        Some(f) => f,
        None => {
            proof {
                lemma_factor_stays_none(100 * first, shafts@, 0, shafts@.len());
            }
            return None;
        },
    };
    let mut i: usize = 0;
    while i < shafts.len()
        invariant
            0 <= i <= shafts.len(),
            factor_through(100 * first, shafts@, i as nat) == Some(factor as int),
        decreases shafts.len() - i,
    {
        let shaft = shafts[i];
        if shaft.driven == 0 {
            proof {
                lemma_factor_stays_none(100 * first, shafts@, (i + 1) as nat, shafts@.len());
            }
            return None;
        }
        let ratio = shaft.driving / shaft.driven;
        factor = match factor.checked_mul(ratio) {
            Some(f) => f,
            None => {
                proof {
                    lemma_factor_stays_none(100 * first, shafts@, (i + 1) as nat, shafts@.len());
                }
                return None;
            },
        };
        i += 1;
    }
    if last == 0 {
        return None;
    }
    Some(factor / last)
}

/// The shaft that a line such as `5|15` spells.
pub open spec fn shaft_of(line: Seq<char>) -> Option<Shaft> {
    match split_once(line, '|') {
        Some((a, b)) => match (word(a), word(b)) {
            (Some(driven), Some(driving)) => Some(Shaft { driven, driving }),
            _ => None,
        },
        None => None,
    }
}

/// Reads a shaft from a line such as `5|15`.
pub fn parse_shaft(line: &Vec<char>) -> (shaft: Option<Shaft>)
    ensures
        shaft == shaft_of(line@),
{
    match split_once_at(line, '|') {
        Some((a, b)) => match (parse_word(&a), parse_word(&b)) {
            (Some(driven), Some(driving)) => Some(Shaft { driven, driving }),
            _ => None,
        },
        None => None,
    }
}

} // verus!
