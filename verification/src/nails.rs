//! Nails to be struck level: every strike drives one nail in by one.

use crate::text::{chars_of, lines, lines_of, parse_words_of, words};
use vstd::prelude::*;

verus! {

/// Why no number of strikes could be given.
#[derive(Clone, Copy, Debug, PartialEq, Eq, Structural)]
pub enum NailError {
    /// A row of the input is no number.
    BadRow,
    /// There is no nail.
    NoNails,
    /// The number of strikes does not fit in a machine word.
    TooManyStrikes,
}

/// The lengths of the nails that the input lists, one to a row.
pub open spec fn nails_of(input: Seq<char>) -> Option<Seq<usize>> {
    words(lines(input))
}

/// Reads the lengths of the nails, one to a row.
pub fn parse(input: &str) -> (nails: Result<Vec<usize>, NailError>)
    ensures
        match nails {
            Ok(v) => nails_of(input@) == Some(v@),
            Err(e) => e == NailError::BadRow && nails_of(input@).is_none(),
        },
{
    let chars = chars_of(input);
    let rows = lines_of(&chars);
    match parse_words_of(&rows) {
        Some(v) => Ok(v),
        None => Err(NailError::BadRow),
    }
}

/// The distance between two lengths.
pub open spec fn apart(a: usize, b: usize) -> nat {
    if a >= b {
        (a - b) as nat
    } else {
        (b - a) as nat
    }
}

/// The strikes that bring every nail to the length `target`, striking
/// being possible in both directions.
pub open spec fn strikes_toward(nails: Seq<usize>, target: usize) -> nat
    decreases nails.len(),
{
    if nails.len() == 0 {
        0
    } else {
        strikes_toward(nails.drop_last(), target) + apart(nails.last(), target)
    }
}

/// The shortest of the nails.
pub open spec fn shortest(nails: Seq<usize>) -> usize
    decreases nails.len(),
{
    if nails.len() == 0 {
        0
    } else if nails.len() == 1 {
        nails[0]
    } else {
        let before = shortest(nails.drop_last());
        if nails.last() < before {
            nails.last()
        } else {
            before
        }
    }
}

/// The shortest nail is one of the nails and no nail is shorter.
pub proof fn lemma_shortest(nails: Seq<usize>)
    requires
        nails.len() > 0,
    ensures
        nails.contains(shortest(nails)),
        forall|k: int| 0 <= k < nails.len() ==> shortest(nails) <= nails[k],
    decreases nails.len(),
{
    if nails.len() == 1 {
        assert(nails[0] == shortest(nails));
    } else {
        let head = nails.drop_last();
        lemma_shortest(head);
        let k = choose|k: int| 0 <= k < head.len() && head[k] == shortest(head);
        assert(nails[k] == head[k]);
        assert(nails[nails.len() - 1] == nails.last());
        assert forall|j: int| 0 <= j < nails.len() implies shortest(nails) <= nails[j] by {
            if j < head.len() {
                assert(head[j] == nails[j]);
            }
        }
    }
}

/// More nails never need fewer strikes.
pub proof fn lemma_strikes_prefix(nails: Seq<usize>, target: usize, n: int)
    requires
        0 <= n <= nails.len(),
    ensures
        strikes_toward(nails.take(n), target) <= strikes_toward(nails, target),
    decreases nails.len(),
{
    if n < nails.len() {
        lemma_strikes_prefix(nails.drop_last(), target, n);
        assert(nails.drop_last().take(n) =~= nails.take(n));
    } else {
        assert(nails.take(n) =~= nails);
    }
}

/// The strikes that bring every nail to `target`, or `None` when they do
/// not fit in a machine word.
pub fn strikes_at(nails: &Vec<usize>, target: usize) -> (total: Option<usize>)
    ensures
        total == (if strikes_toward(nails@, target) <= usize::MAX {
            Some(strikes_toward(nails@, target) as usize)
        } else {
            None
        }),
{
    let mut total: usize = 0;
    let mut i: usize = 0;
    while i < nails.len()
        invariant
            0 <= i <= nails.len(),
            total == strikes_toward(nails@.take(i as int), target),
        decreases nails.len() - i,
    {
        let n = nails[i];
        proof {
            let next = nails@.take(i + 1);
            assert(next.drop_last() =~= nails@.take(i as int));
            assert(next.last() == n);
            lemma_strikes_prefix(nails@, target, i + 1);
        }
        let d = if n >= target {
            n - target
        } else {
            target - n
        };
        match total.checked_add(d) {
            Some(t) => {
                total = t;
            },
            None => {
                return None;
            },
        }
        i += 1;
    }
    assert(nails@.take(i as int) =~= nails@);
    Some(total)
}

/// What `count_strikes` owes for a parsed input.
pub open spec fn level_outcome(nails: Option<Seq<usize>>) -> Result<usize, NailError> {
    match nails {
        None => Err(NailError::BadRow),
        Some(v) => if v.len() == 0 {
            Err(NailError::NoNails)
        } else if strikes_toward(v, shortest(v)) <= usize::MAX {
            Ok(strikes_toward(v, shortest(v)) as usize)
        } else {
            Err(NailError::TooManyStrikes)
        },
    }
}

/// The strikes that bring every nail down to the shortest one.
pub fn count_strikes(input: &str) -> (strikes: Result<usize, NailError>)
    ensures
        strikes == level_outcome(nails_of(input@)),
{
    let nails = match parse(input) {
        Ok(v) => v,
        Err(e) => {
            return Err(e);
        },
    };
    if nails.len() == 0 {
        return Err(NailError::NoNails);
    }
    let mut target: usize = nails[0];
    let mut i: usize = 1;
    assert(nails@.take(1) =~= seq![nails@[0]]);
    while i < nails.len()
        invariant
            1 <= i <= nails.len(),
            target == shortest(nails@.take(i as int)),
        decreases nails.len() - i,
    {
        proof {
            let next = nails@.take(i + 1);
            assert(next.drop_last() =~= nails@.take(i as int));
            assert(next.last() == nails@[i as int]);
        }
        if nails[i] < target {
            target = nails[i];
        }
        i += 1;
    }
    assert(nails@.take(i as int) =~= nails@);
    match strikes_at(&nails, target) {
        Some(total) => Ok(total),
        None => Err(NailError::TooManyStrikes),
    }
}

/// The fewest strikes among the first `upto` nails taken as the target.
pub open spec fn cheapest(nails: Seq<usize>, upto: nat) -> nat
    decreases upto,
{
    if upto == 0 {
        0
    } else if upto == 1 {
        strikes_toward(nails, nails[0])
    } else {
        let before = cheapest(nails, (upto - 1) as nat);
        let here = strikes_toward(nails, nails[upto - 1]);
        if here < before {
            here
        } else {
            before
        }
    }
}

/// Some nail, taken as the target, needs more strikes than fit in a
/// machine word.
pub open spec fn some_target_overflows(nails: Seq<usize>) -> bool {
    exists|k: int| 0 <= k < nails.len() && strikes_toward(nails, #[trigger] nails[k]) > usize::MAX
}

/// What `count_strikes_advanced` owes for a parsed input.
pub open spec fn advanced_outcome(nails: Option<Seq<usize>>) -> Result<usize, NailError> {
    match nails {
        None => Err(NailError::BadRow),
        Some(v) => if v.len() == 0 {
            Err(NailError::NoNails)
        } else if some_target_overflows(v) {
            Err(NailError::TooManyStrikes)
        } else {
            Ok(cheapest(v, v.len()) as usize)
        },
    }
}

/// The fewest strikes that bring every nail to the length of one of them,
/// striking being possible in both directions.
pub fn count_strikes_advanced(input: &str) -> (strikes: Result<usize, NailError>)
    ensures
        strikes == advanced_outcome(nails_of(input@)),
{
    let nails = match parse(input) {
        Ok(v) => v,
        Err(e) => {
            return Err(e);
        },
    };
    if nails.len() == 0 {
        return Err(NailError::NoNails);
    }
    let mut best: usize = match strikes_at(&nails, nails[0]) {
        Some(t) => t,
        None => {
            assert(strikes_toward(nails@, nails@[0]) > usize::MAX);
            return Err(NailError::TooManyStrikes);
        },
    };
    let mut i: usize = 1;
    while i < nails.len()
        invariant
            1 <= i <= nails.len(),
            nails_of(input@) == Some(nails@),
            best == cheapest(nails@, i as nat),
            forall|k: int| 0 <= k < i ==> strikes_toward(nails@, #[trigger] nails@[k]) <= usize::MAX,
        decreases nails.len() - i,
    {
        match strikes_at(&nails, nails[i]) {
            Some(t) => {
                if t < best {
                    best = t;
                }
            },
            None => {
                assert(strikes_toward(nails@, nails@[i as int]) > usize::MAX);
                assert(some_target_overflows(nails@));
                return Err(NailError::TooManyStrikes);
            },
        }
        i += 1;
    }
    Ok(best)
}

} // verus!
