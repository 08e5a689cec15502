//! Ducks in columns that even themselves out: in a round the columns are
//! gone through from the first to the last, and where a column and the
//! next one differ in the direction of the round, one duck moves over.

use vstd::prelude::*;

verus! {

/// The columns after the first `upto` pairs of neighbours were looked at
/// in one round. In a round to the right a duck moves on from a column
/// to a smaller next one; in a round to the left a duck moves back from
/// a greater next column.
pub open spec fn swept(birds: Seq<usize>, rightward: bool, upto: nat) -> Seq<usize>
    decreases upto,
{
    if upto == 0 {
        birds
    } else {
        let before = swept(birds, rightward, (upto - 1) as nat);
        let i = upto - 1;
        if rightward && before[i + 1] < before[i] {
            before.update(i + 1, (before[i + 1] + 1) as usize).update(i, (before[i] - 1) as usize)
        } else if !rightward && before[i] < before[i + 1] {
            before.update(i + 1, (before[i + 1] - 1) as usize).update(i, (before[i] + 1) as usize)
        } else {
            before
        }
    }
}

/// The columns after one whole round.
pub open spec fn round(birds: Seq<usize>, rightward: bool) -> Seq<usize> {
    if birds.len() == 0 {
        birds
    } else {
        swept(birds, rightward, (birds.len() - 1) as nat)
    }
}

/// The number of ducks in the first `upto` columns.
pub open spec fn flock(birds: Seq<usize>, upto: nat) -> nat
    decreases upto,
{
    if upto == 0 {
        0
    } else {
        flock(birds, (upto - 1) as nat) + birds[upto - 1] as nat
    }
}

/// The ducks of the first `upto` columns, each counted as often as the
/// number of its column says.
pub open spec fn moment(birds: Seq<usize>, upto: nat) -> nat
    decreases upto,
{
    if upto == 0 {
        0
    } else {
        moment(birds, (upto - 1) as nat) + (upto - 1) as nat * (birds[upto - 1] as nat)
    }
}

/// A change to a column changes the flock and the moment only from
/// that column on.
pub proof fn lemma_update_sums(birds: Seq<usize>, i: int, v: usize, upto: nat)
    requires
        0 <= i < birds.len(),
        upto <= birds.len(),
    ensures
        flock(birds.update(i, v), upto) == flock(birds, upto) + (if i < upto {
            v - birds[i]
        } else {
            0int
        }),
        moment(birds.update(i, v), upto) == moment(birds, upto) + (if i < upto {
            i * (v - birds[i])
        } else {
            0int
        }),
    decreases upto,
{
    if upto > 0 {
        lemma_update_sums(birds, i, v, (upto - 1) as nat);
        if upto - 1 == i {
            assert(i * v - i * birds[i] == i * (v - birds[i])) by (nonlinear_arith);
        }
    }
}

/// A part of a round keeps the number of columns and of ducks; every
/// duck that moves changes the moment by one, up in a round to the right
/// and down in a round to the left.
pub proof fn lemma_swept(birds: Seq<usize>, rightward: bool, upto: nat)
    requires
        upto + 1 <= birds.len(),
    ensures
        swept(birds, rightward, upto).len() == birds.len(),
        flock(swept(birds, rightward, upto), birds.len()) == flock(birds, birds.len()),
        rightward ==> moment(swept(birds, rightward, upto), birds.len()) >= moment(
            birds,
            birds.len(),
        ),
        !rightward ==> moment(swept(birds, rightward, upto), birds.len()) <= moment(
            birds,
            birds.len(),
        ),
        swept(birds, rightward, upto) != birds ==> moment(
            swept(birds, rightward, upto),
            birds.len(),
        ) != moment(birds, birds.len()),
        upto > 0 && swept(birds, rightward, upto) != swept(birds, rightward, (upto - 1) as nat)
            ==> moment(swept(birds, rightward, upto), birds.len()) != moment(
            swept(birds, rightward, (upto - 1) as nat),
            birds.len(),
        ),
        upto > 0 && rightward ==> moment(swept(birds, rightward, upto), birds.len()) >= moment(
            swept(birds, rightward, (upto - 1) as nat),
            birds.len(),
        ),
        upto > 0 && !rightward ==> moment(swept(birds, rightward, upto), birds.len()) <= moment(
            swept(birds, rightward, (upto - 1) as nat),
            birds.len(),
        ),
    decreases upto,
{
    if upto > 0 {
        lemma_swept(birds, rightward, (upto - 1) as nat);
        let before = swept(birds, rightward, (upto - 1) as nat);
        let i = upto - 1;
        let n = birds.len();
        if rightward && before[i + 1] < before[i] {
            let mid = before.update(i + 1, (before[i + 1] + 1) as usize);
            lemma_update_sums(before, i + 1, (before[i + 1] + 1) as usize, n);
            lemma_update_sums(mid, i, (before[i] - 1) as usize, n);
            assert((i + 1) * 1 + i * (-1) == 1) by (nonlinear_arith);
            assert((i + 1) * ((before[i + 1] + 1) - before[i + 1]) == (i + 1) * 1)
                by (nonlinear_arith);
            assert(i * ((before[i] - 1) - before[i]) == i * (-1)) by (nonlinear_arith);
        } else if !rightward && before[i] < before[i + 1] {
            let mid = before.update(i + 1, (before[i + 1] - 1) as usize);
            lemma_update_sums(before, i + 1, (before[i + 1] - 1) as usize, n);
            lemma_update_sums(mid, i, (before[i] + 1) as usize, n);
            assert((i + 1) * (-1) + i * 1 == -1) by (nonlinear_arith);
            assert((i + 1) * ((before[i + 1] - 1) - before[i + 1]) == (i + 1) * (-1))
                by (nonlinear_arith);
            assert(i * ((before[i] + 1) - before[i]) == i * 1) by (nonlinear_arith);
        }
    }
}

/// The moment is at most the flock times the number of the last column.
pub proof fn lemma_moment_bounded(birds: Seq<usize>, upto: nat)
    requires
        1 <= upto <= birds.len(),
    ensures
        moment(birds, upto) <= (upto - 1) * flock(birds, upto),
    decreases upto,
{
    if upto > 1 {
        lemma_moment_bounded(birds, (upto - 1) as nat);
        let a = flock(birds, (upto - 1) as nat);
        let b = birds[upto - 1] as nat;
        assert((upto - 2) * a + (upto - 1) * b <= (upto - 1) * (a + b)) by (nonlinear_arith)
            requires
                upto >= 2,
                a >= 0,
        ;
    } else {
        assert(moment(birds, 1) == 0) by {
            assert(moment(birds, 0) == 0);
            assert(0 * (birds[0] as nat) == 0) by (nonlinear_arith);
        }
        assert(0 * flock(birds, 1) == 0) by (nonlinear_arith);
    }
}

/// How many rounds can still change the columns, at most.
pub open spec fn rounds_left(birds: Seq<usize>, rightward: bool) -> nat {
    if birds.len() == 0 {
        0
    } else if rightward {
        ((birds.len() - 1) * flock(birds, birds.len()) - moment(birds, birds.len())) as nat
    } else {
        moment(birds, birds.len())
    }
}

/// The columns after rounds in one direction until a round changes
/// nothing, and the number of rounds that changed something; with at
/// most `fuel` rounds.
pub open spec fn settle(birds: Seq<usize>, rightward: bool, fuel: nat) -> (Seq<usize>, nat)
    decreases fuel,
{
    if fuel == 0 || round(birds, rightward) == birds {
        (birds, 0)
    } else {
        let (last, rounds) = settle(round(birds, rightward), rightward, (fuel - 1) as nat);
        (last, rounds + 1)
    }
}

/// The columns once rounds in one direction change nothing any more, and
/// the rounds that it took.
pub open spec fn settled(birds: Seq<usize>, rightward: bool) -> (Seq<usize>, nat) {
    settle(birds, rightward, rounds_left(birds, rightward) + 1)
}

/// With the fuel that `rounds_left` counts the rounds go on until one
/// changes nothing.
pub proof fn lemma_settle_ends(birds: Seq<usize>, rightward: bool, fuel: nat)
    requires
        fuel > rounds_left(birds, rightward),
    ensures
        round(settle(birds, rightward, fuel).0, rightward) == settle(birds, rightward, fuel).0,
        settle(birds, rightward, fuel) == settled(birds, rightward),
    decreases fuel,
{
    let next = round(birds, rightward);
    if next != birds {
        let n = birds.len();
        lemma_swept(birds, rightward, (n - 1) as nat);
        lemma_moment_bounded(next, n);
        lemma_moment_bounded(birds, n);
        lemma_settle_ends(next, rightward, (fuel - 1) as nat);
        lemma_settle_ends(next, rightward, rounds_left(birds, rightward) as nat);
    }
}

/// One round over the columns; says whether a duck moved.
pub fn sweep(birds: &mut Vec<usize>, rightward: bool) -> (changed: bool)
    ensures
        final(birds)@ == round(old(birds)@, rightward),
        changed == (final(birds)@ != old(birds)@),
{
    if birds.len() == 0 {
        return false;
    }
    let ghost start = birds@;
    let n = birds.len();
    let mut changed = false;
    let mut i: usize = 0;
    while i < n - 1
        invariant
            0 <= i <= n - 1,
            n == start.len(),
            n == birds@.len(),
            birds@ == swept(start, rightward, i as nat),
            changed == (birds@ != start),
        decreases n - 1 - i,
    {
        proof {
            lemma_swept(start, rightward, i as nat);
            lemma_swept(start, rightward, (i + 1) as nat);
        }
        let ghost before = birds@;
        if rightward && birds[i + 1] < birds[i] {
            let more = birds[i + 1] + 1;
            let less = birds[i] - 1;
            birds.set(i + 1, more);
            birds.set(i, less);
            changed = true;
            assert(birds@[i as int] != before[i as int]);
        } else if !rightward && birds[i] < birds[i + 1] {
            let less = birds[i + 1] - 1;
            let more = birds[i] + 1;
            birds.set(i + 1, less);
            birds.set(i, more);
            changed = true;
            assert(birds@[i as int] != before[i as int]);
        }
        i += 1;
    }
    changed
}

/// Rounds in one direction until a round changes nothing; returns the
/// number of rounds that changed something, or `None` when that number
/// leaves the machine word, the columns then being left as they are at
/// that point.
pub fn settle_down(birds: &mut Vec<usize>, rightward: bool) -> (rounds: Option<usize>)
    ensures
        rounds is Some ==> final(birds)@ == settled(old(birds)@, rightward).0 && rounds.unwrap()
            == settled(old(birds)@, rightward).1,
        rounds.is_none() ==> settled(old(birds)@, rightward).1 > usize::MAX,
{
    let ghost start = birds@;
    let ghost mut fuel: nat = rounds_left(start, rightward) + 1;
    let mut rounds: usize = 0;
    loop
        invariant
            start == old(birds)@,
            fuel > rounds_left(birds@, rightward),
            settled(start, rightward).0 == settle(birds@, rightward, fuel).0,
            settled(start, rightward).1 == settle(birds@, rightward, fuel).1 + rounds,
        decreases fuel,
    {
        let ghost before = birds@;
        proof {
            if round(before, rightward) != before {
                let n = before.len();
                lemma_swept(before, rightward, (n - 1) as nat);
                lemma_moment_bounded(round(before, rightward), n);
                lemma_moment_bounded(before, n);
            }
        }
        if !sweep(birds, rightward) {
            assert(settle(before, rightward, fuel) == (before, 0nat));
            return Some(rounds);
        }
        assert(settle(before, rightward, fuel).1 == settle(
            round(before, rightward),
            rightward,
            (fuel - 1) as nat,
        ).1 + 1);
        if rounds == usize::MAX {
            return None;
        }
        rounds += 1;
        proof {
            fuel = (fuel - 1) as nat;
        }
    }
}

/// The sum, over the first `upto` columns, of the ducks of a column
/// times its number counted from 1.
pub open spec fn checksum(birds: Seq<usize>, upto: nat) -> nat
    decreases upto,
{
    if upto == 0 {
        0
    } else {
        checksum(birds, (upto - 1) as nat) + upto * (birds[upto - 1] as nat)
    }
}

/// The checksum grows with the columns counted.
pub proof fn lemma_checksum_grows(birds: Seq<usize>, a: nat, b: nat)
    requires
        a <= b,
    ensures
        checksum(birds, a) <= checksum(birds, b),
    decreases b,
{
    if a < b {
        lemma_checksum_grows(birds, a, (b - 1) as nat);
        assert(b * (birds[b - 1] as nat) >= 0) by (nonlinear_arith);
    }
}

/// The checksum of the columns; `None` when it leaves the machine word.
pub fn checksum_of(birds: &Vec<usize>) -> (sum: Option<usize>)
    ensures
        sum == (if checksum(birds@, birds@.len()) <= usize::MAX {
            Some(checksum(birds@, birds@.len()) as usize)
        } else {
            None
        }),
{
    let mut sum: usize = 0;
    let mut i: usize = 0;
    while i < birds.len()
        invariant
            0 <= i <= birds.len(),
            sum == checksum(birds@, i as nat),
        decreases birds.len() - i,
    {
        let term = (i + 1).checked_mul(birds[i]);
        let next = match term {
            Some(t) => sum.checked_add(t),
            None => None,
        };
        sum = match next {
            Some(s) => s,
            None => {
                proof {
                    lemma_checksum_grows(birds@, (i + 1) as nat, birds@.len());
                }
                return None;
            },
        };
        i += 1;
    }
    Some(sum)
}

/// The ducks that the first `upto` columns hold above `level`.
pub open spec fn surplus(birds: Seq<usize>, level: usize, upto: nat) -> nat
    decreases upto,
{
    if upto == 0 {
        0
    } else {
        surplus(birds, level, (upto - 1) as nat) + (if birds[upto - 1] > level {
            (birds[upto - 1] - level) as nat
        } else {
            0nat
        })
    }
}

/// The surplus is no more than the flock.
pub proof fn lemma_surplus_bounded(birds: Seq<usize>, level: usize, upto: nat)
    ensures
        surplus(birds, level, upto) <= flock(birds, upto),
    decreases upto,
{
    if upto > 0 {
        lemma_surplus_bounded(birds, level, (upto - 1) as nat);
    }
}

/// The flock grows with the columns counted.
pub proof fn lemma_flock_grows(birds: Seq<usize>, a: nat, b: nat)
    requires
        a <= b,
    ensures
        flock(birds, a) <= flock(birds, b),
    decreases b,
{
    if a < b {
        lemma_flock_grows(birds, a, (b - 1) as nat);
    }
}

/// The ducks that stand above the whole part of the mean of all columns:
/// as many rounds as columns in ascending order need to become even.
/// `None` without columns or when the flock leaves the machine word.
pub fn rounds_to_even_out(birds: &Vec<usize>) -> (rounds: Option<usize>)
    ensures
        rounds == (if birds@.len() == 0 || flock(birds@, birds@.len()) > usize::MAX {
            None
        } else {
            Some(
                surplus(
                    birds@,
                    (flock(birds@, birds@.len()) / birds@.len()) as usize,
                    birds@.len(),
                ) as usize,
            )
        }),
{
    if birds.len() == 0 {
        return None;
    }
    let mut total: usize = 0;
    let mut i: usize = 0;
    while i < birds.len()
        invariant
            0 <= i <= birds.len(),
            total == flock(birds@, i as nat),
        decreases birds.len() - i,
    {
        total = match total.checked_add(birds[i]) {
            Some(t) => t,
            None => {
                proof {
                    lemma_flock_grows(birds@, (i + 1) as nat, birds@.len());
                }
                return None;
            },
        };
        i += 1;
    }
    let average = total / birds.len();
    let mut turns: usize = 0;
    let mut k: usize = 0;
    while k < birds.len()
        invariant
            0 <= k <= birds.len(),
            total == flock(birds@, birds@.len()),
            turns == surplus(birds@, average, k as nat),
        decreases birds.len() - k,
    {
        proof {
            lemma_surplus_bounded(birds@, average, (k + 1) as nat);
            lemma_flock_grows(birds@, (k + 1) as nat, birds@.len());
        }
        if birds[k] > average {
            turns = turns + (birds[k] - average);
        }
        k += 1;
    }
    Some(turns)
}

/// The columns after `n` rounds in one direction.
pub open spec fn after_rounds(birds: Seq<usize>, rightward: bool, n: nat) -> Seq<usize>
    decreases n,
{
    if n == 0 {
        birds
    } else {
        after_rounds(round(birds, rightward), rightward, (n - 1) as nat)
    }
}

/// The columns after `rounds` rounds in all: rounds to the right until
/// one changes nothing, then rounds to the left for what is left of
/// them.
pub open spec fn flown(birds: Seq<usize>, rounds: nat) -> Seq<usize> {
    let (mid, taken) = settled(birds, true);
    if taken < rounds {
        after_rounds(mid, false, (rounds - taken) as nat)
    } else {
        mid
    }
}

/// Lets the ducks move to the right until a round changes nothing and
/// then to the left for the rest of `rounds` rounds, and returns the
/// checksum of the columns. `None` when the rounds to the right or the
/// checksum leave the machine word.
pub fn checksum_after_rounds(birds: &mut Vec<usize>, rounds: usize) -> (sum: Option<usize>)
    ensures
        sum == (if settled(old(birds)@, true).1 <= usize::MAX && checksum(
            flown(old(birds)@, rounds as nat),
            flown(old(birds)@, rounds as nat).len(),
        ) <= usize::MAX {
            Some(
                checksum(
                    flown(old(birds)@, rounds as nat),
                    flown(old(birds)@, rounds as nat).len(),
                ) as usize,
            )
        } else {
            None
        }),
{
    let taken = match settle_down(birds, true) {
        Some(t) => t,
        None => {
            return None;
        },
    };
    let ghost mid = birds@;
    let mut turn: usize = taken;
    while turn < rounds
        invariant
            taken <= turn,
            taken < rounds ==> turn <= rounds,
            mid == settled(old(birds)@, true).0,
            taken == settled(old(birds)@, true).1,
            taken < rounds ==> after_rounds(birds@, false, (rounds - turn) as nat) == after_rounds(
                mid,
                false,
                (rounds - taken) as nat,
            ),
            taken >= rounds ==> birds@ == mid,
        decreases rounds - turn,
    {
        let _ = sweep(birds, false);
        turn += 1;
    }
    checksum_of(birds)
}

/// The rounds that it takes until the ducks stand still: rounds to the
/// right until one changes nothing, then rounds to the left until one
/// changes nothing. `None` when the number leaves the machine word.
pub fn rounds_to_settle(birds: &mut Vec<usize>) -> (rounds: Option<usize>)
    ensures
        rounds == (if settled(old(birds)@, true).1 + settled(
            settled(old(birds)@, true).0,
            false,
        ).1 <= usize::MAX {
            Some(
                (settled(old(birds)@, true).1 + settled(settled(old(birds)@, true).0, false).1) as usize,
            )
        } else {
            None
        }),
{
    let right = match settle_down(birds, true) {
        Some(t) => t,
        None => {
            return None;
        },
    };
    let left = match settle_down(birds, false) {
        Some(t) => t,
        None => {
            return None;
        },
    };
    right.checked_add(left)
}

} // verus!
