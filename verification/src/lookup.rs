//! The fewest stamps that add up to a brightness.

use vstd::prelude::*;

verus! {

/// The smaller of two numbers.
pub open spec fn least(a: nat, b: nat) -> nat {
    if a <= b {
        a
    } else {
        b
    }
}

/// The fewest stamps, taken from the first `used` of `stamps` and each as
/// often as wanted, that add up to `amount`; `cap` when that many or more
/// would be needed, or when no choice adds up.
pub open spec fn fewest(stamps: Seq<usize>, used: nat, amount: nat, cap: nat) -> nat
    decreases used, amount,
{
    if used == 0 {
        if amount == 0 {
            0
        } else {
            cap
        }
    } else {
        let stamp = stamps[used - 1] as nat;
        let without = fewest(stamps, (used - 1) as nat, amount, cap);
        if stamp == 0 || amount < stamp {
            without
        } else {
            least(without, 1 + fewest(stamps, used, (amount - stamp) as nat, cap))
        }
    }
}

/// The answer never exceeds the cap.
pub proof fn lemma_fewest_capped(stamps: Seq<usize>, used: nat, amount: nat, cap: nat)
    ensures
        fewest(stamps, used, amount, cap) <= cap,
    decreases used, amount,
{
    if used > 0 {
        lemma_fewest_capped(stamps, (used - 1) as nat, amount, cap);
    }
}

/// A table of the fewest stamps for every brightness up to a highest one.
pub struct LookUp {
    pub table: Vec<usize>,
}

impl LookUp {
    /// The table for `stamps` up to brightness `highest`, with `highest`
    /// itself as the cap.
    pub fn new(stamps: &[usize], highest: usize) -> (made: LookUp)
        requires
            highest < usize::MAX,
        ensures
            made.table@.len() == highest + 1,
            forall|a: int|
                0 <= a <= highest ==> #[trigger] made.table@[a] == fewest(
                    stamps@,
                    stamps@.len(),
                    a as nat,
                    highest as nat,
                ),
            forall|a: int| 0 <= a <= highest ==> #[trigger] made.table@[a] <= highest,
    {
        let mut table: Vec<usize> = vec![highest; highest + 1];
        table.set(0, 0);
        let mut j: usize = 0;
        while j < stamps.len()
            invariant
                0 <= j <= stamps.len(),
                highest < usize::MAX,
                table@.len() == highest + 1,
                forall|a: int|
                    0 <= a <= highest ==> #[trigger] table@[a] == fewest(
                        stamps@,
                        j as nat,
                        a as nat,
                        highest as nat,
                    ),
            decreases stamps.len() - j,
        {
            let s = stamps[j];
            let mut i: usize = 0;
            while i <= highest
                invariant
                    0 <= i <= highest + 1,
                    0 <= j < stamps.len(),
                    s == stamps@[j as int],
                    highest < usize::MAX,
                    table@.len() == highest + 1,
                    forall|a: int|
                        0 <= a < i ==> #[trigger] table@[a] == fewest(
                            stamps@,
                            (j + 1) as nat,
                            a as nat,
                            highest as nat,
                        ),
                    forall|a: int|
                        i <= a <= highest ==> #[trigger] table@[a] == fewest(
                            stamps@,
                            j as nat,
                            a as nat,
                            highest as nat,
                        ),
                decreases highest + 1 - i,
            {
                if i >= s && s > 0 {
                    proof {
                        lemma_fewest_capped(
                            stamps@,
                            (j + 1) as nat,
                            (i - s) as nat,
                            highest as nat,
                        );
                    }
                    let via = 1 + table[i - s];
                    if via < table[i] {
                        table.set(i, via);
                    }
                }
                i += 1;
            }
            j += 1;
        }
        proof {
            assert forall|a: int| 0 <= a <= highest implies #[trigger] table@[a] <= highest by {
                lemma_fewest_capped(stamps@, stamps@.len(), a as nat, highest as nat);
            }
        }
        LookUp { table }
    }

    /// The fewest stamps for `brightness`.
    pub fn beetles(&self, brightness: usize) -> (n: usize)
        requires
            brightness < self.table@.len(),
        ensures
            n == self.table@[brightness as int],
    {
        self.table[brightness]
    }

    /// The stamps needed when `brightness` is split at `i`.
    pub open spec fn split_cost(&self, brightness: usize, i: int) -> int {
        self.table@[i] + self.table@[brightness - i]
    }

    /// The fewest stamps for `brightness` made as two amounts, the first of
    /// them one of the fifty from half the brightness on.
    pub fn dual_beetles(&self, brightness: usize) -> (n: usize)
        requires
            brightness / 2 + 50 <= self.table@.len(),
            brightness / 2 + 49 <= brightness,
            forall|a: int| 0 <= a < self.table@.len() ==> #[trigger] self.table@[a] <= usize::MAX / 2,
        ensures
            exists|i: int|
                brightness / 2 <= i < brightness / 2 + 50 && n == #[trigger] self.split_cost(
                    brightness,
                    i,
                ),
            forall|i: int|
                brightness / 2 <= i < brightness / 2 + 50 ==> n <= #[trigger] self.split_cost(
                    brightness,
                    i,
                ),
    {
        let middle = brightness / 2;
        let mut min_beetles: usize = self.table[middle] + self.table[brightness - middle];
        assert(min_beetles == self.split_cost(brightness, middle as int));
        let mut i: usize = middle + 1;
        while i < middle + 50
            invariant
                middle + 1 <= i <= middle + 50,
                middle == brightness / 2,
                brightness / 2 + 50 <= self.table@.len(),
                brightness / 2 + 49 <= brightness,
                forall|a: int|
                    0 <= a < self.table@.len() ==> #[trigger] self.table@[a] <= usize::MAX / 2,
                exists|k: int|
                    middle <= k < i && min_beetles == #[trigger] self.split_cost(brightness, k),
                forall|k: int|
                    middle <= k < i ==> min_beetles <= #[trigger] self.split_cost(brightness, k),
            decreases middle + 50 - i,
        {
            let cost = self.table[i] + self.table[brightness - i];
            assert(cost == self.split_cost(brightness, i as int));
            if cost < min_beetles {
                min_beetles = cost;
            }
            i += 1;
        }
        min_beetles
    }
}

/// The stamps for the first `upto` brightnesses together.
pub open spec fn beetles_sum(table: Seq<usize>, brightnesses: Seq<usize>, upto: nat) -> nat
    decreases upto,
{
    if upto == 0 {
        0
    } else {
        beetles_sum(table, brightnesses, (upto - 1) as nat) + table[brightnesses[upto - 1] as int] as nat
    }
}

/// The sum grows with the brightnesses counted.
pub proof fn lemma_beetles_sum_grows(table: Seq<usize>, brightnesses: Seq<usize>, a: nat, b: nat)
    requires
        a <= b,
    ensures
        beetles_sum(table, brightnesses, a) <= beetles_sum(table, brightnesses, b),
    decreases b,
{
    if a < b {
        lemma_beetles_sum_grows(table, brightnesses, a, (b - 1) as nat);
    }
}

impl LookUp {
    /// The fewest stamps for all the brightnesses together; `None` when
    /// the sum leaves the machine word.
    pub fn total_beetles(&self, brightnesses: &Vec<usize>) -> (total: Option<usize>)
        requires
            forall|k: int|
                0 <= k < brightnesses@.len() ==> #[trigger] brightnesses@[k] < self.table@.len(),
        ensures
            total == (if beetles_sum(self.table@, brightnesses@, brightnesses@.len())
                <= usize::MAX {
                Some(beetles_sum(self.table@, brightnesses@, brightnesses@.len()) as usize)
            } else {
                None
            }),
    {
        let mut total: usize = 0;
        let mut k: usize = 0;
        while k < brightnesses.len()
            invariant
                0 <= k <= brightnesses.len(),
                forall|j: int|
                    0 <= j < brightnesses@.len() ==> #[trigger] brightnesses@[j]
                        < self.table@.len(),
                total == beetles_sum(self.table@, brightnesses@, k as nat),
            decreases brightnesses.len() - k,
        {
            total = match total.checked_add(self.beetles(brightnesses[k])) {
                Some(t) => t,
                None => {
                    proof {
                        lemma_beetles_sum_grows(
                            self.table@,
                            brightnesses@,
                            (k + 1) as nat,
                            brightnesses@.len(),
                        );
                    }
                    return None;
                },
            };
            k += 1;
        }
        Some(total)
    }

    /// The greatest of the brightnesses, or 0 when there is none.
    pub fn brightest(brightnesses: &Vec<usize>) -> (top: usize)
        ensures
            forall|k: int| 0 <= k < brightnesses@.len() ==> #[trigger] brightnesses@[k] <= top,
            brightnesses@.len() == 0 ==> top == 0,
            brightnesses@.len() > 0 ==> brightnesses@.contains(top),
    {
        let mut top: usize = 0;
        let mut k: usize = 0;
        while k < brightnesses.len()
            invariant
                0 <= k <= brightnesses.len(),
                forall|j: int| 0 <= j < k ==> #[trigger] brightnesses@[j] <= top,
                k == 0 ==> top == 0,
                k > 0 ==> brightnesses@.contains(top),
            decreases brightnesses.len() - k,
        {
            if brightnesses[k] > top || k == 0 {
                top = brightnesses[k];
                assert(brightnesses@[k as int] == top);
            }
            k += 1;
        }
        top
    }
}

} // verus!
