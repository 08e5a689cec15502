//! Crates that nest: a crate goes into any crate that is larger.

use crate::text::{chars_of, parse_words_of, split, split_at_each, trim, trimmed, words};
use vstd::prelude::*;

verus! {

/// The sizes that a text lists, separated by commas.
pub open spec fn sizes_of(text: Seq<char>) -> Option<Seq<usize>> {
    words(split(trim(text), ','))
}

/// Reads sizes separated by commas. Every piece has to spell a size;
/// `read_crates` tells whether each does.
pub fn parse_crates(s: &str) -> (sizes: Vec<usize>)
    requires
        sizes_of(s@) is Some,
    ensures
        sizes_of(s@) == Some(sizes@),
{
    read_crates(s).unwrap()
}

/// Reads sizes separated by commas.
pub fn read_crates(s: &str) -> (sizes: Option<Vec<usize>>)
    ensures
        match sizes {
            Some(v) => sizes_of(s@) == Some(v@),
            None => sizes_of(s@).is_none(),
        },
{
    let chars = chars_of(s);
    let body = trimmed(&chars);
    let pieces = split_at_each(&body, ',');
    parse_words_of(&pieces)
}

/// The size at place `i` does not come before place `i`.
pub open spec fn is_first(sizes: Seq<usize>, i: int) -> bool {
    forall|j: int| 0 <= j < i ==> sizes[j] != sizes[i]
}

/// The sum of the different sizes among the first `upto`: every size is
/// counted where it comes first.
pub open spec fn distinct_sum(sizes: Seq<usize>, upto: nat) -> nat
    decreases upto,
{
    if upto == 0 {
        0
    } else {
        distinct_sum(sizes, (upto - 1) as nat) + (if is_first(sizes, upto - 1) {
            sizes[upto - 1] as nat
        } else {
            0nat
        })
    }
}

/// Whether the size at place `i` comes there first.
pub fn comes_first(sizes: &Vec<usize>, i: usize) -> (yes: bool)
    requires
        i < sizes.len(),
    ensures
        yes == is_first(sizes@, i as int),
{
    let mut j: usize = 0;
    while j < i
        invariant
            0 <= j <= i < sizes.len(),
            forall|k: int| 0 <= k < j ==> sizes@[k] != sizes@[i as int],
        decreases i - j,
    {
        if sizes[j] == sizes[i] {
            return false;
        }
        j += 1;
    }
    true
}

/// The largest sum of sizes of crates that nest into one another: one
/// crate of every size. `None` when the sum leaves the machine word.
pub fn largest_packing_sum(sizes: &Vec<usize>) -> (sum: Option<usize>)
    ensures
        sum == (if distinct_sum(sizes@, sizes@.len()) <= usize::MAX {
            Some(distinct_sum(sizes@, sizes@.len()) as usize)
        } else {
            None
        }),
{
    let mut sum: usize = 0;
    let mut i: usize = 0;
    while i < sizes.len()
        invariant
            0 <= i <= sizes.len(),
            sum == distinct_sum(sizes@, i as nat),
        decreases sizes.len() - i,
    {
        if comes_first(sizes, i) {
            sum = match sum.checked_add(sizes[i]) {
                Some(s) => s,
                None => {
                    proof {
                        lemma_distinct_sum_grows(sizes@, (i + 1) as nat, sizes@.len());
                    }
                    return None;
                },
            };
        }
        i += 1;
    }
    Some(sum)
}

/// The sum grows with the places looked at.
pub proof fn lemma_distinct_sum_grows(sizes: Seq<usize>, a: nat, b: nat)
    requires
        a <= b,
    ensures
        distinct_sum(sizes, a) <= distinct_sum(sizes, b),
    decreases b,
{
    if a < b {
        lemma_distinct_sum_grows(sizes, a, (b - 1) as nat);
    }
}

/// The size lies above the floor, if there is one.
pub open spec fn above(floor: Option<usize>, v: usize) -> bool {
    match floor {
        Some(f) => v > f,
        None => true,
    }
}

/// `v` is the smallest size above `floor`, or the smallest of all when
/// there is no floor.
pub open spec fn is_next_size(sizes: Seq<usize>, floor: Option<usize>, v: usize) -> bool {
    &&& sizes.contains(v)
    &&& above(floor, v)
    &&& forall|j: int| 0 <= j < sizes.len() && above(floor, #[trigger] sizes[j]) ==> v <= sizes[j]
}

/// The smallest size above `floor`, if there is one.
pub fn next_size(sizes: &Vec<usize>, floor: Option<usize>) -> (next: Option<usize>)
    ensures
        match next {
            Some(v) => is_next_size(sizes@, floor, v),
            None => forall|j: int| 0 <= j < sizes@.len() ==> !above(floor, #[trigger] sizes@[j]),
        },
{
    let mut best: Option<usize> = None;
    let mut i: usize = 0;
    while i < sizes.len()
        invariant
            0 <= i <= sizes.len(),
            match best {
                Some(v) => is_next_size(sizes@.take(i as int), floor, v),
                None => forall|j: int| 0 <= j < i ==> !above(floor, #[trigger] sizes@[j]),
            },
        decreases sizes.len() - i,
    {
        let v = sizes[i];
        let is_above = match floor {
            Some(f) => v > f,
            None => true,
        };
        let ghost seen = sizes@.take(i as int);
        let ghost seen_next = sizes@.take(i + 1);
        proof {
            assert(seen_next =~= seen.push(v));
            match best {
                Some(b) => {
                    let k = choose|k: int| 0 <= k < seen.len() && seen[k] == b;
                    assert(seen_next[k] == b);
                },
                None => {},
            }
        }
        if is_above {
            let better = match best {
                Some(b) => v < b,
                None => true,
            };
            if better {
                best = Some(v);
                assert(seen_next[i as int] == v);
                assert forall|j: int|
                    0 <= j < seen_next.len() && above(floor, #[trigger] seen_next[j]) implies v <= seen_next[j] by {
                    if j < i {
                        assert(seen[j] == seen_next[j]);
                    }
                }
            } else {
                assert forall|j: int|
                    0 <= j < seen_next.len() && above(floor, #[trigger] seen_next[j]) implies best.unwrap() <= seen_next[j] by {
                    if j < i {
                        assert(seen[j] == seen_next[j]);
                    }
                }
            }
        } else {
            match best {
                Some(b) => {
                    assert forall|j: int|
                        0 <= j < seen_next.len() && above(floor, #[trigger] seen_next[j]) implies b <= seen_next[j] by {
                        if j < i {
                            assert(seen[j] == seen_next[j]);
                        }
                    }
                },
                None => {},
            }
        }
        i += 1;
    }
    assert(sizes@.take(i as int) =~= sizes@);
    proof {
        match best {
            Some(v) => {
                assert(is_next_size(sizes@.take(i as int), floor, v));
                assert(is_next_size(sizes@, floor, v));
            },
            None => {},
        }
    }
    best
}

/// The sum of the `count` smallest different sizes, or of all different
/// sizes when there are fewer.
pub open spec fn smallest_sum(sizes: Seq<usize>, floor: Option<usize>, count: nat) -> nat
    decreases count,
{
    if count == 0 {
        0
    } else if exists|v: usize| is_next_size(sizes, floor, v) {
        let v = choose|v: usize| is_next_size(sizes, floor, v);
        v as nat + smallest_sum(sizes, Some(v), (count - 1) as nat)
    } else {
        0
    }
}

/// The smallest size above a floor is one size only.
pub proof fn lemma_next_size_unique(sizes: Seq<usize>, floor: Option<usize>, a: usize, b: usize)
    requires
        is_next_size(sizes, floor, a),
        is_next_size(sizes, floor, b),
    ensures
        a == b,
{
    let i = choose|i: int| 0 <= i < sizes.len() && sizes[i] == a;
    let j = choose|j: int| 0 <= j < sizes.len() && sizes[j] == b;
    assert(b <= sizes[i]);
    assert(a <= sizes[j]);
}

/// The sum of the `count` smallest different sizes, as when `count`
/// crates are nested with the least material. `None` when the sum leaves
/// the machine word.
pub fn smallest_packing_sum(sizes: &Vec<usize>, count: usize) -> (sum: Option<usize>)
    ensures
        sum == (if smallest_sum(sizes@, None, count as nat) <= usize::MAX {
            Some(smallest_sum(sizes@, None, count as nat) as usize)
        } else {
            None
        }),
{
    let mut sum: usize = 0;
    let mut floor: Option<usize> = None;
    let mut left: usize = count;
    while left > 0
        invariant
            sum + smallest_sum(sizes@, floor, left as nat) == smallest_sum(
                sizes@,
                None,
                count as nat,
            ),
        decreases left,
    {
        match next_size(sizes, floor) {
            Some(v) => {
                proof {
                    let w = choose|w: usize| is_next_size(sizes@, floor, w);
                    lemma_next_size_unique(sizes@, floor, v, w);
                }
                sum = match sum.checked_add(v) {
                    Some(s) => s,
                    None => {
                        return None;
                    },
                };
                floor = Some(v);
                left -= 1;
            },
            None => {
                proof {
                    if exists|v: usize| is_next_size(sizes@, floor, v) {
                        let w = choose|w: usize| is_next_size(sizes@, floor, w);
                        let j = choose|j: int| 0 <= j < sizes@.len() && sizes@[j] == w;
                    }
                }
                return Some(sum);
            },
        }
    }
    Some(sum)
}

/// How many of the first `upto` crates have the size `v`.
pub open spec fn copies(sizes: Seq<usize>, v: usize, upto: nat) -> nat
    decreases upto,
{
    if upto == 0 {
        0
    } else {
        copies(sizes, v, (upto - 1) as nat) + (if sizes[upto - 1] == v {
            1nat
        } else {
            0nat
        })
    }
}

/// The fewest sets that hold all crates, no set with two crates of one
/// size: as many as the most frequent size has crates.
pub fn fewest_sets(sizes: &Vec<usize>) -> (sets: usize)
    ensures
        forall|i: int| 0 <= i < sizes@.len() ==> copies(sizes@, sizes@[i], sizes@.len()) <= sets,
        sizes@.len() == 0 ==> sets == 0,
        sizes@.len() > 0 ==> exists|i: int|
            0 <= i < sizes@.len() && sets == copies(sizes@, #[trigger] sizes@[i], sizes@.len()),
{
    let mut most: usize = 0;
    let mut i: usize = 0;
    while i < sizes.len()
        invariant
            0 <= i <= sizes.len(),
            forall|k: int| 0 <= k < i ==> copies(sizes@, sizes@[k], sizes@.len()) <= most,
            i == 0 ==> most == 0,
            i > 0 ==> exists|k: int|
                0 <= k < i && most == copies(sizes@, #[trigger] sizes@[k], sizes@.len()),
        decreases sizes.len() - i,
    {
        let v = sizes[i];
        let mut count: usize = 0;
        let mut j: usize = 0;
        while j < sizes.len()
            invariant
                0 <= j <= sizes.len(),
                count == copies(sizes@, v, j as nat),
                count <= j,
            decreases sizes.len() - j,
        {
            if sizes[j] == v {
                count += 1;
            }
            j += 1;
        }
        if count > most {
            most = count;
        }
        i += 1;
    }
    most
}

} // verus!
