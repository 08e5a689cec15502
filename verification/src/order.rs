//! Putting things in order: pairs of a number and a place, by number
//! first and by place among equal numbers.

use itertools::Itertools;
use vstd::prelude::*;

verus! {

/// A number together with the place it came from.
pub type Ranked = (i64, usize);

/// `a` does not come after `b`: its number is smaller, or the numbers
/// are the same and its place is not later.
pub open spec fn not_after(a: Ranked, b: Ranked) -> bool {
    a.0 < b.0 || (a.0 == b.0 && a.1 <= b.1)
}

/// Every pair of the sequence comes no later than the pairs behind it.
pub open spec fn in_order(s: Seq<Ranked>) -> bool {
    forall|i: int, j: int| 0 <= i <= j < s.len() ==> not_after(s[i], s[j])
}

/// `Itertools::sorted` on a vector of pairs: the same pairs, each as
/// often as before, in ascending order. Pairs are ordered as tuples are:
/// by the first part, and by the second among equal first parts.
#[verifier::external_body]
pub(crate) fn sorted_pairs(values: Vec<Ranked>) -> (out: Vec<Ranked>)
    ensures
        out@.to_multiset() == values@.to_multiset(),
        in_order(out@),
{
    values.into_iter().sorted().collect()
}

/// The numbers with their places.
pub open spec fn with_places(numbers: Seq<i64>) -> Seq<Ranked> {
    Seq::new(numbers.len(), |i: int| (numbers[i], i as usize))
}

/// The places of `numbers` from the greatest number to the smallest;
/// among equal numbers the later place comes first.
pub open spec fn is_ranking(numbers: Seq<i64>, places: Seq<usize>) -> bool {
    &&& places.len() == numbers.len()
    &&& forall|k: int| 0 <= k < places.len() ==> #[trigger] places[k] < numbers.len()
    &&& forall|p: usize| p < numbers.len() ==> #[trigger] places.contains(p)
    &&& forall|i: int, j: int|
        0 <= i <= j < places.len() ==> not_after(
            (numbers[places[j] as int], places[j]),
            (numbers[places[i] as int], places[i]),
        )
}

/// The places of `numbers` from the smallest number to the greatest;
/// among equal numbers the earlier place comes first.
pub open spec fn is_rising(numbers: Seq<i64>, places: Seq<usize>) -> bool {
    &&& places.len() == numbers.len()
    &&& forall|k: int| 0 <= k < places.len() ==> #[trigger] places[k] < numbers.len()
    &&& forall|p: usize| p < numbers.len() ==> #[trigger] places.contains(p)
    &&& forall|i: int, j: int|
        0 <= i <= j < places.len() ==> not_after(
            (numbers[places[i] as int], places[i]),
            (numbers[places[j] as int], places[j]),
        )
}

/// Orders the numbers: the places from the smallest number up.
pub fn rank_up(numbers: &Vec<i64>) -> (places: Vec<usize>)
    ensures
        is_rising(numbers@, places@),
{
    let mut pairs: Vec<Ranked> = Vec::new();
    let mut i: usize = 0;
    while i < numbers.len()
        invariant
            0 <= i <= numbers.len(),
            pairs@ == with_places(numbers@).take(i as int),
        decreases numbers.len() - i,
    {
        pairs.push((numbers[i], i));
        assert(pairs@ =~= with_places(numbers@).take(i + 1));
        i += 1;
    }
    assert(pairs@ =~= with_places(numbers@));
    let ghost given = pairs@;
    let sorted = sorted_pairs(pairs);
    let n = sorted.len();
    proof {
        broadcast use vstd::seq_lib::to_multiset_contains;

        sorted@.to_multiset_ensures();
        given.to_multiset_ensures();
        assert forall|e: Ranked| sorted@.contains(e) <==> given.contains(e) by {
            assert(sorted@.to_multiset().count(e) == given.to_multiset().count(e));
        }
    }
    let mut places: Vec<usize> = Vec::new();
    let mut k: usize = 0;
    while k < n
        invariant
            0 <= k <= n,
            n == sorted@.len(),
            n == numbers@.len(),
            given == with_places(numbers@),
            forall|e: Ranked| sorted@.contains(e) <==> given.contains(e),
            places@.len() == k,
            forall|j: int|
                0 <= j < k ==> #[trigger] places@[j] == sorted@[j].1 && places@[j] < numbers@.len()
                    && sorted@[j].0 == numbers@[places@[j] as int],
        decreases n - k,
    {
        let e = sorted[k];
        proof {
            assert(sorted@.contains(e));
            assert(given.contains(e));
            let at = choose|at: int| 0 <= at < given.len() && given[at] == e;
            assert(e == (numbers@[at], at as usize));
        }
        places.push(e.1);
        k += 1;
    }
    proof {
        assert forall|p: usize| p < numbers@.len() implies #[trigger] places@.contains(p) by {
            let e = (numbers@[p as int], p);
            assert(given[p as int] == e);
            assert(given.contains(e));
            assert(sorted@.contains(e));
            let at = choose|at: int| 0 <= at < sorted@.len() && sorted@[at] == e;
            assert(places@[at] == p);
        }
        assert forall|i: int, j: int| 0 <= i <= j < places@.len() implies not_after(
            (numbers@[places@[i] as int], places@[i]),
            (numbers@[places@[j] as int], places@[j]),
        ) by {
            assert(not_after(sorted@[i], sorted@[j]));
            assert(places@[j] == sorted@[j].1);
            assert(places@[i] == sorted@[i].1);
        }
    }
    places
}

/// Ranks the numbers: the places from the greatest number down.
pub fn rank(numbers: &Vec<i64>) -> (places: Vec<usize>)
    ensures
        is_ranking(numbers@, places@),
{
    let rising = rank_up(numbers);
    let n = rising.len();
    let mut places: Vec<usize> = Vec::new();
    let mut k: usize = 0;
    while k < n
        invariant
            0 <= k <= n,
            n == rising@.len(),
            places@.len() == k,
            forall|j: int| 0 <= j < k ==> #[trigger] places@[j] == rising@[n - 1 - j],
        decreases n - k,
    {
        places.push(rising[n - 1 - k]);
        k += 1;
    }
    proof {
        assert forall|j: int| 0 <= j < places@.len() implies #[trigger] places@[j]
            < numbers@.len() by {
            assert(rising@[n - 1 - j] < numbers@.len());
        }
        assert forall|p: usize| p < numbers@.len() implies #[trigger] places@.contains(p) by {
            assert(rising@.contains(p));
            let at = choose|at: int| 0 <= at < rising@.len() && rising@[at] == p;
            assert(places@[n - 1 - at] == p);
        }
        assert forall|i: int, j: int| 0 <= i <= j < places@.len() implies not_after(
            (numbers@[places@[j] as int], places@[j]),
            (numbers@[places@[i] as int], places@[i]),
        ) by {
            assert(places@[j] == rising@[n - 1 - j]);
            assert(places@[i] == rising@[n - 1 - i]);
        }
    }
    places
}

} // verus!
