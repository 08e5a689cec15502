//! Dense ranks for a sparse set of coordinates along one axis.
//!
//! Only the coordinates that matter are kept, in ascending order and each
//! once, so that a position can be stepped to the next one that matters
//! without walking the distance between them.

use crate::order::{sorted_pairs, Ranked};
use vstd::prelude::*;

verus! {

/// Ascending, with no value twice.
pub open spec fn strictly_ascending(s: Seq<i32>) -> bool {
    forall|i: int, j: int| 0 <= i < j < s.len() ==> s[i] < s[j]
}

/// Ascending, with repeats allowed.
pub open spec fn ascending(s: Seq<i32>) -> bool {
    forall|i: int, j: int| 0 <= i <= j < s.len() ==> s[i] <= s[j]
}

/// The values as pairs that all share the place 0, so that the order of
/// the pairs is the order of the values.
pub open spec fn as_pairs(values: Seq<i32>) -> Seq<Ranked> {
    Seq::new(values.len(), |i: int| (values[i] as i64, 0usize))
}

/// The values in ascending order, each as often as before.
fn sorted_values(values: Vec<i32>) -> (out: Vec<i32>)
    ensures
        out@.len() == values@.len(),
        forall|c: i32|
            #![trigger out@.contains(c)]
            #![trigger values@.contains(c)]
            out@.contains(c) <==> values@.contains(c),
        ascending(out@),
{
    let mut pairs: Vec<Ranked> = Vec::new();
    let mut i: usize = 0;
    while i < values.len()
        invariant
            0 <= i <= values.len(),
            pairs@ == as_pairs(values@).take(i as int),
        decreases values.len() - i,
    {
        pairs.push((values[i] as i64, 0));
        assert(pairs@ =~= as_pairs(values@).take(i + 1));
        i += 1;
    }
    assert(pairs@ =~= as_pairs(values@));
    let ghost given = pairs@;
    let sorted = sorted_pairs(pairs);
    proof {
        broadcast use vstd::seq_lib::to_multiset_contains;

        sorted@.to_multiset_ensures();
        given.to_multiset_ensures();
        assert forall|e: Ranked| sorted@.contains(e) <==> given.contains(e) by {
            assert(sorted@.to_multiset().count(e) == given.to_multiset().count(e));
        }
    }
    let mut out: Vec<i32> = Vec::new();
    let mut k: usize = 0;
    while k < sorted.len()
        invariant
            0 <= k <= sorted.len(),
            sorted@.len() == values@.len(),
            given == as_pairs(values@),
            forall|e: Ranked| sorted@.contains(e) <==> given.contains(e),
            out@.len() == k,
            forall|j: int| 0 <= j < k ==> #[trigger] sorted@[j] == (out@[j] as i64, 0usize),
        decreases sorted.len() - k,
    {
        let e = sorted[k];
        proof {
            assert(sorted@.contains(e));
            assert(given.contains(e));
            let at = choose|at: int| 0 <= at < given.len() && given[at] == e;
            assert(e == (values@[at] as i64, 0usize));
        }
        out.push(e.0 as i32);
        k += 1;
    }
    proof {
        assert forall|c: i32| out@.contains(c) <==> values@.contains(c) by {
            let e = (c as i64, 0usize);
            if out@.contains(c) {
                let j = choose|j: int| 0 <= j < out@.len() && out@[j] == c;
                assert(sorted@[j] == e);
                assert(sorted@.contains(e));
                assert(given.contains(e));
                let at = choose|at: int| 0 <= at < given.len() && given[at] == e;
                assert(values@[at] == c);
            }
            if values@.contains(c) {
                let at = choose|at: int| 0 <= at < values@.len() && values@[at] == c;
                assert(given[at] == e);
                assert(given.contains(e));
                assert(sorted@.contains(e));
                let j = choose|j: int| 0 <= j < sorted@.len() && sorted@[j] == e;
                assert(sorted@[j] == (out@[j] as i64, 0usize));
                assert(out@[j] == c);
            }
        }
        assert forall|i: int, j: int| 0 <= i <= j < out@.len() implies out@[i] <= out@[j] by {
            assert(crate::order::not_after(sorted@[i], sorted@[j]));
            assert(sorted@[i] == (out@[i] as i64, 0usize));
            assert(sorted@[j] == (out@[j] as i64, 0usize));
        }
    }
    out
}

/// `c` is one of `points` or lies directly beside one.
pub open spec fn beside_one_of(points: Seq<i32>, c: i32) -> bool {
    exists|k: int| 0 <= k < points.len() && -1 <= c - #[trigger] points[k] <= 1
}

/// The coordinates of one axis that matter, ranked in ascending order.
pub struct CoordinateCompressor {
    coords: Vec<i32>,
}

impl View for CoordinateCompressor {
    type V = Seq<i32>;

    closed spec fn view(&self) -> Seq<i32> {
        self.coords@
    }
}

impl CoordinateCompressor {
    /// The kept coordinates are in ascending order, each once.
    pub open spec fn wf(&self) -> bool {
        strictly_ascending(self@)
    }

    /// The rank of `c`, if it is kept.
    pub open spec fn rank(&self, c: i32) -> Option<int> {
        if self@.contains(c) {
            Some(self@.index_of(c))
        } else {
            None
        }
    }

    /// Keeps exactly the values of `raw`.
    pub fn new(raw: Vec<i32>) -> (made: CoordinateCompressor)
        ensures
            made.wf(),
            forall|c: i32|
                #![trigger made@.contains(c)]
                #![trigger raw@.contains(c)]
                made@.contains(c) <==> raw@.contains(c),
            made@.len() <= raw@.len(),
    {
        let sorted = sorted_values(raw);
        let mut coords: Vec<i32> = Vec::new();
        let mut i: usize = 0;
        while i < sorted.len()
            invariant
                0 <= i <= sorted.len(),
                ascending(sorted@),
                strictly_ascending(coords@),
                forall|c: i32|
                    #![trigger coords@.contains(c)]
                    #![trigger sorted@.subrange(0, i as int).contains(c)]
                    coords@.contains(c) <==> sorted@.subrange(0, i as int).contains(c),
                coords@.len() <= i,
                coords@.len() > 0 ==> i > 0 && coords@.last() == sorted@[i - 1],
                coords@.len() == 0 ==> i == 0,
            decreases sorted.len() - i,
        {
            let v = sorted[i];
            let ghost before = coords@;
            let ghost seen = sorted@.subrange(0, i as int);
            let ghost seen_next = sorted@.subrange(0, i + 1);
            let fresh = coords.len() == 0 || coords[coords.len() - 1] != v;
            if fresh {
                coords.push(v);
            }
            proof {
                assert(seen_next =~= seen.push(v));
                assert forall|c: i32| coords@.contains(c) <==> seen_next.contains(c) by {
                    if seen_next.contains(c) {
                        let k = choose|k: int| 0 <= k < seen_next.len() && seen_next[k] == c;
                        if k < i {
                            assert(seen[k] == c);
                            assert(seen.contains(c));
                            assert(before.contains(c));
                            let m = choose|m: int| 0 <= m < before.len() && before[m] == c;
                            assert(coords@[m] == c);
                        } else {
                            assert(c == v);
                            assert(coords@[coords@.len() - 1] == v);
                        }
                    }
                    if coords@.contains(c) {
                        let m = choose|m: int| 0 <= m < coords@.len() && coords@[m] == c;
                        if m < before.len() {
                            assert(before[m] == c);
                            assert(before.contains(c));
                            let k = choose|k: int| 0 <= k < seen.len() && seen[k] == c;
                            assert(seen_next[k] == c);
                        } else {
                            assert(seen_next[i as int] == c);
                        }
                    }
                }
                if fresh && before.len() > 0 {
                    assert(sorted@[i - 1] <= sorted@[i as int]);
                }
            }
            i += 1;
        }
        assert(sorted@.subrange(0, i as int) =~= sorted@);
        CoordinateCompressor { coords }
    }

    /// Keeps every value of `points` together with the value directly below
    /// and the value directly above it, as far as they exist.
    pub fn around(points: &Vec<i32>) -> (made: CoordinateCompressor)
        requires
            points@.len() * 3 <= usize::MAX,
        ensures
            made.wf(),
            forall|c: i32|
                #![trigger made@.contains(c)]
                #![trigger beside_one_of(points@, c)]
                made@.contains(c) <==> beside_one_of(points@, c),
            made@.len() <= 3 * points@.len(),
    {
        let mut raw: Vec<i32> = Vec::new();
        let mut i: usize = 0;
        while i < points.len()
            invariant
                0 <= i <= points.len(),
                raw@.len() <= 3 * i,
                forall|c: i32|
                    #![trigger raw@.contains(c)]
                    #![trigger beside_one_of(points@.subrange(0, i as int), c)]
                    raw@.contains(c) <==> beside_one_of(points@.subrange(0, i as int), c),
            decreases points.len() - i,
        {
            let p = points[i];
            let ghost before = raw@;
            let ghost seen = points@.subrange(0, i as int);
            let ghost seen_next = points@.subrange(0, i + 1);
            if p > i32::MIN {
                raw.push(p - 1);
            }
            raw.push(p);
            if p < i32::MAX {
                raw.push(p + 1);
            }
            proof {
                assert(seen_next =~= seen.push(p));
                assert forall|c: i32| raw@.contains(c) <==> beside_one_of(seen_next, c) by {
                    if raw@.contains(c) {
                        let m = choose|m: int| 0 <= m < raw@.len() && raw@[m] == c;
                        if m < before.len() {
                            assert(before[m] == c);
                            assert(before.contains(c));
                            let k = choose|k: int|
                                0 <= k < seen.len() && -1 <= c - #[trigger] seen[k] <= 1;
                            assert(seen_next[k] == seen[k]);
                        } else {
                            assert(seen_next[i as int] == p);
                        }
                    }
                    if beside_one_of(seen_next, c) {
                        let k = choose|k: int|
                            0 <= k < seen_next.len() && -1 <= c - #[trigger] seen_next[k] <= 1;
                        if k < i {
                            assert(seen[k] == seen_next[k]);
                            assert(beside_one_of(seen, c));
                            assert(before.contains(c));
                            let m = choose|m: int| 0 <= m < before.len() && before[m] == c;
                            assert(raw@[m] == c);
                        } else {
                            let base = before.len() as int;
                            if c == p - 1 {
                                assert(raw@[base] == c);
                            } else if c == p {
                                assert(raw@[if p > i32::MIN {
                                    base + 1
                                } else {
                                    base
                                }] == c);
                            } else {
                                assert(raw@[raw@.len() - 1] == c);
                            }
                        }
                    }
                }
            }
            i += 1;
        }
        assert(points@.subrange(0, i as int) =~= points@);
        CoordinateCompressor::new(raw)
    }

    /// How many coordinates are kept.
    pub fn len(&self) -> (n: usize)
        ensures
            n == self@.len(),
    {
        self.coords.len()
    }

    /// The rank of `c` among the kept coordinates, or `None` if it is not kept.
    pub fn rank_of(&self, c: i32) -> (found: Option<usize>)
        requires
            self.wf(),
        ensures
            match found {
                Some(r) => self.rank(c) == Some(r as int) && r < self@.len() && self@[r as int]
                    == c,
                None => self.rank(c).is_none(),
            },
    {
        let mut lo: usize = 0;
        let mut hi: usize = self.coords.len();
        while lo < hi
            invariant
                0 <= lo <= hi <= self.coords@.len(),
                self.wf(),
                forall|k: int| 0 <= k < lo ==> self.coords@[k] < c,
                forall|k: int| hi <= k < self.coords@.len() ==> self.coords@[k] > c,
            decreases hi - lo,
        {
            let mid = lo + (hi - lo) / 2;
            let v = self.coords[mid];
            if v == c {
                proof {
                    assert(self@.contains(c));
                    let k = self@.index_of(c);
                    if k < mid {
                        assert(self@[k] < self@[mid as int]);
                    }
                    if k > mid {
                        assert(self@[mid as int] < self@[k]);
                    }
                }
                return Some(mid);
            } else if v < c {
                lo = mid + 1;
            } else {
                hi = mid;
            }
        }
        proof {
            if self@.contains(c) {
                let k = choose|k: int| 0 <= k < self@.len() && self@[k] == c;
            }
        }
        None
    }

    /// The coordinate that has rank `rank`.
    pub fn coordinate_of(&self, rank: usize) -> (c: i32)
        requires
            rank < self@.len(),
        ensures
            c == self@[rank as int],
    {
        self.coords[rank]
    }

    /// The rank one step below (`forward` false) or above (`forward` true)
    /// `rank`, unless that leaves the kept coordinates.
    pub fn step(&self, rank: usize, forward: bool) -> (next: Option<usize>)
        ensures
            next == (if forward {
                if rank + 1 < self@.len() {
                    Some((rank + 1) as usize)
                } else {
                    None
                }
            } else {
                if 0 < rank <= self@.len() {
                    Some((rank - 1) as usize)
                } else {
                    None
                }
            }),
    {
        if forward {
            if rank < self.coords.len() && rank + 1 < self.coords.len() {
                Some(rank + 1)
            } else {
                None
            }
        } else {
            if 0 < rank && rank <= self.coords.len() {
                Some(rank - 1)
            } else {
                None
            }
        }
    }

    /// A kept coordinate is found again at its own rank: going from a
    /// coordinate to its rank, back to the coordinate and to the rank again
    /// ends at the first rank.
    pub proof fn lemma_round_trip(&self, c: i32)
        requires
            self.wf(),
            self@.contains(c),
        ensures
            self.rank(c) is Some,
            0 <= self.rank(c).unwrap() < self@.len(),
            self@[self.rank(c).unwrap()] == c,
            self.rank(self@[self.rank(c).unwrap()]) == self.rank(c),
    {
    }

    /// The coordinate at a rank has that rank.
    pub proof fn lemma_rank_of_coordinate(&self, r: int)
        requires
            self.wf(),
            0 <= r < self@.len(),
        ensures
            self.rank(self@[r]) == Some(r),
    {
        let c = self@[r];
        assert(self@.contains(c));
        let k = self@.index_of(c);
        if k < r {
            assert(self@[k] < self@[r]);
        }
        if k > r {
            assert(self@[r] < self@[k]);
        }
    }

    /// Ranks keep the order of the coordinates.
    pub proof fn lemma_rank_monotone(&self, a: int, b: int)
        requires
            self.wf(),
            0 <= a < self@.len(),
            0 <= b < self@.len(),
        ensures
            a < b <==> self@[a] < self@[b],
    {
        if b < a {
            assert(self@[b] < self@[a]);
        }
    }
}

} // verus!
