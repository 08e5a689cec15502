//! Fishbone swords: numbers hung on a spine of segments, each segment with
//! room for one smaller number on its left and one greater on its right.

use crate::digits::{join_signed, join_signed_value};
use crate::die::{faces_of, read_faces};
use crate::text::{chars_of, parse_word, split_once, split_once_at, trim, trimmed, word};
use itertools::Itertools;
use vstd::prelude::*;

verus! {

/// One segment of the spine.
#[derive(Clone, Copy, Debug, PartialEq, Eq, Structural)]
pub struct Segment {
    pub left: Option<i32>,
    pub value: i32,
    pub right: Option<i32>,
}

impl Segment {
    /// The segment has a free side that `v` belongs on.
    pub open spec fn accepts(&self, v: i32) -> bool {
        (v < self.value && self.left.is_none()) || (v > self.value && self.right.is_none())
    }

    /// The segment after `v` was offered to it.
    pub open spec fn offered(&self, v: i32) -> Segment {
        if v < self.value && self.left.is_none() {
            Segment { left: Some(v), value: self.value, right: self.right }
        } else if v > self.value && self.right.is_none() {
            Segment { left: self.left, value: self.value, right: Some(v) }
        } else {
            *self
        }
    }

    /// The numbers of the segment from left to right.
    pub open spec fn parts(&self) -> Seq<i64> {
        (match self.left {
            Some(l) => seq![l as i64],
            None => Seq::empty(),
        }) + seq![self.value as i64] + (match self.right {
            Some(r) => seq![r as i64],
            None => Seq::empty(),
        })
    }

    /// A segment with both sides free.
    pub fn new(value: i32) -> (made: Segment)
        ensures
            made == (Segment { left: None, value, right: None }),
    {
        Segment { left: None, value, right: None }
    }

    /// Hangs `v` on the free side it belongs on and says whether it did.
    pub fn insert(&mut self, v: i32) -> (taken: bool)
        ensures
            taken == old(self).accepts(v),
            *final(self) == old(self).offered(v),
    {
        if v < self.value && self.left.is_none() {
            self.left = Some(v);
            return true;
        }
        if v > self.value && self.right.is_none() {
            self.right = Some(v);
            return true;
        }
        false
    }

    /// The number read across the segment, left to right; `None` when the
    /// digits do not spell a number that fits in 64 bits.
    pub fn score(&self) -> (read: Option<i64>)
        ensures
            match read {
                Some(v) => join_signed_value(self.parts()) == Some(v as int),
                None => join_signed_value(self.parts()).is_none(),
            },
    {
        let mut out: Vec<i64> = Vec::new();
        match self.left {
            Some(ll) => {
                out.push(ll as i64);
            },
            None => {},
        }
        out.push(self.value as i64);
        match self.right {
            Some(rr) => {
                out.push(rr as i64);
            },
            None => {},
        }
        assert(out@ =~= self.parts());
        join_signed(&out)
    }
}

/// A sword: its number and its spine.
pub struct Sword {
    pub id: usize,
    pub fishbone: Vec<Segment>,
}

/// Segment `k` is the first of the spine that accepts `v`.
pub open spec fn first_accepting(spine: Seq<Segment>, v: i32, k: int) -> bool {
    &&& 0 <= k < spine.len()
    &&& spine[k].accepts(v)
    &&& forall|j: int| 0 <= j < k ==> !(#[trigger] spine[j]).accepts(v)
}

/// No segment of the spine accepts `v`.
pub open spec fn none_accepting(spine: Seq<Segment>, v: i32) -> bool {
    forall|j: int| 0 <= j < spine.len() ==> !(#[trigger] spine[j]).accepts(v)
}

/// The spine after `v` was hung on it: on the first segment that accepts
/// it, or on a new segment at the end.
pub open spec fn spine_with(spine: Seq<Segment>, v: i32) -> Seq<Segment>
    decreases spine.len(),
{
    if spine.len() == 0 {
        seq![Segment { left: None, value: v, right: None }]
    } else if spine[0].accepts(v) {
        spine.update(0, spine[0].offered(v))
    } else {
        seq![spine[0]] + spine_with(spine.drop_first(), v)
    }
}

/// The spine after all of `values` were hung on it in turn.
pub open spec fn spine_of(values: Seq<i32>) -> Seq<Segment>
    decreases values.len(),
{
    if values.len() == 0 {
        Seq::empty()
    } else {
        spine_with(spine_of(values.drop_last()), values.last())
    }
}

/// Hanging on the first accepting segment is what `spine_with` does.
pub proof fn lemma_spine_with_first(spine: Seq<Segment>, v: i32, k: int)
    requires
        first_accepting(spine, v, k),
    ensures
        spine_with(spine, v) == spine.update(k, spine[k].offered(v)),
    decreases spine.len(),
{
    if k > 0 {
        let rest = spine.drop_first();
        assert(!spine[0].accepts(v));
        assert forall|j: int| 0 <= j < k - 1 implies !(#[trigger] rest[j]).accepts(v) by {
            assert(rest[j] == spine[j + 1]);
        }
        lemma_spine_with_first(rest, v, k - 1);
        assert(spine_with(spine, v) =~= spine.update(k, spine[k].offered(v)));
    }
}

/// With no accepting segment, `spine_with` adds a segment at the end.
pub proof fn lemma_spine_with_none(spine: Seq<Segment>, v: i32)
    requires
        none_accepting(spine, v),
    ensures
        spine_with(spine, v) == spine.push(Segment { left: None, value: v, right: None }),
    decreases spine.len(),
{
    if spine.len() > 0 {
        let rest = spine.drop_first();
        assert(!spine[0].accepts(v));
        assert forall|j: int| 0 <= j < rest.len() implies !(#[trigger] rest[j]).accepts(v) by {
            assert(rest[j] == spine[j + 1]);
        }
        lemma_spine_with_none(rest, v);
        assert(spine_with(spine, v) =~= spine.push(Segment { left: None, value: v, right: None }));
    } else {
        assert(spine_with(spine, v) =~= spine.push(Segment { left: None, value: v, right: None }));
    }
}

impl Sword {
    /// The values along the spine.
    pub open spec fn spine_values(&self) -> Seq<i64> {
        Seq::new(self.fishbone@.len(), |k: int| self.fishbone@[k].value as i64)
    }

    /// Hangs `v` on the first segment that accepts it, or on a new segment
    /// at the end of the spine.
    pub fn insert(&mut self, v: i32)
        ensures
            final(self).id == old(self).id,
            final(self).fishbone@ == spine_with(old(self).fishbone@, v),
    {
        let mut k: usize = 0;
        while k < self.fishbone.len()
            invariant
                0 <= k <= self.fishbone.len(),
                *self == *old(self),
                forall|j: int| 0 <= j < k ==> !(#[trigger] self.fishbone@[j]).accepts(v),
            decreases self.fishbone.len() - k,
        {
            let mut segment = self.fishbone[k];
            if segment.insert(v) {
                proof {
                    lemma_spine_with_first(self.fishbone@, v, k as int);
                }
                self.fishbone.set(k, segment);
                return;
            }
            k += 1;
        }
        proof {
            lemma_spine_with_none(self.fishbone@, v);
        }
        self.fishbone.push(Segment::new(v));
    }

    /// The sword with number `id` whose spine carries `values`, hung in turn.
    pub fn forge(id: usize, values: &Vec<i32>) -> (sword: Sword)
        ensures
            sword.id == id,
            sword.fishbone@ == spine_of(values@),
    {
        let mut sword = Sword { id, fishbone: Vec::new() };
        let mut i: usize = 0;
        while i < values.len()
            invariant
                0 <= i <= values.len(),
                sword.id == id,
                sword.fishbone@ == spine_of(values@.take(i as int)),
            decreases values.len() - i,
        {
            proof {
                let next = values@.take(i + 1);
                assert(next.drop_last() =~= values@.take(i as int));
                assert(next.last() == values@[i as int]);
            }
            sword.insert(values[i]);
            i += 1;
        }
        assert(values@.take(i as int) =~= values@);
        sword
    }

    /// The number read down the spine; `None` when the digits do not spell
    /// a number that fits in 64 bits.
    pub fn read_spine(&self) -> (read: Option<i64>)
        ensures
            match read {
                Some(v) => join_signed_value(self.spine_values()) == Some(v as int),
                None => join_signed_value(self.spine_values()).is_none(),
            },
    {
        let mut values: Vec<i64> = Vec::new();
        let mut k: usize = 0;
        while k < self.fishbone.len()
            invariant
                0 <= k <= self.fishbone.len(),
                values@.len() == k,
                forall|j: int| 0 <= j < k ==> values@[j] == self.fishbone@[j].value as i64,
            decreases self.fishbone.len() - k,
        {
            values.push(self.fishbone[k].value as i64);
            k += 1;
        }
        assert(values@ =~= self.spine_values());
        join_signed(&values)
    }

    /// What swords are ordered by: the number down the spine, then the
    /// numbers across the segments from the top, then the sword's number.
    /// `None` when one of the numbers cannot be read.
    pub fn sort_key(&self) -> (key: Option<(i64, Vec<i64>, usize)>)
        ensures
            match key {
                Some((quality, scores, id)) => {
                    &&& join_signed_value(self.spine_values()) == Some(quality as int)
                    &&& id == self.id
                    &&& scores@.len() == self.fishbone@.len()
                    &&& forall|j: int|
                        0 <= j < scores@.len() ==> join_signed_value(
                            (#[trigger] self.fishbone@[j]).parts(),
                        ) == Some(scores@[j] as int)
                },
                None => join_signed_value(self.spine_values()).is_none() || exists|j: int|
                    0 <= j < self.fishbone@.len() && join_signed_value(
                        (#[trigger] self.fishbone@[j]).parts(),
                    ).is_none(),
            },
    {
        let quality = match self.read_spine() {
            Some(q) => q,
            None => {
                return None;
            },
        };
        let mut scores: Vec<i64> = Vec::new();
        let mut k: usize = 0;
        while k < self.fishbone.len()
            invariant
                0 <= k <= self.fishbone.len(),
                scores@.len() == k,
                forall|j: int|
                    0 <= j < k ==> join_signed_value((#[trigger] self.fishbone@[j]).parts())
                        == Some(scores@[j] as int),
            decreases self.fishbone.len() - k,
        {
            match self.fishbone[k].score() {
                Some(s) => {
                    scores.push(s);
                },
                None => {
                    return None;
                },
            }
            k += 1;
        }
        Some((quality, scores, self.id))
    }
}

/// What a text such as `7:5,3,8` spells: the number of a sword and the
/// values to hang on its spine.
pub open spec fn sword_of(text: Seq<char>) -> Option<(usize, Seq<i32>)> {
    match split_once(trim(text), ':') {
        Some((id, values)) => match (word(id), faces_of(values)) {
            (Some(i), Some(v)) => Some((i, v)),
            _ => None,
        },
        None => None,
    }
}

impl Sword {
    /// Reads a sword from a text such as `7:5,3,8` and hangs the values on
    /// its spine in turn. The text has to spell a sword; `read` tells
    /// whether it does.
    pub fn new(input: &str) -> (sword: Sword)
        requires
            sword_of(input@) is Some,
        ensures
            sword.id == sword_of(input@).unwrap().0,
            sword.fishbone@ == spine_of(sword_of(input@).unwrap().1),
    {
        Sword::read(input).unwrap()
    }

    /// Reads a sword from a text such as `7:5,3,8` and hangs the values on
    /// its spine in turn.
    pub fn read(input: &str) -> (sword: Option<Sword>)
        ensures
            match sword {
                Some(s) => sword_of(input@) is Some && s.id == sword_of(input@).unwrap().0
                    && s.fishbone@ == spine_of(sword_of(input@).unwrap().1),
                None => sword_of(input@).is_none(),
            },
    {
        let chars = chars_of(input);
        let body = trimmed(&chars);
        match split_once_at(&body, ':') {
            Some((id, values)) => match (parse_word(&id), read_faces(&values)) {
                (Some(i), Some(v)) => Some(Sword::forge(i, &v)),
                _ => None,
            },
            None => None,
        }
    }
}

/// The greatest and the smallest quality among the first `upto`
/// swords; `None` when there is no sword or a quality cannot be read.
pub open spec fn extremes(swords: Seq<Sword>, upto: nat) -> Option<(int, int)>
    decreases upto,
{
    if upto == 0 {
        None
    } else {
        match join_signed_value(swords[upto - 1].spine_values()) {
            None => None,
            Some(q) => if upto == 1 {
                Some((q, q))
            } else {
                match extremes(swords, (upto - 1) as nat) {
                    None => None,
                    Some((hi, lo)) => Some(
                        (
                            if q > hi {
                                q
                            } else {
                                hi
                            },
                            if q < lo {
                                q
                            } else {
                                lo
                            },
                        ),
                    ),
                }
            },
        }
    }
}

/// The quality of the best sword less that of the worst, if both can be
/// told and the difference fits in 64 bits.
pub open spec fn spread_of(swords: Seq<Sword>) -> Option<i64> {
    match extremes(swords, swords.len()) {
        Some((hi, lo)) => if hi - lo <= i64::MAX {
            Some((hi - lo) as i64)
        } else {
            None
        },
        None => None,
    }
}

/// Swords whose extremes cannot be told up to some sword cannot be told
/// them further on.
pub proof fn lemma_extremes_stay_none(swords: Seq<Sword>, from: nat, upto: nat)
    requires
        1 <= from <= upto,
        extremes(swords, from).is_none(),
    ensures
        extremes(swords, upto).is_none(),
    decreases upto,
{
    if from < upto {
        lemma_extremes_stay_none(swords, from, (upto - 1) as nat);
    }
}

/// The quality of the best sword less that of the worst; `None` when
/// there is no sword, when a quality cannot be read, or when the
/// difference does not fit in 64 bits.
pub fn quality_spread(swords: &Vec<Sword>) -> (spread: Option<i64>)
    ensures
        spread == spread_of(swords@),
{
    if swords.len() == 0 {
        return None;
    }
    let first = match swords[0].read_spine() {
        Some(q) => q,
        None => {
            proof {
                lemma_extremes_stay_none(swords@, 1, swords@.len());
            }
            return None;
        },
    };
    let mut min = first;
    let mut max = first;
    let mut k: usize = 1;
    while k < swords.len()
        invariant
            1 <= k <= swords.len(),
            extremes(swords@, k as nat) == Some((max as int, min as int)),
            min <= max,
        decreases swords.len() - k,
    {
        let q = match swords[k].read_spine() {
            Some(q) => q,
            None => {
                proof {
                    lemma_extremes_stay_none(swords@, (k + 1) as nat, swords@.len());
                }
                return None;
            },
        };
        if q < min {
            min = q;
        }
        if q > max {
            max = q;
        }
        k += 1;
    }
    max.checked_sub(min)
}

/// What a sword is ordered by, as numbers: the number down its spine,
/// the numbers across its segments, and the sword's number.
pub type Key = (i64, Seq<i64>, usize);

/// The numbers across the segments of a sword, if each can be read.
pub open spec fn scores_of(sword: Sword) -> Option<Seq<i64>> {
    if forall|j: int|
        0 <= j < sword.fishbone@.len() ==> join_signed_value(
            (#[trigger] sword.fishbone@[j]).parts(),
        ) is Some {
        Some(
            Seq::new(
                sword.fishbone@.len(),
                |j: int| join_signed_value(sword.fishbone@[j].parts()).unwrap() as i64,
            ),
        )
    } else {
        None
    }
}

/// What the sword is ordered by, if its numbers can be read.
pub open spec fn key_of(sword: Sword) -> Option<Key> {
    match (join_signed_value(sword.spine_values()), scores_of(sword)) {
        (Some(quality), Some(scores)) => Some((quality as i64, scores, sword.id)),
        _ => None,
    }
}

/// The first list of numbers comes before the second: it is smaller
/// at the first place where they differ, or it ends there.
pub open spec fn scores_before(a: Seq<i64>, b: Seq<i64>) -> bool
    decreases a.len(),
{
    if b.len() == 0 {
        false
    } else if a.len() == 0 {
        true
    } else if a[0] != b[0] {
        a[0] < b[0]
    } else {
        scores_before(a.drop_first(), b.drop_first())
    }
}

/// The first key comes before the second: by the number down the
/// spine, then by the numbers across, then by the sword's number.
pub open spec fn key_before(a: Key, b: Key) -> bool {
    a.0 < b.0 || (a.0 == b.0 && (scores_before(a.1, b.1) || (a.1 == b.1 && a.2 < b.2)))
}

/// The first sword does not come after the second: a sword whose
/// numbers cannot be read comes first.
pub open spec fn not_after(a: Sword, b: Sword) -> bool {
    match (key_of(a), key_of(b)) {
        (None, _) => true,
        (Some(_), None) => false,
        (Some(x), Some(y)) => x == y || key_before(x, y),
    }
}

/// The swords stand from the least to the greatest.
pub open spec fn ascending(swords: Seq<Sword>) -> bool {
    forall|i: int, j: int| 0 <= i <= j < swords.len() ==> not_after(swords[i], swords[j])
}

/// `Itertools::sorted_by_key` on swords, with `Sword::sort_key` as the
/// key: the same swords, each as often as before, from the least key to
/// the greatest. Keys are ordered as std orders options, tuples and
/// vectors: a missing key first, then by the first part, the second and
/// the third, a vector by its first differing number or its length.
#[verifier::external_body]
fn sorted_by_sort_key(swords: Vec<Sword>) -> (out: Vec<Sword>)
    ensures
        out@.to_multiset() == swords@.to_multiset(),
        ascending(out@),
{
    swords.into_iter().sorted_by_key(|sword| sword.sort_key()).collect()
}

/// The numbers of the first `upto` swords, each times its place counted
/// from the end of the list, the last sword having place 1, summed.
pub open spec fn weighted(swords: Seq<Sword>, upto: nat) -> int
    decreases upto,
{
    if upto == 0 {
        0
    } else {
        weighted(swords, (upto - 1) as nat) + (swords.len() - (upto - 1)) * swords[upto - 1].id
    }
}

/// The weighted sum is not negative.
pub proof fn lemma_weighted_positive(swords: Seq<Sword>, a: nat)
    requires
        a <= swords.len(),
    ensures
        0 <= weighted(swords, a),
    decreases a,
{
    if a > 0 {
        lemma_weighted_positive(swords, (a - 1) as nat);
        assert((swords.len() - (a - 1)) * swords[a - 1].id >= 0) by (nonlinear_arith)
            requires
                swords.len() - (a - 1) >= 0,
                swords[a - 1].id >= 0,
        ;
    }
}

/// The weighted sum grows with the swords counted.
pub proof fn lemma_weighted_grows(swords: Seq<Sword>, a: nat, b: nat)
    requires
        a <= b <= swords.len(),
    ensures
        weighted(swords, a) <= weighted(swords, b),
    decreases b,
{
    if a < b {
        lemma_weighted_grows(swords, a, (b - 1) as nat);
        assert((swords.len() - (b - 1)) * swords[b - 1].id >= 0) by (nonlinear_arith)
            requires
                swords.len() - (b - 1) >= 0,
                swords[b - 1].id >= 0,
        ;
    }
}

/// The numbers of every sword can be read.
pub open spec fn all_keyed(swords: Seq<Sword>) -> bool {
    forall|k: int| 0 <= k < swords.len() ==> key_of(#[trigger] swords[k]) is Some
}

impl Sword {
    /// Whether the numbers of the sword can be read.
    pub fn keyed(&self) -> (yes: bool)
        ensures
            yes == (key_of(*self) is Some),
    {
        match self.sort_key() {
            Some((quality, scores, id)) => {
                proof {
                    assert forall|j: int| 0 <= j < self.fishbone@.len() implies join_signed_value(
                        (#[trigger] self.fishbone@[j]).parts(),
                    ) is Some by {
                        assert(join_signed_value(self.fishbone@[j].parts()) == Some(
                            scores@[j] as int,
                        ));
                    }
                }
                true
            },
            None => false,
        }
    }
}

/// The checksum of the swords: they are ordered from the greatest key
/// to the least, and the number of each is taken times its place, the
/// first place being 1. `None` when the numbers of a sword cannot be
/// read or the sum leaves the machine word.
pub fn checksum(swords: Vec<Sword>) -> (sum: Option<usize>)
    ensures
        exists|order: Seq<Sword>|
            #![trigger ascending(order)]
            order.to_multiset() == swords@.to_multiset() && ascending(order) && sum == (
            if all_keyed(order) && weighted(order, order.len()) <= usize::MAX {
                Some(weighted(order, order.len()) as usize)
            } else {
                None
            }),
{
    let ghost given = swords@;
    let order = sorted_by_sort_key(swords);
    let n = order.len();
    let mut sum: usize = 0;
    let mut k: usize = 0;
    while k < n
        invariant
            0 <= k <= n,
            n == order@.len(),
            given == swords@,
            order@.to_multiset() == given.to_multiset(),
            ascending(order@),
            sum == weighted(order@, k as nat),
            forall|j: int| 0 <= j < k ==> key_of(#[trigger] order@[j]) is Some,
        decreases n - k,
    {
        if !order[k].keyed() {
            assert(!all_keyed(order@));
            return None;
        }
        let term = match (n - k).checked_mul(order[k].id) {
            Some(t) => t,
            None => {
                proof {
                    lemma_weighted_positive(order@, k as nat);
                    lemma_weighted_grows(order@, (k + 1) as nat, n as nat);
                }
                return None;
            },
        };
        sum = match sum.checked_add(term) {
            Some(s) => s,
            None => {
                proof {
                    lemma_weighted_grows(order@, (k + 1) as nat, n as nat);
                }
                return None;
            },
        };
        k += 1;
    }
    assert(all_keyed(order@));
    Some(sum)
}

} // verus!
