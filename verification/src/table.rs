//! A transposition table: results remembered under the canonical form of
//! the state they belong to.
//!
//! A state is a sequence of numbers. The table sorts its entries into
//! buckets by a fingerprint of the state and compares whole states inside a
//! bucket, so two states that share a fingerprint are still kept apart.

use std::collections::HashMap;
use vstd::prelude::*;

verus! {

broadcast use vstd::std_specs::hash::group_hash_axioms;

/// The modulus that keeps a fingerprint small.
pub const FINGERPRINT_MODULUS: u64 = 1_000_003;

/// The fingerprint of a state: a number that equal states share.
pub open spec fn fingerprint(state: Seq<i64>) -> u64
    decreases state.len(),
{
    if state.len() == 0 {
        0
    } else {
        ((fingerprint(state.drop_last()) % FINGERPRINT_MODULUS) * 31 + (state.last() as u64)
            % FINGERPRINT_MODULUS) as u64
    }
}

/// Computes the fingerprint of `state`.
pub fn fingerprint_of(state: &Vec<i64>) -> (h: u64)
    ensures
        h == fingerprint(state@),
{
    let mut h: u64 = 0;
    let mut i: usize = 0;
    while i < state.len()
        invariant
            0 <= i <= state.len(),
            h == fingerprint(state@.subrange(0, i as int)),
        decreases state.len() - i,
    {
        let x = state[i];
        let low: u64 = #[verifier::truncate]
        (x as u64);
        proof {
            let next = state@.subrange(0, i + 1);
            assert(next.drop_last() =~= state@.subrange(0, i as int));
            assert(next.last() == x);
        }
        h = (h % FINGERPRINT_MODULUS) * 31 + low % FINGERPRINT_MODULUS;
        i += 1;
    }
    assert(state@.subrange(0, i as int) =~= state@);
    h
}

/// Whether two states are the same sequence of numbers.
pub fn same_state(a: &Vec<i64>, b: &Vec<i64>) -> (same: bool)
    ensures
        same == (a@ == b@),
{
    if a.len() != b.len() {
        return false;
    }
    let mut i: usize = 0;
    while i < a.len()
        invariant
            0 <= i <= a.len(),
            a@.len() == b@.len(),
            forall|j: int| 0 <= j < i ==> a@[j] == b@[j],
        decreases a.len() - i,
    {
        if a[i] != b[i] {
            return false;
        }
        i += 1;
    }
    assert(a@ =~= b@);
    true
}

/// A remembered state with its result.
pub type Slot = (Vec<i64>, u64);

/// Some slot of the bucket is for `state`.
pub open spec fn in_bucket(bucket: Seq<Slot>, state: Seq<i64>) -> bool {
    exists|j: int| 0 <= j < bucket.len() && (#[trigger] bucket[j]).0@ == state
}

/// Results remembered by state.
pub struct TranspositionTable {
    buckets: HashMap<u64, Vec<Slot>>,
    model: Ghost<Map<Seq<i64>, u64>>,
}

impl View for TranspositionTable {
    type V = Map<Seq<i64>, u64>;

    closed spec fn view(&self) -> Map<Seq<i64>, u64> {
        self.model@
    }
}

impl TranspositionTable {
    /// The buckets hold exactly what the table remembers.
    pub closed spec fn wf(&self) -> bool {
        &&& self.model@.dom().finite()
        &&& forall|h: u64, j: int|
            self.buckets@.contains_key(h) && 0 <= j < self.buckets@[h]@.len() ==> {
                let slot = #[trigger] self.buckets@[h]@[j];
                self.model@.contains_pair(slot.0@, slot.1) && fingerprint(slot.0@) == h
            }
        &&& forall|state: Seq<i64>| #[trigger]
            self.model@.contains_key(state) ==> self.buckets@.contains_key(fingerprint(state))
                && in_bucket(self.buckets@[fingerprint(state)]@, state)
    }

    /// A table that remembers nothing.
    pub fn new() -> (table: TranspositionTable)
        ensures
            table.wf(),
            table@ == Map::<Seq<i64>, u64>::empty(),
    {
        TranspositionTable { buckets: HashMap::new(), model: Ghost(Map::empty()) }
    }

    /// The result remembered for `state`, if there is one.
    pub fn get(&self, state: &Vec<i64>) -> (found: Option<u64>)
        requires
            self.wf(),
        ensures
            found == (if self@.contains_key(state@) {
                Some(self@[state@])
            } else {
                None
            }),
    {
        let h = fingerprint_of(state);
        match self.buckets.get(&h) {
            None => None,
            Some(bucket) => {
                let mut j: usize = 0;
                while j < bucket.len()
                    invariant
                        0 <= j <= bucket.len(),
                        self.wf(),
                        h == fingerprint(state@),
                        self.buckets@.contains_key(h),
                        self.buckets@[h] == *bucket,
                        forall|k: int| 0 <= k < j ==> (#[trigger] bucket@[k]).0@ != state@,
                    decreases bucket.len() - j,
                {
                    if same_state(&bucket[j].0, state) {
                        assert(self.buckets@[h]@[j as int] == bucket@[j as int]);
                        return Some(bucket[j].1);
                    }
                    j += 1;
                }
                None
            },
        }
    }

    /// Remembers `value` for `state`, for which nothing is remembered yet.
    pub fn insert(&mut self, state: Vec<i64>, value: u64)
        requires
            old(self).wf(),
            !old(self)@.contains_key(state@),
        ensures
            final(self).wf(),
            final(self)@ == old(self)@.insert(state@, value),
    {
        let h = fingerprint_of(&state);
        let ghost key = state@;
        let ghost buckets0 = self.buckets@;
        let ghost model0 = self.model@;
        let mut bucket: Vec<Slot> = match self.buckets.remove(&h) {
            Some(b) => b,
            None => Vec::new(),
        };
        let ghost bucket0 = bucket@;
        bucket.push((state, value));
        self.buckets.insert(h, bucket);
        self.model = Ghost(self.model@.insert(key, value));
        proof {
            let buckets1 = self.buckets@;
            let model1 = self.model@;
            assert forall|g: u64, j: int|
                buckets1.contains_key(g) && 0 <= j < buckets1[g]@.len() implies {
                let slot = #[trigger] buckets1[g]@[j];
                model1.contains_pair(slot.0@, slot.1) && fingerprint(slot.0@) == g
            } by {
                if g == h {
                    if j < bucket0.len() {
                        assert(buckets0.contains_key(h));
                        assert(buckets1[g]@[j] == buckets0[h]@[j]);
                    }
                } else {
                    assert(buckets0.contains_key(g));
                    assert(buckets1[g]@[j] == buckets0[g]@[j]);
                }
            }
            assert forall|s: Seq<i64>| #[trigger] model1.contains_key(s) implies buckets1.contains_key(
                fingerprint(s),
            ) && in_bucket(buckets1[fingerprint(s)]@, s) by {
                if s == key {
                    assert(buckets1[h]@[bucket0.len() as int].0@ == key);
                } else {
                    assert(model0.contains_key(s));
                    let g = fingerprint(s);
                    let j = choose|j: int|
                        0 <= j < buckets0[g]@.len() && (#[trigger] buckets0[g]@[j]).0@ == s;
                    if g == h {
                        assert(buckets1[g]@[j] == buckets0[g]@[j]);
                    } else {
                        assert(buckets1[g]@[j] == buckets0[g]@[j]);
                    }
                }
            }
        }
    }
}

} // verus!
