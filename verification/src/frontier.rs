//! The worklist of a search: states waiting to be expanded, cheapest first.
//!
//! Two frontiers are offered. `KeyedFrontier` keeps one entry per state and
//! lowers its priority in place. `LazyFrontier` keeps every offer and leaves it
//! to the reader to drop the ones that have gone stale.

use core::cmp::Reverse;
use priority_queue::PriorityQueue;
use vstd::prelude::*;

verus! {

/// A waiting state and the priority it waits at.
pub type Entry = (u64, u64);

/// Some entry for `state` already waits at `priority` or better.
pub open spec fn has_no_worse(entries: Set<Entry>, state: u64, priority: u64) -> bool {
    exists|p: u64| p <= priority && #[trigger] entries.contains((state, p))
}

/// A priority worklist that hands out its cheapest entry first.
pub trait Frontier: Sized {
    /// The entries that wait.
    spec fn entries(&self) -> Set<Entry>;

    /// A measure that every `pop_min` lowers.
    spec fn size(&self) -> nat;

    /// The frontier's own invariant.
    spec fn wf(&self) -> bool;

    /// Offers `state` at `priority`. Afterwards that entry waits, unless one
    /// for the same state at that priority or better waited already. Only
    /// entries of `state` that are strictly worse may be dropped.
    fn decrease(&mut self, state: u64, priority: u64)
        requires
            old(self).wf(),
        ensures
            final(self).wf(),
            final(self).size() <= old(self).size() + 1,
            final(self).entries().subset_of(old(self).entries().insert((state, priority))),
            final(self).entries().contains((state, priority)) || has_no_worse(
                old(self).entries(),
                state,
                priority,
            ),
            forall|e: Entry| #[trigger]
                old(self).entries().contains(e) && !final(self).entries().contains(e) ==> e.0
                    == state && priority < e.1,
    ;

    /// Takes out an entry of least priority, or reports that none waits.
    fn pop_min(&mut self) -> (popped: Option<Entry>)
        requires
            old(self).wf(),
        ensures
            final(self).wf(),
            match popped {
                Some(e) => {
                    &&& old(self).entries().contains(e)
                    &&& forall|o: Entry| #[trigger] old(self).entries().contains(o) ==> e.1 <= o.1
                    &&& final(self).entries() == old(self).entries().remove(e)
                    &&& final(self).size() < old(self).size()
                },
                None => {
                    &&& old(self).entries() == Set::<Entry>::empty()
                    &&& final(self).entries() == old(self).entries()
                    &&& final(self).size() == old(self).size()
                },
            },
    ;
}

/// `priority_queue::PriorityQueue`, carried as a value that nothing is
/// known of but what the functions below state.
#[verifier::external_type_specification]
#[verifier::external_body]
#[verifier::reject_recursive_types(I)]
#[verifier::reject_recursive_types(P)]
#[verifier::reject_recursive_types(H)]
pub struct ExPriorityQueue<I, P, H>(PriorityQueue<I, P, H>);

/// `std::cmp::Reverse`, which turns the order of what it holds.
#[verifier::external_type_specification]
#[verifier::external_body]
#[verifier::reject_recursive_types(T)]
pub struct ExReverse<T>(Reverse<T>);

/// The outside queue as this library uses it: states ranked by a number,
/// smallest first.
pub type RankQueue = PriorityQueue<u64, Reverse<u64>>;

/// The items of a queue, each with the number it is ranked by. The queue
/// ranks by `Reverse`, so the smallest number leaves first.
pub uninterp spec fn queue_ranks(queue: PriorityQueue<u64, Reverse<u64>>) -> Map<u64, u64>;

/// The rank table of a queue that holds nothing.
pub open spec fn no_ranks() -> Map<u64, u64> {
    Map::empty()
}

/// `PriorityQueue::with_capacity`: a queue that holds nothing, with room
/// set aside for `capacity` items.
#[verifier::external_body]
fn queue_with_capacity(capacity: usize) -> (fresh: RankQueue)
    ensures
        queue_ranks(fresh) == no_ranks(),
{
    PriorityQueue::with_capacity(capacity)
}

/// `PriorityQueue::get_priority`: the number an item is ranked by, if it is queued.
#[verifier::external_body]
fn queue_rank_of(queue: &PriorityQueue<u64, Reverse<u64>>, item: u64) -> (rank: Option<u64>)
    ensures
        rank == (if queue_ranks(*queue).contains_key(item) {
            Some(queue_ranks(*queue)[item])
        } else {
            None
        }),
{
    queue.get_priority(&item).map(|r| r.0)
}

/// `PriorityQueue::push`: the item is queued at the given rank, replacing the
/// rank it had; the rank it had is returned.
#[verifier::external_body]
fn queue_push(queue: &mut PriorityQueue<u64, Reverse<u64>>, item: u64, rank: u64) -> (before:
    Option<u64>)
    ensures
        queue_ranks(*final(queue)) == queue_ranks(*old(queue)).insert(item, rank),
        before == (if queue_ranks(*old(queue)).contains_key(item) {
            Some(queue_ranks(*old(queue))[item])
        } else {
            None
        }),
{
    queue.push(item, Reverse(rank)).map(|r| r.0)
}

/// `PriorityQueue::change_priority`: an item that is queued gets the given
/// rank and its earlier rank is returned; a queue without the item stays as it is.
#[verifier::external_body]
fn queue_change_priority(queue: &mut PriorityQueue<u64, Reverse<u64>>, item: u64, rank: u64) -> (
    before: Option<u64>)
    ensures
        queue_ranks(*final(queue)) == (if queue_ranks(*old(queue)).contains_key(item) {
            queue_ranks(*old(queue)).insert(item, rank)
        } else {
            queue_ranks(*old(queue))
        }),
        before == (if queue_ranks(*old(queue)).contains_key(item) {
            Some(queue_ranks(*old(queue))[item])
        } else {
            None
        }),
{
    queue.change_priority(&item, Reverse(rank)).map(|r| r.0)
}

/// `PriorityQueue::pop`: an item of greatest priority, which under `Reverse`
/// is one of smallest rank, leaves the queue; an empty queue gives `None`.
/// Which of several items of the same rank leaves is left open.
#[verifier::external_body]
fn queue_pop(queue: &mut PriorityQueue<u64, Reverse<u64>>) -> (popped: Option<(u64, u64)>)
    ensures
        match popped {
            Some((item, rank)) => {
                &&& queue_ranks(*old(queue)).contains_pair(item, rank)
                &&& forall|other: u64| #[trigger]
                    queue_ranks(*old(queue)).contains_key(other) ==> rank <= queue_ranks(
                        *old(queue),
                    )[other]
                &&& queue_ranks(*final(queue)) == queue_ranks(*old(queue)).remove(item)
            },
            None => {
                &&& queue_ranks(*old(queue)).dom() == Set::<u64>::empty()
                &&& queue_ranks(*final(queue)) == queue_ranks(*old(queue))
            },
        },
{
    queue.pop().map(|(item, r)| (item, r.0))
}

/// A frontier with one entry per state, lowered in place.
pub struct KeyedFrontier {
    queue: PriorityQueue<u64, Reverse<u64>>,
}

/// The entries of a rank table, as pairs.
pub open spec fn pairs_of(ranks: Map<u64, u64>) -> Set<Entry> {
    Set::new(|e: Entry| ranks.contains_key(e.0) && ranks[e.0] == e.1)
}

impl KeyedFrontier {
    /// The rank each waiting state waits at.
    pub closed spec fn ranks(&self) -> Map<u64, u64> {
        queue_ranks(self.queue)
    }

    /// A frontier in which nothing waits.
    pub fn new() -> (f: KeyedFrontier)
        ensures
            f.wf(),
            f.entries() == Set::<Entry>::empty(),
            f.ranks() == Map::<u64, u64>::empty(),
    {
        let f = KeyedFrontier { queue: queue_with_capacity(0) };
        assert(f.entries() =~= Set::<Entry>::empty());
        f
    }

    /// Queues `state` at `priority`, whatever it waited at before, and
    /// returns what it waited at.
    pub fn push(&mut self, state: u64, priority: u64) -> (before: Option<u64>)
        requires
            old(self).wf(),
        ensures
            final(self).wf(),
            final(self).ranks() == old(self).ranks().insert(state, priority),
            before == (if old(self).ranks().contains_key(state) {
                Some(old(self).ranks()[state])
            } else {
                None
            }),
    {
        queue_push(&mut self.queue, state, priority)
    }

    /// Gives a waiting `state` the rank `priority` and returns its earlier
    /// rank; a state that does not wait is not added.
    pub fn change_priority(&mut self, state: u64, priority: u64) -> (before: Option<u64>)
        requires
            old(self).wf(),
        ensures
            final(self).wf(),
            final(self).ranks() == (if old(self).ranks().contains_key(state) {
                old(self).ranks().insert(state, priority)
            } else {
                old(self).ranks()
            }),
            before == (if old(self).ranks().contains_key(state) {
                Some(old(self).ranks()[state])
            } else {
                None
            }),
    {
        queue_change_priority(&mut self.queue, state, priority)
    }
}

impl Frontier for KeyedFrontier {
    open spec fn entries(&self) -> Set<Entry> {
        pairs_of(self.ranks())
    }

    open spec fn size(&self) -> nat {
        self.ranks().dom().len()
    }

    open spec fn wf(&self) -> bool {
        self.ranks().dom().finite()
    }

    fn decrease(&mut self, state: u64, priority: u64) {
        let waiting = queue_rank_of(&self.queue, state);
        let improves = match waiting {
            Some(rank) => priority < rank,
            None => true,
        };
        if improves {
            let _ = queue_push(&mut self.queue, state, priority);
            proof {
                assert(final(self).ranks().dom() =~= old(self).ranks().dom().insert(state));
            }
        } else {
            proof {
                assert(old(self).entries().contains((state, waiting.unwrap())));
            }
        }
    }

    fn pop_min(&mut self) -> (popped: Option<Entry>) {
        let popped = queue_pop(&mut self.queue);
        proof {
            match popped {
                Some((item, rank)) => {
                    assert(final(self).ranks().dom() =~= old(self).ranks().dom().remove(item));
                    assert(final(self).entries() =~= old(self).entries().remove((item, rank)));
                },
                None => {
                    assert(old(self).entries() =~= Set::<Entry>::empty()) by {
                        assert forall|e: Entry| !old(self).entries().contains(e) by {
                            assert(!old(self).ranks().dom().contains(e.0));
                        }
                    }
                },
            }
        }
        popped
    }
}

/// A frontier that keeps every distinct offer, in the order the offers came.
/// Among entries of equal priority the one offered first leaves first.
pub struct LazyFrontier {
    items: Vec<Entry>,
}

/// Taking one element out of a sequence without repeats takes exactly that
/// element out of its set.
proof fn lemma_remove_from_set(s: Seq<Entry>, k: int)
    requires
        s.no_duplicates(),
        0 <= k < s.len(),
    ensures
        s.remove(k).no_duplicates(),
        s.remove(k).to_set() == s.to_set().remove(s[k]),
{
    let r = s.remove(k);
    assert forall|e: Entry| r.to_set().contains(e) <==> s.to_set().remove(s[k]).contains(e) by {
        if r.contains(e) {
            let j = choose|j: int| 0 <= j < r.len() && r[j] == e;
            if j < k {
                assert(s[j] == e);
            } else {
                assert(s[j + 1] == e);
            }
        }
        if s.contains(e) && e != s[k] {
            let j = choose|j: int| 0 <= j < s.len() && s[j] == e;
            if j < k {
                assert(r[j] == e);
            } else {
                assert(r[j - 1] == e);
            }
        }
    }
    assert(r.to_set() =~= s.to_set().remove(s[k]));
}

/// Appending an element adds it to the set of the sequence.
proof fn lemma_push_to_set(s: Seq<Entry>, e: Entry)
    ensures
        s.push(e).to_set() == s.to_set().insert(e),
{
    let r = s.push(e);
    assert forall|x: Entry| r.to_set().contains(x) <==> s.to_set().insert(e).contains(x) by {
        if r.contains(x) {
            let j = choose|j: int| 0 <= j < r.len() && r[j] == x;
            if j < s.len() {
                assert(s[j] == x);
            }
        }
        if s.contains(x) {
            let j = choose|j: int| 0 <= j < s.len() && s[j] == x;
            assert(r[j] == x);
        }
        if x == e {
            assert(r[s.len() as int] == x);
        }
    }
    assert(r.to_set() =~= s.to_set().insert(e));
}

impl LazyFrontier {
    /// The entries in the order they were offered.
    pub closed spec fn waiting(&self) -> Seq<Entry> {
        self.items@
    }

    /// A frontier in which nothing waits.
    pub fn new() -> (f: LazyFrontier)
        ensures
            f.wf(),
            f.waiting() == Seq::<Entry>::empty(),
            f.entries() == Set::<Entry>::empty(),
    {
        let f = LazyFrontier { items: Vec::new() };
        assert(f.entries() =~= Set::<Entry>::empty());
        f
    }

    /// How many entries wait.
    pub fn len(&self) -> (n: usize)
        ensures
            n == self.waiting().len(),
    {
        self.items.len()
    }

    /// Whether exactly this entry waits.
    fn holds(&self, state: u64, priority: u64) -> (found: bool)
        ensures
            found == self.waiting().contains((state, priority)),
    {
        let mut i: usize = 0;
        while i < self.items.len()
            invariant
                0 <= i <= self.items.len(),
                forall|j: int| 0 <= j < i ==> self.items@[j] != (state, priority),
            decreases self.items.len() - i,
        {
            let e = self.items[i];
            if e.0 == state && e.1 == priority {
                return true;
            }
            i += 1;
        }
        false
    }
}

/// Entry `i` is the one that waits longest among the entries of least
/// priority.
pub open spec fn first_least(waiting: Seq<Entry>, i: int) -> bool {
    &&& 0 <= i < waiting.len()
    &&& forall|j: int| 0 <= j < waiting.len() ==> waiting[i].1 <= #[trigger] waiting[j].1
    &&& forall|j: int| 0 <= j < i ==> waiting[i].1 < #[trigger] waiting[j].1
}

impl Frontier for LazyFrontier {
    open spec fn entries(&self) -> Set<Entry> {
        self.waiting().to_set()
    }

    open spec fn size(&self) -> nat {
        self.waiting().len()
    }

    open spec fn wf(&self) -> bool {
        self.waiting().no_duplicates()
    }

    fn decrease(&mut self, state: u64, priority: u64)
        ensures
            final(self).waiting() == (if old(self).waiting().contains((state, priority)) {
                old(self).waiting()
            } else {
                old(self).waiting().push((state, priority))
            }),
    {
        if !self.holds(state, priority) {
            proof {
                lemma_push_to_set(self.items@, (state, priority));
            }
            self.items.push((state, priority));
        }
    }

    fn pop_min(&mut self) -> (popped: Option<Entry>)
        ensures
            match popped {
                Some(e) => exists|i: int|
                    #[trigger] first_least(old(self).waiting(), i) && e == old(self).waiting()[i]
                        && final(self).waiting() == old(self).waiting().remove(i),
                None => final(self).waiting() == old(self).waiting(),
            },
    {
        if self.items.len() == 0 {
            assert(self.entries() =~= Set::<Entry>::empty()) by {
                assert forall|e: Entry| !self.entries().contains(e) by {
                    if self.waiting().contains(e) {
                        let j = choose|j: int| 0 <= j < self.waiting().len() && self.waiting()[j] == e;
                    }
                }
            }
            return None;
        }
        let mut best: usize = 0;
        let mut i: usize = 1;
        while i < self.items.len()
            invariant
                0 <= best < i <= self.items.len(),
                forall|j: int| 0 <= j < i ==> self.items@[best as int].1 <= self.items@[j].1,
                forall|j: int| 0 <= j < best ==> self.items@[best as int].1 < self.items@[j].1,
            decreases self.items.len() - i,
        {
            if self.items[i].1 < self.items[best].1 {
                best = i;
            }
            i += 1;
        }
        proof {
            lemma_remove_from_set(self.items@, best as int);
            assert forall|o: Entry| #[trigger]
                self.entries().contains(o) implies self.items@[best as int].1 <= o.1 by {
                let j = choose|j: int| 0 <= j < self.waiting().len() && self.waiting()[j] == o;
            }
            assert(self.waiting().contains(self.items@[best as int]));
        }
        assert(first_least(self.waiting(), best as int));
        let e = self.items.remove(best);
        Some(e)
    }
}

} // verus!
