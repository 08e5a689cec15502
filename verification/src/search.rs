//! Cheapest routes over a lazily generated graph.
//!
//! A `Search` settles one state at a time, nearest first. A state's recorded
//! distance is final the moment it is settled, because no price is negative.
//! An offer whose total would not fit in 64 bits is not recorded.

use crate::frontier::{Entry, Frontier, KeyedFrontier, LazyFrontier};
use crate::graph::{
    answers, answers_goal, arrives, goal_reached, is_distance, lemma_answer_unique, lemma_arrival_reaches,
    lemma_reach_extends, lemma_reach_route, lemma_source_reaches, out_of_reach, reaches,
    route_end, Exactly, Goal, Hop, Source, StateGraph,
};
use std::collections::HashMap;
use vstd::prelude::*;

verus! {

broadcast use vstd::std_specs::hash::group_hash_axioms;

/// No route to `v` is cheaper than `d`.
pub open spec fn lower_bound<G: StateGraph>(g: &G, sources: Seq<Source>, v: u64, d: u64) -> bool {
    forall|t: nat| reaches(g, sources, v, t) ==> d <= t
}

/// Every recorded distance is the total of a real route.
pub open spec fn recorded_real<G: StateGraph>(
    g: &G,
    sources: Seq<Source>,
    dist: Map<u64, u64>,
) -> bool {
    forall|v: u64| #[trigger] dist.contains_key(v) ==> reaches(g, sources, v, dist[v] as nat)
}

/// Every settled state is recorded at its true distance.
pub open spec fn settled_exact<G: StateGraph>(
    g: &G,
    sources: Seq<Source>,
    dist: Map<u64, u64>,
    done: Set<u64>,
) -> bool {
    forall|v: u64| #[trigger]
        done.contains(v) ==> dist.contains_key(v) && lower_bound(g, sources, v, dist[v])
}

/// Edge number `k` of `v` has been offered: its far end is recorded no
/// higher than the edge allows, unless that total leaves 64 bits.
pub open spec fn edge_relaxed<G: StateGraph>(g: &G, dist: Map<u64, u64>, v: u64, k: int) -> bool {
    let step = g.edges(v)[k];
    dist[v] + step.1 <= u64::MAX ==> dist.contains_key(step.0) && dist[step.0] <= dist[v] + step.1
}

/// The first `upto` edges of `v` have been offered.
pub open spec fn relaxed_upto<G: StateGraph>(
    g: &G,
    dist: Map<u64, u64>,
    v: u64,
    upto: int,
) -> bool {
    forall|k: int| 0 <= k < upto ==> #[trigger] edge_relaxed(g, dist, v, k)
}

/// Every settled state but the pending one has had all its edges offered.
pub open spec fn settled_relaxed<G: StateGraph>(
    g: &G,
    dist: Map<u64, u64>,
    done: Set<u64>,
    pending: Option<u64>,
) -> bool {
    forall|v: u64| #[trigger]
        done.contains(v) && pending != Some(v) ==> relaxed_upto(
            g,
            dist,
            v,
            g.edges(v).len() as int,
        )
}

/// The first `upto` sources are recorded no higher than they start.
pub open spec fn sources_recorded(sources: Seq<Source>, dist: Map<u64, u64>, upto: int) -> bool {
    forall|i: int|
        0 <= i < upto ==> dist.contains_key((#[trigger] sources[i]).0) && dist[sources[i].0]
            <= sources[i].1
}

/// Every recorded state that is not settled waits at its recorded distance.
pub open spec fn open_waiting(dist: Map<u64, u64>, done: Set<u64>, entries: Set<Entry>) -> bool {
    forall|v: u64| #[trigger]
        dist.contains_key(v) && !done.contains(v) ==> entries.contains((v, dist[v]))
}

/// Every waiting entry is for a recorded state, at no less than its recorded
/// distance, and at more than it once the state is settled.
pub open spec fn entries_sound(dist: Map<u64, u64>, done: Set<u64>, entries: Set<Entry>) -> bool {
    forall|e: Entry| #[trigger]
        entries.contains(e) ==> dist.contains_key(e.0) && dist[e.0] <= e.1 && (done.contains(e.0)
            ==> dist[e.0] < e.1)
}

/// No settled distance exceeds `level`.
pub open spec fn settled_below(dist: Map<u64, u64>, done: Set<u64>, level: u64) -> bool {
    forall|v: u64| #[trigger] done.contains(v) ==> dist[v] <= level
}

/// No settled distance exceeds the priority of a waiting entry.
pub open spec fn settled_first(dist: Map<u64, u64>, done: Set<u64>, entries: Set<Entry>) -> bool {
    forall|e: Entry| #[trigger] entries.contains(e) ==> settled_below(dist, done, e.1)
}

/// The part of the bookkeeping that every offer keeps.
pub open spec fn core_ok<G: StateGraph>(
    g: &G,
    sources: Seq<Source>,
    dist: Map<u64, u64>,
    done: Set<u64>,
    entries: Set<Entry>,
) -> bool {
    &&& recorded_real(g, sources, dist)
    &&& settled_exact(g, sources, dist, done)
    &&& open_waiting(dist, done, entries)
    &&& entries_sound(dist, done, entries)
    &&& settled_first(dist, done, entries)
}

/// `after` records everything `before` records, nothing higher, and the
/// settled states unchanged.
pub open spec fn only_lowered(before: Map<u64, u64>, after: Map<u64, u64>, done: Set<u64>) -> bool {
    &&& forall|v: u64| #[trigger]
        before.contains_key(v) ==> after.contains_key(v) && after[v] <= before[v]
    &&& forall|v: u64| #[trigger] done.contains(v) ==> after[v] == before[v]
}

/// Offered edges stay offered when distances are only lowered.
proof fn lemma_relaxed_kept<G: StateGraph>(
    g: &G,
    before: Map<u64, u64>,
    after: Map<u64, u64>,
    done: Set<u64>,
    v: u64,
    upto: int,
)
    requires
        only_lowered(before, after, done),
        done.contains(v),
        before.contains_key(v),
        relaxed_upto(g, before, v, upto),
    ensures
        relaxed_upto(g, after, v, upto),
{
    assert forall|k: int| 0 <= k < upto implies #[trigger] edge_relaxed(g, after, v, k) by {
        assert(edge_relaxed(g, before, v, k));
        let step = g.edges(v)[k];
        if before[v] + step.1 <= u64::MAX {
            assert(before.contains_key(step.0));
        }
    }
}

/// What an offer leaves in place: offered edges stay offered and sources
/// stay recorded.
proof fn lemma_offer_keeps<G: StateGraph>(
    g: &G,
    sources: Seq<Source>,
    before: Map<u64, u64>,
    after: Map<u64, u64>,
    done: Set<u64>,
    pending: Option<u64>,
    u: u64,
    upto: int,
)
    requires
        only_lowered(before, after, done),
        settled_exact(g, sources, before, done),
        settled_relaxed(g, before, done, pending),
        sources_recorded(sources, before, sources.len() as int),
        done.contains(u),
        relaxed_upto(g, before, u, upto),
        settled_below(before, done, before[u]),
    ensures
        settled_relaxed(g, after, done, pending),
        sources_recorded(sources, after, sources.len() as int),
        relaxed_upto(g, after, u, upto),
        settled_below(after, done, after[u]),
        after[u] == before[u],
{
    lemma_relaxed_kept(g, before, after, done, u, upto);
    assert forall|v: u64| #[trigger] done.contains(v) && pending != Some(v) implies relaxed_upto(
        g,
        after,
        v,
        g.edges(v).len() as int,
    ) by {
        lemma_relaxed_kept(g, before, after, done, v, g.edges(v).len() as int);
    }
    assert forall|i: int| 0 <= i < sources.len() implies after.contains_key(
        (#[trigger] sources[i]).0,
    ) && after[sources[i].0] <= sources[i].1 by {
        assert(before.contains_key(sources[i].0));
    }
    assert forall|v: u64| #[trigger] done.contains(v) implies after[v] <= after[u] by {
        assert(before[v] <= before[u]);
    }
}

/// While states wait at `level` or more, every route of a total that fits in
/// 64 bits and ends in a state that is not settled costs at least `level`.
proof fn lemma_unsettled_bound<G: StateGraph>(
    g: &G,
    sources: Seq<Source>,
    dist: Map<u64, u64>,
    done: Set<u64>,
    entries: Set<Entry>,
    level: nat,
    i: int,
    hops: Seq<Hop>,
    x: u64,
    t: nat,
)
    requires
        settled_exact(g, sources, dist, done),
        settled_relaxed(g, dist, done, None),
        sources_recorded(sources, dist, sources.len() as int),
        open_waiting(dist, done, entries),
        forall|e: Entry| #[trigger] entries.contains(e) ==> level <= e.1,
        arrives(g, sources, i, hops, x, t),
        !done.contains(x),
        t <= u64::MAX,
    ensures
        level <= t,
    decreases hops.len(),
{
    if hops.len() == 0 {
        let s = sources[i];
        assert(dist.contains_key(s.0));
        assert(entries.contains((x, dist[x])));
    } else {
        let pre = hops.drop_last();
        let y = route_end(sources[i].0, pre);
        let step = hops.last();
        let ty = (t - step.1) as nat;
        assert(arrives(g, sources, i, pre, y, ty));
        if done.contains(y) {
            lemma_arrival_reaches(g, sources, i, pre, y, ty);
            assert(lower_bound(g, sources, y, dist[y]));
            let k = choose|k: int| 0 <= k < g.edges(y).len() && g.edges(y)[k] == step;
            assert(relaxed_upto(g, dist, y, g.edges(y).len() as int));
            assert(edge_relaxed(g, dist, y, k));
            assert(dist.contains_key(x));
            assert(entries.contains((x, dist[x])));
        } else {
            lemma_unsettled_bound(g, sources, dist, done, entries, level, i, pre, y, ty);
        }
    }
}

/// A finite set of 64-bit keys has at most 2^64 members.
pub proof fn lemma_key_set_bounded(s: Set<u64>)
    requires
        s.finite(),
    ensures
        s.len() <= 0x1_0000_0000_0000_0000,
{
    let f = |k: u64| k as int;
    let image = s.map(f);
    assert(vstd::relations::injective_on(f, s));
    vstd::set_lib::lemma_map_size(s, image, f);
    let all = vstd::set_lib::set_int_range(0, 0x1_0000_0000_0000_0000);
    vstd::set_lib::lemma_int_range(0, 0x1_0000_0000_0000_0000);
    assert(image.subset_of(all)) by {
        assert forall|n: int| image.contains(n) implies all.contains(n) by {
            let k = choose|k: u64| s.contains(k) && f(k) == n;
        }
    }
    vstd::set_lib::lemma_len_subset(image, all);
}

/// How many states are still left to settle.
pub open spec fn unsettled_count(done: Set<u64>) -> nat {
    (0x1_0000_0000_0000_0000 - done.len()) as nat
}

/// A search in progress: the distance table, the frontier, and the set of
/// states whose distance is final.
pub struct Search<F: Frontier> {
    dist: HashMap<u64, u64>,
    frontier: F,
    pending: Option<u64>,
    settled: Ghost<Set<u64>>,
    sources: Ghost<Seq<Source>>,
}

impl<F: Frontier> Search<F> {
    /// The best distance recorded so far for each state that has been seen.
    pub closed spec fn table(&self) -> Map<u64, u64> {
        self.dist@
    }

    /// The states whose distance is final.
    pub closed spec fn settled(&self) -> Set<u64> {
        self.settled@
    }

    /// The sources the search was begun with.
    pub closed spec fn sources(&self) -> Seq<Source> {
        self.sources@
    }

    /// What holds of a search between any two steps.
    pub closed spec fn inv<G: StateGraph>(&self, g: &G) -> bool {
        &&& self.frontier.wf()
        &&& self.settled@.finite()
        &&& core_ok(g, self.sources@, self.dist@, self.settled@, self.frontier.entries())
        &&& settled_relaxed(g, self.dist@, self.settled@, self.pending)
        &&& sources_recorded(self.sources@, self.dist@, self.sources@.len() as int)
        &&& match self.pending {
            Some(u) => self.settled@.contains(u) && settled_below(
                self.dist@,
                self.settled@,
                self.dist@[u],
            ),
            None => true,
        }
    }

    /// Every settled state is recorded at its cheapest total.
    pub proof fn lemma_settled_is_distance<G: StateGraph>(&self, g: &G, v: u64)
        requires
            self.inv(g),
            self.settled().contains(v),
        ensures
            self.table().contains_key(v),
            is_distance(g, self.sources(), v, self.table()[v] as nat),
    {
        assert(lower_bound(g, self.sources@, v, self.dist@[v]));
    }

    /// The settled set is finite, so a search cannot go on for ever.
    pub proof fn lemma_settled_finite<G: StateGraph>(&self, g: &G)
        requires
            self.inv(g),
        ensures
            self.settled().finite(),
            self.settled().len() <= 0x1_0000_0000_0000_0000,
    {
        lemma_key_set_bounded(self.settled@);
    }

    /// Every recorded distance is the total of a real route.
    pub proof fn lemma_table_real<G: StateGraph>(&self, g: &G, v: u64)
        requires
            self.inv(g),
            self.table().contains_key(v),
        ensures
            reaches(g, self.sources(), v, self.table()[v] as nat),
    {
    }

    /// Gives up the search and hands out its distance table.
    pub fn into_table(self) -> (table: HashMap<u64, u64>)
        ensures
            table@ == self.table(),
    {
        self.dist
    }

    /// Records `cand` for `w` if that improves on what is recorded, and
    /// queues `w` at it.
    fn offer<G: StateGraph>(&mut self, g: &G, w: u64, cand: u64)
        requires
            old(self).frontier.wf(),
            core_ok(
                g,
                old(self).sources@,
                old(self).dist@,
                old(self).settled@,
                old(self).frontier.entries(),
            ),
            reaches(g, old(self).sources@, w, cand as nat),
            settled_below(old(self).dist@, old(self).settled@, cand),
        ensures
            final(self).frontier.wf(),
            core_ok(
                g,
                final(self).sources@,
                final(self).dist@,
                final(self).settled@,
                final(self).frontier.entries(),
            ),
            final(self).sources@ == old(self).sources@,
            final(self).settled@ == old(self).settled@,
            final(self).pending == old(self).pending,
            only_lowered(old(self).dist@, final(self).dist@, old(self).settled@),
            final(self).dist@.contains_key(w),
            final(self).dist@[w] <= cand,
    {
        let better = match self.dist.get(&w) {
            Some(known) => cand < *known,
            None => true,
        };
        if better {
            let ghost dist0 = self.dist@;
            let ghost open0 = self.frontier.entries();
            proof {
                if self.settled@.contains(w) {
                    assert(lower_bound(g, self.sources@, w, dist0[w]));
                }
                assert forall|p: u64| p <= cand implies !open0.contains((w, p)) by {}
            }
            self.dist.insert(w, cand);
            self.frontier.decrease(w, cand);
            proof {
                let dist1 = self.dist@;
                let open1 = self.frontier.entries();
                let done = self.settled@;
                assert(open1.contains((w, cand)));
                assert forall|v: u64| #[trigger] dist1.contains_key(v) && !done.contains(
                    v,
                ) implies open1.contains((v, dist1[v])) by {
                    if v != w {
                        assert(open0.contains((v, dist0[v])));
                    }
                }
                assert forall|e: Entry| #[trigger] open1.contains(e) implies dist1.contains_key(
                    e.0,
                ) && dist1[e.0] <= e.1 && (done.contains(e.0) ==> dist1[e.0] < e.1) by {
                    if e != (w, cand) {
                        assert(open0.contains(e));
                    }
                }
                assert forall|e: Entry| #[trigger] open1.contains(e) implies settled_below(
                    dist1,
                    done,
                    e.1,
                ) by {
                    if e != (w, cand) {
                        assert(open0.contains(e));
                        assert(settled_below(dist0, done, e.1));
                    }
                }
            }
        }
    }

    /// Offers every edge of the pending state, which then is pending no more.
    fn expand<G: StateGraph>(&mut self, g: &G, u: u64)
        requires
            g.wf(),
            old(self).inv(g),
            old(self).pending == Some(u),
        ensures
            final(self).inv(g),
            final(self).pending.is_none(),
            final(self).settled@ == old(self).settled@,
            final(self).sources@ == old(self).sources@,
    {
        let edges = g.neighbors(u);
        let du = *self.dist.get(&u).unwrap();
        let mut k: usize = 0;
        while k < edges.len()
            invariant
                0 <= k <= edges.len(),
                edges@ == g.edges(u),
                self.frontier.wf(),
                self.settled@.finite(),
                self.settled@ == old(self).settled@,
                self.sources@ == old(self).sources@,
                self.pending == Some(u),
                self.settled@.contains(u),
                self.dist@.contains_key(u),
                self.dist@[u] == du,
                core_ok(g, self.sources@, self.dist@, self.settled@, self.frontier.entries()),
                settled_relaxed(g, self.dist@, self.settled@, self.pending),
                sources_recorded(self.sources@, self.dist@, self.sources@.len() as int),
                settled_below(self.dist@, self.settled@, du),
                relaxed_upto(g, self.dist@, u, k as int),
            decreases edges.len() - k,
        {
            let step = edges[k];
            match du.checked_add(step.1) {
                Some(cand) => {
                    let ghost dist0 = self.dist@;
                    proof {
                        lemma_reach_extends(g, self.sources@, u, du as nat, k as int);
                    }
                    self.offer(g, step.0, cand);
                    proof {
                        lemma_offer_keeps(
                            g,
                            self.sources@,
                            dist0,
                            self.dist@,
                            self.settled@,
                            self.pending,
                            u,
                            k as int,
                        );
                    }
                },
                None => {},
            }
            assert(edge_relaxed(g, self.dist@, u, k as int));
            k += 1;
        }
        self.pending = None;
    }

    /// Begins a search from `sources`, each a state with the distance it
    /// starts at, on a frontier in which nothing waits yet.
    pub fn begin<G: StateGraph>(g: &G, sources: &Vec<Source>, frontier: F) -> (search: Search<F>)
        requires
            g.wf(),
            frontier.wf(),
            frontier.entries() == Set::<Entry>::empty(),
        ensures
            search.inv(g),
            search.sources() == sources@,
            search.settled() == Set::<u64>::empty(),
    {
        let mut search = Search {
            dist: HashMap::new(),
            frontier,
            pending: None,
            settled: Ghost(Set::empty()),
            sources: Ghost(sources@),
        };
        let mut i: usize = 0;
        while i < sources.len()
            invariant
                0 <= i <= sources.len(),
                search.frontier.wf(),
                search.pending.is_none(),
                search.settled@ == Set::<u64>::empty(),
                search.sources@ == sources@,
                core_ok(
                    g,
                    search.sources@,
                    search.dist@,
                    search.settled@,
                    search.frontier.entries(),
                ),
                sources_recorded(search.sources@, search.dist@, i as int),
            decreases sources.len() - i,
        {
            let s = sources[i];
            let ghost dist0 = search.dist@;
            proof {
                lemma_source_reaches(g, sources@, i as int);
            }
            search.offer(g, s.0, s.1);
            proof {
                let dist1 = search.dist@;
                assert forall|j: int| 0 <= j < i + 1 implies dist1.contains_key(
                    (#[trigger] sources@[j]).0,
                ) && dist1[sources@[j].0] <= sources@[j].1 by {
                    if j < i {
                        assert(dist0.contains_key(sources@[j].0));
                    }
                }
            }
            i += 1;
        }
        search
    }

    /// Settles the nearest state that is not settled yet and returns it with
    /// its distance, or returns `None` when every state within reach is settled.
    ///
    /// States come out in order of distance: the one returned is no further
    /// than any state that was not settled before the call.
    pub fn settle_next<G: StateGraph>(&mut self, g: &G) -> (next: Option<Entry>)
        requires
            g.wf(),
            old(self).inv(g),
        ensures
            final(self).inv(g),
            final(self).sources() == old(self).sources(),
            match next {
                Some((u, d)) => {
                    &&& !old(self).settled().contains(u)
                    &&& final(self).settled() == old(self).settled().insert(u)
                    &&& is_distance(g, old(self).sources(), u, d as nat)
                    &&& forall|x: u64, t: nat|
                        !old(self).settled().contains(x) && #[trigger] reaches(
                            g,
                            old(self).sources(),
                            x,
                            t,
                        ) ==> d <= t
                },
                None => {
                    &&& final(self).settled() == old(self).settled()
                    &&& forall|x: u64, t: nat|
                        t <= u64::MAX && #[trigger] reaches(g, old(self).sources(), x, t)
                            ==> final(self).settled().contains(x)
                    &&& forall|x: u64| #[trigger]
                        final(self).table().contains_key(x) ==> final(self).settled().contains(x)
                },
            },
    {
        match self.pending {
            Some(u) => {
                self.expand(g, u);
            },
            None => {},
        }
        loop
            invariant
                g.wf(),
                self.inv(g),
                self.pending.is_none(),
                self.settled@ == old(self).settled@,
                self.sources@ == old(self).sources@,
            decreases self.frontier.size(),
        {
            let ghost open0 = self.frontier.entries();
            let ghost dist0 = self.dist@;
            let ghost done0 = self.settled@;
            let ghost src = self.sources@;
            match self.frontier.pop_min() {
                None => {
                    proof {
                        assert forall|x: u64, t: nat|
                            t <= u64::MAX && #[trigger] reaches(g, src, x, t) implies done0.contains(
                            x,
                        ) by {
                            if !done0.contains(x) {
                                let (i, hops) = lemma_reach_route(g, src, x, t);
                                lemma_unsettled_bound(
                                    g,
                                    src,
                                    dist0,
                                    done0,
                                    open0,
                                    t + 1,
                                    i,
                                    hops,
                                    x,
                                    t,
                                );
                            }
                        }
                        assert forall|x: u64| #[trigger] dist0.contains_key(x) implies done0.contains(
                            x,
                        ) by {
                            if !done0.contains(x) {
                                assert(open0.contains((x, dist0[x])));
                            }
                        }
                    }
                    return None;
                },
                Some(e) => {
                    let u = e.0;
                    let p = e.1;
                    assert(open0.contains(e));
                    let d = *self.dist.get(&u).unwrap();
                    if d < p {
                        proof {
                            let open1 = self.frontier.entries();
                            assert forall|v: u64| #[trigger]
                                dist0.contains_key(v) && !done0.contains(v) implies open1.contains(
                                (v, dist0[v]),
                            ) by {
                                assert(open0.contains((v, dist0[v])));
                            }
                            assert forall|o: Entry| #[trigger] open1.contains(o) implies settled_below(
                                dist0,
                                done0,
                                o.1,
                            ) by {
                                assert(open0.contains(o));
                            }
                        }
                    } else {
                        proof {
                            assert(!done0.contains(u));
                            assert forall|x: u64, t: nat|
                                !done0.contains(x) && #[trigger] reaches(g, src, x, t) implies d
                                <= t by {
                                if t <= u64::MAX {
                                    let (i, hops) = lemma_reach_route(g, src, x, t);
                                    lemma_unsettled_bound(
                                        g,
                                        src,
                                        dist0,
                                        done0,
                                        open0,
                                        p as nat,
                                        i,
                                        hops,
                                        x,
                                        t,
                                    );
                                }
                            }
                            assert(lower_bound(g, src, u, d));
                            assert(settled_below(dist0, done0, p));
                        }
                        self.settled = Ghost(self.settled@.insert(u));
                        self.pending = Some(u);
                        proof {
                            let open1 = self.frontier.entries();
                            let done1 = self.settled@;
                            assert forall|v: u64| #[trigger]
                                dist0.contains_key(v) && !done1.contains(v) implies open1.contains(
                                (v, dist0[v]),
                            ) by {
                                assert(open0.contains((v, dist0[v])));
                            }
                            assert forall|o: Entry| #[trigger] open1.contains(o) implies settled_below(
                                dist0,
                                done1,
                                o.1,
                            ) by {
                                assert(open0.contains(o));
                                assert(settled_below(dist0, done0, o.1));
                            }
                            assert forall|o: Entry| #[trigger]
                                open1.contains(o) implies dist0.contains_key(o.0) && dist0[o.0]
                                <= o.1 && (done1.contains(o.0) ==> dist0[o.0] < o.1) by {
                                assert(open0.contains(o));
                            }
                        }
                        return Some((u, d));
                    }
                },
            }
        }
    }
}

/// The cheapest total at which a state accepted by `goal` can be reached
/// from `sources`, found on the frontier that is handed in.
pub fn nearest_goal<G: StateGraph, T: Goal, F: Frontier>(
    g: &G,
    sources: &Vec<Source>,
    goal: &T,
    frontier: F,
) -> (found: Option<u64>)
    requires
        g.wf(),
        frontier.wf(),
        frontier.entries() == Set::<Entry>::empty(),
    ensures
        answers_goal(g, sources@, goal, found),
{
    let mut search = Search::begin(g, sources, frontier);
    loop
        invariant
            g.wf(),
            search.inv(g),
            search.sources() == sources@,
            forall|x: u64| #[trigger] goal.accepts(x) ==> !search.settled().contains(x),
        decreases unsettled_count(search.settled()),
    {
        let ghost before = search.settled();
        proof {
            search.lemma_settled_finite(g);
        }
        match search.settle_next(g) {
            None => {
                assert forall|x: u64, t: nat| t <= u64::MAX implies !#[trigger] goal_reached(
                    g,
                    sources@,
                    goal,
                    x,
                    t,
                ) by {
                    if goal.accepts(x) {
                        assert(!search.settled().contains(x));
                    }
                }
                return None;
            },
            Some(e) => {
                proof {
                    search.lemma_settled_finite(g);
                }
                if goal.test(e.0) {
                    assert(goal_reached(g, sources@, goal, e.0, e.1 as nat));
                    assert forall|x: u64, t: nat| #[trigger]
                        goal_reached(g, sources@, goal, x, t) implies e.1 <= t by {
                        assert(!before.contains(x));
                    }
                    return Some(e.1);
                }
            },
        }
    }
}

/// The cheapest total at which `goal` can be reached from `sources`, each a
/// state with the distance it starts at; `None` when it cannot be reached.
/// The frontier lowers priorities in place.
pub fn shortest_path<G: StateGraph>(g: &G, sources: &Vec<Source>, goal: u64) -> (found: Option<u64>)
    requires
        g.wf(),
    ensures
        answers(g, sources@, goal, found),
{
    let target = Exactly(goal);
    let found = nearest_goal(g, sources, &target, KeyedFrontier::new());
    proof {
        lemma_exact_goal(g, sources@, goal, found);
    }
    found
}

/// The same query as `shortest_path`, answered with a frontier that keeps
/// stale entries and rejects them when they surface.
pub fn shortest_path_lazy<G: StateGraph>(g: &G, sources: &Vec<Source>, goal: u64) -> (found: Option<
    u64,
>)
    requires
        g.wf(),
    ensures
        answers(g, sources@, goal, found),
{
    let target = Exactly(goal);
    let found = nearest_goal(g, sources, &target, LazyFrontier::new());
    proof {
        lemma_exact_goal(g, sources@, goal, found);
    }
    found
}

/// An answer for the goal `Exactly(goal)` is an answer for the state `goal`.
pub proof fn lemma_exact_goal<G: StateGraph>(
    g: &G,
    sources: Seq<Source>,
    goal: u64,
    found: Option<u64>,
)
    requires
        answers_goal(g, sources, &Exactly(goal), found),
    ensures
        answers(g, sources, goal, found),
{
    let target = Exactly(goal);
    match found {
        Some(d) => {
            let u = choose|u: u64| goal_reached(g, sources, &target, u, d as nat);
            assert(goal_reached(g, sources, &target, u, d as nat));
            assert forall|t: nat| reaches(g, sources, goal, t) implies d <= t by {
                assert(goal_reached(g, sources, &target, goal, t));
            }
        },
        None => {
            assert forall|t: nat| t <= u64::MAX implies !reaches(g, sources, goal, t) by {
                assert(!goal_reached(g, sources, &target, goal, t));
            }
        },
    }
}

/// Whatever frontier answers a query, the answer is the same: the frontier
/// that rejects stale entries agrees with the one that lowers in place, and
/// asking again changes nothing.
pub proof fn lemma_frontiers_agree<G: StateGraph>(
    g: &G,
    sources: Seq<Source>,
    goal: u64,
    keyed: Option<u64>,
    lazy: Option<u64>,
)
    requires
        answers(g, sources, goal, keyed),
        answers(g, sources, goal, lazy),
    ensures
        keyed == lazy,
{
    lemma_answer_unique(g, sources, goal, keyed, lazy);
}

/// The cheapest total for each of `goals`, in their order. The search stops
/// as soon as every goal is settled.
pub fn shortest_paths<G: StateGraph>(g: &G, sources: &Vec<Source>, goals: &Vec<u64>) -> (found: Vec<
    Option<u64>,
>)
    requires
        g.wf(),
    ensures
        found@.len() == goals@.len(),
        forall|i: int| 0 <= i < goals@.len() ==> answers(g, sources@, goals@[i], #[trigger] found@[i]),
{
    let mut found: Vec<Option<u64>> = Vec::new();
    let mut i: usize = 0;
    while i < goals.len()
        invariant
            0 <= i <= goals.len(),
            found@.len() == i,
            forall|j: int| 0 <= j < i ==> (#[trigger] found@[j]).is_none(),
        decreases goals.len() - i,
    {
        found.push(None);
        i += 1;
    }
    let mut missing: usize = goals.len();
    let mut search = Search::begin(g, sources, KeyedFrontier::new());
    while missing > 0
        invariant
            g.wf(),
            search.inv(g),
            search.sources() == sources@,
            found@.len() == goals@.len(),
            forall|j: int|
                0 <= j < goals@.len() ==> match #[trigger] found@[j] {
                    Some(d) => is_distance(g, sources@, goals@[j], d as nat),
                    None => !search.settled().contains(goals@[j]),
                },
            missing == 0 ==> forall|j: int| 0 <= j < goals@.len() ==> (#[trigger] found@[j]).is_some(),
        decreases unsettled_count(search.settled()),
    {
        proof {
            search.lemma_settled_finite(g);
        }
        match search.settle_next(g) {
            None => {
                assert forall|j: int| 0 <= j < goals@.len() implies answers(
                    g,
                    sources@,
                    goals@[j],
                    #[trigger] found@[j],
                ) by {
                    if found@[j].is_none() {
                        assert(!search.settled().contains(goals@[j]));
                    }
                }
                return found;
            },
            Some(e) => {
                proof {
                    search.lemma_settled_finite(g);
                }
                missing = 0;
                let mut j: usize = 0;
                while j < goals.len()
                    invariant
                        0 <= j <= goals.len(),
                        found@.len() == goals@.len(),
                        is_distance(g, sources@, e.0, e.1 as nat),
                        search.settled().contains(e.0),
                        forall|k: int|
                            0 <= k < goals@.len() ==> match #[trigger] found@[k] {
                                Some(d) => is_distance(g, sources@, goals@[k], d as nat),
                                None => k < j ==> !search.settled().contains(goals@[k]),
                            },
                        forall|k: int|
                            j <= k < goals@.len() && (#[trigger] found@[k]).is_none()
                                ==> goals@[k] == e.0 || !search.settled().contains(goals@[k]),
                        missing == 0 ==> forall|k: int| 0 <= k < j ==> (#[trigger] found@[k]).is_some(),
                    decreases goals.len() - j,
                {
                    if found[j].is_none() {
                        if goals[j] == e.0 {
                            found.set(j, Some(e.1));
                        } else {
                            missing = 1;
                        }
                    }
                    j += 1;
                }
            },
        }
    }
    found
}

/// The cheapest total for every state that can be reached from `sources` at
/// a total that fits in 64 bits, and no entry for any other state.
pub fn distances<G: StateGraph>(g: &G, sources: &Vec<Source>) -> (table: HashMap<u64, u64>)
    requires
        g.wf(),
    ensures
        forall|v: u64| #[trigger]
            table@.contains_key(v) ==> is_distance(g, sources@, v, table@[v] as nat),
        forall|v: u64| !table@.contains_key(v) ==> #[trigger] out_of_reach(g, sources@, v),
{
    let mut search = Search::begin(g, sources, KeyedFrontier::new());
    loop
        invariant
            g.wf(),
            search.inv(g),
            search.sources() == sources@,
        decreases unsettled_count(search.settled()),
    {
        proof {
            search.lemma_settled_finite(g);
        }
        match search.settle_next(g) {
            None => {
                proof {
                    assert forall|v: u64| #[trigger]
                        search.table().contains_key(v) implies is_distance(
                        g,
                        sources@,
                        v,
                        search.table()[v] as nat,
                    ) by {
                        search.lemma_settled_is_distance(g, v);
                    }
                    assert forall|v: u64| !search.table().contains_key(v) implies #[trigger] out_of_reach(
                        g,
                        sources@,
                        v,
                    ) by {
                        assert forall|t: nat| t <= u64::MAX implies !reaches(g, sources@, v, t) by {
                            if reaches(g, sources@, v, t) {
                                assert(search.settled().contains(v));
                                search.lemma_settled_is_distance(g, v);
                            }
                        }
                    }
                }
                return search.into_table();
            },
            Some(e) => {
                proof {
                    search.lemma_settled_finite(g);
                }
            },
        }
    }
}

/// `target` can be reached at a total of at most `limit`.
pub open spec fn in_range<G: StateGraph>(
    g: &G,
    sources: Seq<Source>,
    target: u64,
    limit: u64,
) -> bool {
    exists|t: nat| t <= limit && #[trigger] reaches(g, sources, target, t)
}

/// The cheapest total for every state that can be reached from `sources`
/// at a total of at most `limit`, and no entry for any other state. The
/// search goes no further than the limit asks for.
pub fn distances_within<G: StateGraph>(g: &G, sources: &Vec<Source>, limit: u64) -> (table: HashMap<
    u64,
    u64,
>)
    requires
        g.wf(),
    ensures
        forall|v: u64| #[trigger]
            table@.contains_key(v) ==> table@[v] <= limit && is_distance(
                g,
                sources@,
                v,
                table@[v] as nat,
            ),
        forall|v: u64| !table@.contains_key(v) ==> !#[trigger] in_range(g, sources@, v, limit),
{
    let mut table: HashMap<u64, u64> = HashMap::new();
    let mut search = Search::begin(g, sources, KeyedFrontier::new());
    loop
        invariant
            g.wf(),
            search.inv(g),
            search.sources() == sources@,
            forall|v: u64| #[trigger]
                table@.contains_key(v) ==> table@[v] <= limit && is_distance(
                    g,
                    sources@,
                    v,
                    table@[v] as nat,
                ),
            forall|v: u64| search.settled().contains(v) ==> #[trigger] table@.contains_key(v),
        decreases unsettled_count(search.settled()),
    {
        let ghost before = search.settled();
        proof {
            search.lemma_settled_finite(g);
        }
        match search.settle_next(g) {
            None => {
                proof {
                    assert forall|v: u64| !table@.contains_key(v) implies !#[trigger] in_range(
                        g,
                        sources@,
                        v,
                        limit,
                    ) by {
                        if in_range(g, sources@, v, limit) {
                            let t = choose|t: nat|
                                t <= limit && #[trigger] reaches(g, sources@, v, t);
                            assert(search.settled().contains(v));
                        }
                    }
                }
                return table;
            },
            Some(e) => {
                proof {
                    search.lemma_settled_finite(g);
                }
                if e.1 > limit {
                    proof {
                        assert forall|v: u64| !table@.contains_key(v) implies !#[trigger] in_range(
                            g,
                            sources@,
                            v,
                            limit,
                        ) by {
                            if in_range(g, sources@, v, limit) {
                                let t = choose|t: nat|
                                    t <= limit && #[trigger] reaches(g, sources@, v, t);
                                assert(!before.contains(v));
                            }
                        }
                    }
                    return table;
                }
                table.insert(e.0, e.1);
            },
        }
    }
}

} // verus!
