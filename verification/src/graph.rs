//! Graphs that are never stored: a state is a `u64` key and its outgoing
//! edges are computed when asked for.

use vstd::prelude::*;

verus! {

/// One step of a route: the state that is entered and the price of entering it.
pub type Hop = (u64, u64);

/// A starting state together with the distance it starts at.
pub type Source = (u64, u64);

/// A graph given by its neighbour function.
///
/// `edges` is a mathematical function of the state, so asking twice gives the
/// same answer; `neighbors` computes exactly that sequence.
pub trait StateGraph {
    /// What must hold of the graph before it is asked anything.
    spec fn wf(&self) -> bool;

    /// The outgoing `(neighbour, cost)` pairs of `state`.
    spec fn edges(&self, state: u64) -> Seq<Hop>;

    /// Computes the outgoing edges of `state`.
    fn neighbors(&self, state: u64) -> (out: Vec<Hop>)
        requires
            self.wf(),
        ensures
            out@ == self.edges(state),
    ;
}

/// The state a route ends in: the last one entered, or `start` when no step is taken.
pub open spec fn route_end(start: u64, hops: Seq<Hop>) -> u64 {
    if hops.len() == 0 {
        start
    } else {
        hops.last().0
    }
}

/// The sum of the prices along a route.
pub open spec fn route_cost(hops: Seq<Hop>) -> nat
    decreases hops.len(),
{
    if hops.len() == 0 {
        0
    } else {
        route_cost(hops.drop_last()) + hops.last().1 as nat
    }
}

/// Every step of `hops` follows an edge of the graph, beginning at `start`.
pub open spec fn is_route<G: StateGraph>(g: &G, start: u64, hops: Seq<Hop>) -> bool
    decreases hops.len(),
{
    hops.len() == 0 || (is_route(g, start, hops.drop_last()) && g.edges(
        route_end(start, hops.drop_last()),
    ).contains(hops.last()))
}

/// Route `hops` leaves source number `i`, ends in `target`, and costs `total`
/// with the source's starting distance counted in.
pub open spec fn arrives<G: StateGraph>(
    g: &G,
    sources: Seq<Source>,
    i: int,
    hops: Seq<Hop>,
    target: u64,
    total: nat,
) -> bool {
    &&& 0 <= i < sources.len()
    &&& is_route(g, sources[i].0, hops)
    &&& route_end(sources[i].0, hops) == target
    &&& sources[i].1 as nat + route_cost(hops) == total
}

/// Some route from some source ends in `target` at total cost `total`.
#[verifier::opaque]
pub open spec fn reaches<G: StateGraph>(
    g: &G,
    sources: Seq<Source>,
    target: u64,
    total: nat,
) -> bool {
    exists|i: int, hops: Seq<Hop>| arrives(g, sources, i, hops, target, total)
}

/// `d` is the cheapest total at which `target` can be reached.
pub open spec fn is_distance<G: StateGraph>(
    g: &G,
    sources: Seq<Source>,
    target: u64,
    d: nat,
) -> bool {
    &&& reaches(g, sources, target, d)
    &&& forall|t: nat| reaches(g, sources, target, t) ==> d <= t
}

/// No route of a total that fits in 64 bits ends in `target`.
pub open spec fn out_of_reach<G: StateGraph>(g: &G, sources: Seq<Source>, target: u64) -> bool {
    forall|t: nat| t <= u64::MAX ==> !reaches(g, sources, target, t)
}

/// What a single-goal query owes: the cheapest total when the goal can be
/// reached at a total that fits in 64 bits, and nothing otherwise.
pub open spec fn answers<G: StateGraph>(
    g: &G,
    sources: Seq<Source>,
    goal: u64,
    found: Option<u64>,
) -> bool {
    match found {
        Some(d) => is_distance(g, sources, goal, d as nat),
        None => out_of_reach(g, sources, goal),
    }
}

/// A route that arrives shows that its end can be reached.
pub proof fn lemma_arrival_reaches<G: StateGraph>(
    g: &G,
    sources: Seq<Source>,
    i: int,
    hops: Seq<Hop>,
    target: u64,
    total: nat,
)
    requires
        arrives(g, sources, i, hops, target, total),
    ensures
        reaches(g, sources, target, total),
{
    reveal(reaches);
}

/// A state that can be reached is the end of a route that arrives.
pub proof fn lemma_reach_route<G: StateGraph>(
    g: &G,
    sources: Seq<Source>,
    target: u64,
    total: nat,
) -> (route: (int, Seq<Hop>))
    requires
        reaches(g, sources, target, total),
    ensures
        arrives(g, sources, route.0, route.1, target, total),
{
    reveal(reaches);
    choose|i: int, hops: Seq<Hop>| arrives(g, sources, i, hops, target, total)
}

/// A source reaches itself at its own starting distance.
pub proof fn lemma_source_reaches<G: StateGraph>(g: &G, sources: Seq<Source>, i: int)
    requires
        0 <= i < sources.len(),
    ensures
        reaches(g, sources, sources[i].0, sources[i].1 as nat),
{
    reveal(reaches);
    assert(arrives(g, sources, i, Seq::<Hop>::empty(), sources[i].0, sources[i].1 as nat));
}

/// A route that reaches `from` can be continued along any edge of `from`.
pub proof fn lemma_reach_extends<G: StateGraph>(
    g: &G,
    sources: Seq<Source>,
    from: u64,
    total: nat,
    k: int,
)
    requires
        reaches(g, sources, from, total),
        0 <= k < g.edges(from).len(),
    ensures
        reaches(g, sources, g.edges(from)[k].0, total + g.edges(from)[k].1 as nat),
{
    reveal(reaches);
    let (i, hops) = choose|i: int, hops: Seq<Hop>| arrives(g, sources, i, hops, from, total);
    let step = g.edges(from)[k];
    let longer = hops.push(step);
    assert(longer.drop_last() =~= hops);
    assert(longer.last() == step);
    assert(arrives(g, sources, i, longer, step.0, total + step.1 as nat));
}

/// Two answers to the same single-goal query are the same answer.
pub proof fn lemma_answer_unique<G: StateGraph>(
    g: &G,
    sources: Seq<Source>,
    goal: u64,
    first: Option<u64>,
    second: Option<u64>,
)
    requires
        answers(g, sources, goal, first),
        answers(g, sources, goal, second),
    ensures
        first == second,
{
    match (first, second) {
        (Some(a), Some(b)) => {
            assert(reaches(g, sources, goal, a as nat));
            assert(reaches(g, sources, goal, b as nat));
        },
        (Some(a), None) => {
            assert(reaches(g, sources, goal, a as nat));
        },
        (None, Some(b)) => {
            assert(reaches(g, sources, goal, b as nat));
        },
        (None, None) => {},
    }
}

/// What a search looks for: a set of states, given by a test.
pub trait Goal {
    /// The states that count as reached goals.
    spec fn accepts(&self, state: u64) -> bool;

    /// Decides whether `state` is a goal.
    fn test(&self, state: u64) -> (yes: bool)
        ensures
            yes == self.accepts(state),
    ;
}

/// The goal that is one given state.
pub struct Exactly(pub u64);

impl Goal for Exactly {
    open spec fn accepts(&self, state: u64) -> bool {
        state == self.0
    }

    fn test(&self, state: u64) -> (yes: bool) {
        state == self.0
    }
}

/// The goal that is any state of a list.
pub struct AnyOf(pub Vec<u64>);

impl Goal for AnyOf {
    open spec fn accepts(&self, state: u64) -> bool {
        self.0@.contains(state)
    }

    fn test(&self, state: u64) -> (yes: bool) {
        let mut i: usize = 0;
        while i < self.0.len()
            invariant
                0 <= i <= self.0.len(),
                forall|j: int| 0 <= j < i ==> self.0@[j] != state,
            decreases self.0.len() - i,
        {
            if self.0[i] == state {
                return true;
            }
            i += 1;
        }
        false
    }
}

/// Some accepted state is reached at `d`, and none for less.
pub open spec fn is_goal_distance<G: StateGraph, T: Goal>(
    g: &G,
    sources: Seq<Source>,
    goal: &T,
    d: u64,
) -> bool {
    &&& exists|u: u64| goal_reached(g, sources, goal, u, d as nat)
    &&& forall|x: u64, t: nat| #[trigger] goal_reached(g, sources, goal, x, t) ==> d <= t
}

/// `u` is an accepted state that can be reached at `total`.
pub open spec fn goal_reached<G: StateGraph, T: Goal>(
    g: &G,
    sources: Seq<Source>,
    goal: &T,
    u: u64,
    total: nat,
) -> bool {
    goal.accepts(u) && reaches(g, sources, u, total)
}

/// No accepted state can be reached at a total that fits in 64 bits.
pub open spec fn no_goal_in_reach<G: StateGraph, T: Goal>(
    g: &G,
    sources: Seq<Source>,
    goal: &T,
) -> bool {
    forall|x: u64, t: nat| t <= u64::MAX ==> !#[trigger] goal_reached(g, sources, goal, x, t)
}

/// What a goal query owes: the cheapest total at which any accepted state
/// can be reached, or nothing when none can be at a total that fits in 64 bits.
pub open spec fn answers_goal<G: StateGraph, T: Goal>(
    g: &G,
    sources: Seq<Source>,
    goal: &T,
    found: Option<u64>,
) -> bool {
    match found {
        Some(d) => is_goal_distance(g, sources, goal, d),
        None => no_goal_in_reach(g, sources, goal),
    }
}

/// Two answers to the same goal query are the same answer.
pub proof fn lemma_goal_answer_unique<G: StateGraph, T: Goal>(
    g: &G,
    sources: Seq<Source>,
    goal: &T,
    first: Option<u64>,
    second: Option<u64>,
)
    requires
        answers_goal(g, sources, goal, first),
        answers_goal(g, sources, goal, second),
    ensures
        first == second,
{
    match (first, second) {
        (Some(a), Some(b)) => {
            let ua = choose|u: u64| goal_reached(g, sources, goal, u, a as nat);
            let ub = choose|u: u64| goal_reached(g, sources, goal, u, b as nat);
            assert(goal_reached(g, sources, goal, ua, a as nat));
            assert(goal_reached(g, sources, goal, ub, b as nat));
        },
        (Some(a), None) => {
            let ua = choose|u: u64| goal_reached(g, sources, goal, u, a as nat);
            assert(goal_reached(g, sources, goal, ua, a as nat));
        },
        (None, Some(b)) => {
            let ub = choose|u: u64| goal_reached(g, sources, goal, u, b as nat);
            assert(goal_reached(g, sources, goal, ub, b as nat));
        },
        (None, None) => {},
    }
}

/// A graph written out as a table: state `s` has the edges of row `s`, and a
/// state beyond the table has none.
pub struct TableGraph {
    pub rows: Vec<Vec<Hop>>,
}

impl StateGraph for TableGraph {
    open spec fn wf(&self) -> bool {
        true
    }

    open spec fn edges(&self, state: u64) -> Seq<Hop> {
        if state < self.rows@.len() {
            self.rows@[state as int]@
        } else {
            Seq::empty()
        }
    }

    fn neighbors(&self, state: u64) -> (out: Vec<Hop>) {
        let mut out: Vec<Hop> = Vec::new();
        if state < self.rows.len() as u64 {
            let row = &self.rows[state as usize];
            let mut k: usize = 0;
            while k < row.len()
                invariant
                    0 <= k <= row.len(),
                    out@ == row@.subrange(0, k as int),
                decreases row.len() - k,
            {
                out.push(row[k]);
                assert(out@ =~= row@.subrange(0, k + 1));
                k += 1;
            }
            assert(out@ =~= row@);
        }
        out
    }
}

} // verus!
