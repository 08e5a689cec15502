//! Counting the terminal outcomes of a turn-based game.
//!
//! A state is a sequence of numbers in canonical form. The count of a state
//! is 1 when it is terminal, 0 when it is dead, and otherwise the sum of the
//! counts of the states its moves lead to. The enumerator computes that sum
//! once per state and remembers it.

use crate::table::TranspositionTable;
use crate::text::copy_of;
use vstd::prelude::*;

verus! {

/// The rules of a turn-based game.
pub trait TurnGame {
    /// What must hold of the rules before they are asked anything.
    spec fn wf(&self) -> bool;

    /// The state is an outcome that counts.
    spec fn terminal(&self, state: Seq<i64>) -> bool;

    /// No outcome that counts can follow the state.
    spec fn dead(&self, state: Seq<i64>) -> bool;

    /// The states that the legal moves of the side to move lead to.
    spec fn moves(&self, state: Seq<i64>) -> Seq<Seq<i64>>;

    /// A bound on the number of moves that can still follow the state.
    spec fn depth(&self, state: Seq<i64>) -> nat;

    /// Every move leads to a state with fewer moves left.
    proof fn lemma_moves_descend(&self, state: Seq<i64>, k: int)
        requires
            self.wf(),
            !self.terminal(state),
            !self.dead(state),
            0 <= k < self.moves(state).len(),
        ensures
            self.depth(self.moves(state)[k]) < self.depth(state),
    ;

    /// Decides whether `state` is terminal.
    fn is_terminal(&self, state: &Vec<i64>) -> (yes: bool)
        requires
            self.wf(),
        ensures
            yes == self.terminal(state@),
    ;

    /// Decides whether `state` is dead.
    fn is_dead(&self, state: &Vec<i64>) -> (yes: bool)
        requires
            self.wf(),
        ensures
            yes == self.dead(state@),
    ;

    /// Computes the states that the moves from `state` lead to.
    fn successors(&self, state: &Vec<i64>) -> (out: Vec<Vec<i64>>)
        requires
            self.wf(),
            !self.terminal(state@),
            !self.dead(state@),
        ensures
            out@.len() == self.moves(state@).len(),
            forall|k: int| 0 <= k < out@.len() ==> (#[trigger] out@[k])@ == self.moves(state@)[k],
    ;
}

/// The outcomes below `state`, following at most `fuel` moves.
pub open spec fn outcomes_within<R: TurnGame>(game: &R, state: Seq<i64>, fuel: nat) -> nat
    decreases fuel, 0nat,
{
    if game.terminal(state) {
        1
    } else if game.dead(state) {
        0
    } else if fuel == 0 {
        0
    } else {
        outcomes_among(game, game.moves(state), (fuel - 1) as nat)
    }
}

/// The outcomes below all of `states` together, each with `fuel` moves.
pub open spec fn outcomes_among<R: TurnGame>(game: &R, states: Seq<Seq<i64>>, fuel: nat) -> nat
    decreases fuel, states.len() + 1,
{
    if states.len() == 0 {
        0
    } else {
        outcomes_among(game, states.drop_last(), fuel) + outcomes_within(game, states.last(), fuel)
    }
}

/// The number of terminal outcomes below `state`: what exploring every
/// sequence of moves to its end, remembering nothing, would count.
pub open spec fn outcomes<R: TurnGame>(game: &R, state: Seq<i64>) -> nat {
    outcomes_within(game, state, game.depth(state))
}

/// The sum of the outcome counts of `states`.
pub open spec fn outcomes_sum<R: TurnGame>(game: &R, states: Seq<Seq<i64>>) -> nat
    decreases states.len(),
{
    if states.len() == 0 {
        0
    } else {
        outcomes_sum(game, states.drop_last()) + outcomes(game, states.last())
    }
}

/// Fuel beyond the depth of a state changes nothing.
pub proof fn lemma_fuel_enough<R: TurnGame>(game: &R, state: Seq<i64>, fuel: nat)
    requires
        game.wf(),
        game.depth(state) <= fuel,
    ensures
        outcomes_within(game, state, fuel) == outcomes(game, state),
    decreases fuel, 0nat,
{
    if !game.terminal(state) && !game.dead(state) {
        let next = game.moves(state);
        let d = game.depth(state);
        if next.len() > 0 {
            game.lemma_moves_descend(state, 0);
        }
        if d == 0 {
            assert(next.len() == 0);
            if fuel > 0 {
                assert(outcomes_among(game, next, (fuel - 1) as nat) == 0);
            }
        } else {
            assert forall|k: int| 0 <= k < next.len() implies game.depth(#[trigger] next[k]) <= d
                - 1 by {
                game.lemma_moves_descend(state, k);
            }
            lemma_among_is_sum(game, next, (fuel - 1) as nat);
            lemma_among_is_sum(game, next, (d - 1) as nat);
        }
    }
}

/// With fuel enough for each of them, the outcomes among `states` are the
/// sum of their outcome counts.
pub proof fn lemma_among_is_sum<R: TurnGame>(game: &R, states: Seq<Seq<i64>>, fuel: nat)
    requires
        game.wf(),
        forall|k: int| 0 <= k < states.len() ==> game.depth(#[trigger] states[k]) <= fuel,
    ensures
        outcomes_among(game, states, fuel) == outcomes_sum(game, states),
    decreases fuel, states.len() + 1,
{
    if states.len() > 0 {
        let head = states.drop_last();
        assert forall|k: int| 0 <= k < head.len() implies game.depth(#[trigger] head[k])
            <= fuel by {
            assert(head[k] == states[k]);
        }
        lemma_among_is_sum(game, head, fuel);
        assert(game.depth(states[states.len() - 1]) <= fuel);
        lemma_fuel_enough(game, states.last(), fuel);
    }
}

/// The count of a state that is neither terminal nor dead is the sum of the
/// counts of the states its moves lead to.
pub proof fn lemma_outcomes_unfold<R: TurnGame>(game: &R, state: Seq<i64>)
    requires
        game.wf(),
    ensures
        game.terminal(state) ==> outcomes(game, state) == 1,
        !game.terminal(state) && game.dead(state) ==> outcomes(game, state) == 0,
        !game.terminal(state) && !game.dead(state) ==> outcomes(game, state) == outcomes_sum(
            game,
            game.moves(state),
        ),
{
    if !game.terminal(state) && !game.dead(state) {
        let next = game.moves(state);
        let d = game.depth(state);
        if next.len() == 0 {
            if d > 0 {
                assert(outcomes_among(game, next, (d - 1) as nat) == 0);
            }
        } else {
            game.lemma_moves_descend(state, 0);
            assert forall|k: int| 0 <= k < next.len() implies game.depth(#[trigger] next[k]) <= d
                - 1 by {
                game.lemma_moves_descend(state, k);
            }
            lemma_among_is_sum(game, next, (d - 1) as nat);
        }
    }
}

/// A dead state that is not itself an outcome adds nothing to any count.
pub proof fn lemma_dead_counts_nothing<R: TurnGame>(game: &R, state: Seq<i64>)
    requires
        game.wf(),
        game.dead(state),
        !game.terminal(state),
    ensures
        outcomes(game, state) == 0,
{
}

/// The sum over a prefix of the moves is no more than the sum over all.
pub proof fn lemma_sum_prefix<R: TurnGame>(game: &R, states: Seq<Seq<i64>>, n: int)
    requires
        0 <= n <= states.len(),
    ensures
        outcomes_sum(game, states.take(n)) <= outcomes_sum(game, states),
    decreases states.len(),
{
    if n < states.len() {
        lemma_sum_prefix(game, states.drop_last(), n);
        assert(states.drop_last().take(n) =~= states.take(n));
    } else {
        assert(states.take(n) =~= states);
    }
}

/// A count as it is handed out: the number itself when it fits in 64 bits.
pub open spec fn fitting(n: nat) -> Option<u64> {
    if n <= u64::MAX {
        Some(n as u64)
    } else {
        None
    }
}

/// Everything the table remembers is the true count of a state that was
/// expanded: one that is neither terminal nor dead.
pub open spec fn remembers_truly<R: TurnGame>(game: &R, memo: Map<Seq<i64>, u64>) -> bool {
    forall|state: Seq<i64>| #[trigger]
        memo.contains_key(state) ==> !game.terminal(state) && !game.dead(state) && memo[state]
            == outcomes(game, state)
}

/// An enumeration in progress: the table of counts found so far and the
/// number of states that have been expanded.
pub struct Enumerator {
    table: TranspositionTable,
    expanded: u64,
}

impl Enumerator {
    /// The counts that are remembered.
    pub closed spec fn memo(&self) -> Map<Seq<i64>, u64> {
        self.table@
    }

    /// How many states have been expanded, up to the limit of 64 bits.
    pub closed spec fn expansions(&self) -> u64 {
        self.expanded
    }

    /// What holds of an enumerator for the rules `game` between two calls.
    pub closed spec fn inv<R: TurnGame>(&self, game: &R) -> bool {
        self.table.wf() && remembers_truly(game, self.table@)
    }

    /// An enumerator that has seen nothing; it serves any rules.
    pub fn new<R: TurnGame>(game: &R) -> (fresh: Enumerator)
        ensures
            fresh.memo() == Map::<Seq<i64>, u64>::empty(),
            fresh.expansions() == 0,
            fresh.inv(game),
    {
        Enumerator { table: TranspositionTable::new(), expanded: 0 }
    }

    /// How many states have been expanded so far.
    pub fn expanded(&self) -> (n: u64)
        ensures
            n == self.expansions(),
    {
        self.expanded
    }

    /// The count remembered for `state`, if it has been expanded.
    pub fn remembered<R: TurnGame>(&self, game: &R, state: &Vec<i64>) -> (found: Option<u64>)
        requires
            self.inv(game),
        ensures
            found == (if self.memo().contains_key(state@) {
                Some(self.memo()[state@])
            } else {
                None
            }),
            found is Some ==> found == Some(outcomes(game, state@) as u64) && !game.dead(state@)
                && !game.terminal(state@),
    {
        self.table.get(state)
    }

    /// The number of terminal outcomes below `state`, or `None` when that
    /// number does not fit in 64 bits.
    ///
    /// A state that is remembered, terminal or dead is answered at once and
    /// is not expanded; a remembered state is answered from the table. Any
    /// other state is expanded, and its count, where it fits, is
    /// remembered from then on.
    pub fn count<R: TurnGame>(&mut self, game: &R, state: &Vec<i64>) -> (total: Option<u64>)
        requires
            game.wf(),
            old(self).inv(game),
        ensures
            final(self).inv(game),
            total == fitting(outcomes(game, state@)),
            old(self).memo().submap_of(final(self).memo()),
            old(self).expansions() <= final(self).expansions(),
            old(self).memo().contains_key(state@) || game.terminal(state@) || game.dead(state@)
                ==> final(self).expansions() == old(self).expansions() && final(self).memo()
                == old(self).memo(),
            old(self).memo().contains_key(state@) ==> total == Some(old(self).memo()[state@]),
            !old(self).memo().contains_key(state@) && !game.terminal(state@) && !game.dead(state@)
                && total is Some ==> final(self).memo().contains_pair(state@, total.unwrap()),
        decreases game.depth(state@),
    {
        proof {
            lemma_outcomes_unfold(game, state@);
        }
        match self.table.get(state) {
            Some(known) => {
                return Some(known);
            },
            None => {},
        }
        if game.is_terminal(state) {
            return Some(1);
        }
        if game.is_dead(state) {
            return Some(0);
        }
        let next = game.successors(state);
        if self.expanded < u64::MAX {
            self.expanded = self.expanded + 1;
        }
        let ghost moves = game.moves(state@);
        let mut sum: u64 = 0;
        let mut k: usize = 0;
        while k < next.len()
            invariant
                0 <= k <= next.len(),
                game.wf(),
                self.inv(game),
                moves == game.moves(state@),
                !game.terminal(state@),
                !game.dead(state@),
                next@.len() == moves.len(),
                forall|j: int| 0 <= j < next@.len() ==> (#[trigger] next@[j])@ == moves[j],
                sum == outcomes_sum(game, moves.take(k as int)),
                outcomes(game, state@) == outcomes_sum(game, moves),
                !old(self).memo().contains_key(state@),
                old(self).memo().submap_of(self.memo()),
                old(self).expansions() <= self.expansions(),
            decreases next.len() - k,
        {
            proof {
                game.lemma_moves_descend(state@, k as int);
                lemma_sum_prefix(game, moves, k + 1);
                assert(moves.take(k + 1).drop_last() =~= moves.take(k as int));
                assert(moves.take(k + 1).last() == moves[k as int]);
            }
            let ghost memo_before = self.memo();
            let below = self.count(game, &next[k]);
            assert(old(self).memo().submap_of(self.memo())) by {
                assert forall|key: Seq<i64>| #[trigger]
                    old(self).memo().dom().contains(key) implies self.memo().dom().contains(key)
                    && old(self).memo()[key] == self.memo()[key] by {
                    assert(memo_before.dom().contains(key));
                }
            }
            match below {
                None => {
                    return None;
                },
                Some(c) => {
                    match sum.checked_add(c) {
                        None => {
                            return None;
                        },
                        Some(t) => {
                            sum = t;
                        },
                    }
                },
            }
            k += 1;
        }
        proof {
            assert(moves.take(k as int) =~= moves);
        }
        if self.table.get(state).is_none() {
            let kept = copy_of(state);
            self.table.insert(kept, sum);
        }
        Some(sum)
    }
}

/// The number of terminal outcomes that can follow `initial` under the
/// rules `game`, or `None` when that number does not fit in 64 bits.
pub fn count_terminal_states<R: TurnGame>(initial: &Vec<i64>, game: &R) -> (total: Option<u64>)
    requires
        game.wf(),
    ensures
        total == fitting(outcomes(game, initial@)),
{
    let mut walk = Enumerator::new(game);
    walk.count(game, initial)
}

/// How a state of a `TableGame` is marked.
#[derive(Clone, Copy, Debug, PartialEq, Eq, Structural)]
pub enum Mark {
    /// Play goes on from here.
    Open,
    /// An outcome that counts.
    Terminal,
    /// No outcome that counts can follow.
    Dead,
}

/// A game written out as a table. State `[s]` stands for row `s`; its moves
/// lead to the rows listed for it, all of them further down the table.
pub struct TableGame {
    pub marks: Vec<Mark>,
    pub moves: Vec<Vec<u64>>,
}

impl TableGame {
    /// The row that `state` stands for, if it stands for one.
    pub open spec fn row(&self, state: Seq<i64>) -> Option<int> {
        if state.len() == 1 && 0 <= state[0] < self.marks@.len() {
            Some(state[0] as int)
        } else {
            None
        }
    }

    /// The state that stands for row `r`.
    pub open spec fn state_of(r: u64) -> Seq<i64> {
        seq![r as i64]
    }

    /// Checks that the table is one of a game: as many move lists as marks,
    /// and every move from a row to a later row.
    pub fn check(&self) -> (ok: bool)
        ensures
            ok == self.wf(),
    {
        if self.marks.len() != self.moves.len() {
            return false;
        }
        if self.marks.len() > 0x7fff_ffff {
            return false;
        }
        let mut r: usize = 0;
        while r < self.moves.len()
            invariant
                0 <= r <= self.moves.len(),
                self.marks@.len() == self.moves@.len(),
                self.marks@.len() <= 0x7fff_ffff,
                forall|a: int, b: int|
                    0 <= a < r && 0 <= b < self.moves@[a]@.len() ==> a < (
                    #[trigger] self.moves@[a]@[b]) < self.marks@.len(),
            decreases self.moves.len() - r,
        {
            let row = &self.moves[r];
            let mut b: usize = 0;
            while b < row.len()
                invariant
                    0 <= b <= row.len(),
                    r < self.moves@.len(),
                    *row == self.moves@[r as int],
                    forall|c: int| 0 <= c < b ==> r < (#[trigger] row@[c]) < self.marks@.len(),
                decreases row.len() - b,
            {
                let to = row[b];
                if to <= r as u64 || to >= self.marks.len() as u64 {
                    assert(!(r < self.moves@[r as int]@[b as int] < self.marks@.len()));
                    return false;
                }
                b += 1;
            }
            r += 1;
        }
        true
    }
}

impl TurnGame for TableGame {
    open spec fn wf(&self) -> bool {
        &&& self.marks@.len() == self.moves@.len()
        &&& self.marks@.len() <= 0x7fff_ffff
        &&& forall|a: int, b: int|
            0 <= a < self.moves@.len() && 0 <= b < self.moves@[a]@.len() ==> a < (
            #[trigger] self.moves@[a]@[b]) < self.marks@.len()
    }

    open spec fn terminal(&self, state: Seq<i64>) -> bool {
        match self.row(state) {
            Some(r) => self.marks@[r] == Mark::Terminal,
            None => false,
        }
    }

    open spec fn dead(&self, state: Seq<i64>) -> bool {
        match self.row(state) {
            Some(r) => self.marks@[r] == Mark::Dead,
            None => true,
        }
    }

    open spec fn moves(&self, state: Seq<i64>) -> Seq<Seq<i64>> {
        match self.row(state) {
            Some(r) => Seq::new(
                self.moves@[r]@.len(),
                |k: int| TableGame::state_of(self.moves@[r]@[k]),
            ),
            None => Seq::empty(),
        }
    }

    open spec fn depth(&self, state: Seq<i64>) -> nat {
        match self.row(state) {
            Some(r) => (self.marks@.len() - r) as nat,
            None => 0,
        }
    }

    proof fn lemma_moves_descend(&self, state: Seq<i64>, k: int) {
        let r = self.row(state).unwrap();
        let to = self.moves@[r]@[k];
        assert(TableGame::state_of(to)[0] == to as i64);
    }

    fn is_terminal(&self, state: &Vec<i64>) -> (yes: bool) {
        if state.len() == 1 && 0 <= state[0] && state[0] < self.marks.len() as i64 {
            self.marks[state[0] as usize] == Mark::Terminal
        } else {
            false
        }
    }

    fn is_dead(&self, state: &Vec<i64>) -> (yes: bool) {
        if state.len() == 1 && 0 <= state[0] && state[0] < self.marks.len() as i64 {
            self.marks[state[0] as usize] == Mark::Dead
        } else {
            true
        }
    }

    fn successors(&self, state: &Vec<i64>) -> (out: Vec<Vec<i64>>) {
        let row = &self.moves[state[0] as usize];
        let mut out: Vec<Vec<i64>> = Vec::new();
        let mut k: usize = 0;
        while k < row.len()
            invariant
                0 <= k <= row.len(),
                self.wf(),
                self.row(state@) == Some(state@[0] as int),
                *row == self.moves@[state@[0] as int],
                out@.len() == k,
                forall|j: int|
                    0 <= j < k ==> (#[trigger] out@[j])@ == TableGame::state_of(row@[j]),
            decreases row.len() - k,
        {
            let to = row[k];
            assert(to < self.marks@.len());
            let mut next: Vec<i64> = Vec::new();
            next.push(to as i64);
            assert(next@ =~= TableGame::state_of(to));
            out.push(next);
            k += 1;
        }
        out
    }
}

} // verus!
