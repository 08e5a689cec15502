//! A dragon hunting sheep on a board, counted move by move.
//!
//! The dragon moves like a knight and eats the sheep it lands on, unless
//! the square is a shelter. The sheep move one square down the board, one
//! sheep a turn, and never onto the dragon outside a shelter; when no sheep
//! can move the turn passes. A game is won when no sheep is left and lost
//! when every sheep left has walked off the board.
//!
//! A position is written as a sequence of numbers: whose turn it is (1 for
//! the dragon), the dragon's square, then the squares of the sheep.

use crate::enumerate::{count_terminal_states, fitting, outcomes, Enumerator, TurnGame};
use crate::graph::{Hop, Source, StateGraph};
use crate::point::{fits_i32, key_of, point_of, Point, Square};
use crate::search::{distances_within, in_range};
use crate::text::{chars_of, copy_of, lines, lines_of, pieces_view};
use vstd::prelude::*;

verus! {

broadcast use vstd::std_specs::hash::group_hash_axioms;

/// A position of the game.
pub struct State {
    pub dragon: Point,
    pub sheep: Vec<Point>,
    pub dragons_move: bool,
}

/// The board: its size, its shelters and the position play starts from.
pub struct Board {
    pub width: i32,
    pub height: i32,
    pub shelters: Vec<Point>,
    pub init_state: State,
}

/// The knight's move number `k`, of eight.
pub open spec fn knight(k: int) -> Square {
    if k == 0 {
        (2, 1)
    } else if k == 1 {
        (2, -1)
    } else if k == 2 {
        (-2, 1)
    } else if k == 3 {
        (-2, -1)
    } else if k == 4 {
        (1, 2)
    } else if k == 5 {
        (1, -2)
    } else if k == 6 {
        (-1, 2)
    } else {
        (-1, -2)
    }
}

/// The knight's move number `k`.
pub fn knight_move(k: usize) -> (step: (i64, i64))
    requires
        k < 8,
    ensures
        step.0 == knight(k as int).0,
        step.1 == knight(k as int).1,
{
    if k == 0 {
        (2, 1)
    } else if k == 1 {
        (2, -1)
    } else if k == 2 {
        (-2, 1)
    } else if k == 3 {
        (-2, -1)
    } else if k == 4 {
        (1, 2)
    } else if k == 5 {
        (1, -2)
    } else if k == 6 {
        (-1, 2)
    } else {
        (-1, -2)
    }
}

/// The code has the shape of a position.
pub open spec fn shaped(code: Seq<i64>) -> bool {
    code.len() >= 3 && (code.len() - 3) % 2 == 0 && (code[0] == 0 || code[0] == 1)
}

/// How many sheep the code holds.
pub open spec fn herd_size(code: Seq<i64>) -> int {
    (code.len() - 3) / 2
}

/// The squares of the sheep of the code.
pub open spec fn herd(code: Seq<i64>) -> Seq<Square> {
    Seq::new(herd_size(code) as nat, |i: int| (code[3 + 2 * i] as int, code[4 + 2 * i] as int))
}

/// The dragon's square.
pub open spec fn dragon_of(code: Seq<i64>) -> Square {
    (code[1] as int, code[2] as int)
}

/// The first place of `squares` that holds `p`.
pub open spec fn first_at(squares: Seq<Square>, p: Square) -> Option<int>
    decreases squares.len(),
{
    if squares.len() == 0 {
        None
    } else if squares[0] == p {
        Some(0)
    } else {
        match first_at(squares.drop_first(), p) {
            Some(i) => Some(i + 1),
            None => None,
        }
    }
}

/// Place `i` is the first that holds `p`.
pub proof fn lemma_first_at_found(squares: Seq<Square>, p: Square, i: int)
    requires
        0 <= i < squares.len(),
        squares[i] == p,
        forall|j: int| 0 <= j < i ==> squares[j] != p,
    ensures
        first_at(squares, p) == Some(i),
    decreases squares.len(),
{
    if i > 0 {
        let rest = squares.drop_first();
        assert forall|j: int| 0 <= j < i - 1 implies rest[j] != p by {
            assert(rest[j] == squares[j + 1]);
        }
        lemma_first_at_found(rest, p, i - 1);
    }
}

/// No place holds `p`.
pub proof fn lemma_first_at_none(squares: Seq<Square>, p: Square)
    requires
        forall|j: int| 0 <= j < squares.len() ==> squares[j] != p,
    ensures
        first_at(squares, p).is_none(),
    decreases squares.len(),
{
    if squares.len() > 0 {
        let rest = squares.drop_first();
        assert forall|j: int| 0 <= j < rest.len() implies rest[j] != p by {
            assert(rest[j] == squares[j + 1]);
        }
        lemma_first_at_none(rest, p);
    }
}

/// What `first_at` finds holds `p`.
pub proof fn lemma_first_at_holds(squares: Seq<Square>, p: Square)
    requires
        first_at(squares, p) is Some,
    ensures
        0 <= first_at(squares, p).unwrap() < squares.len(),
        squares[first_at(squares, p).unwrap()] == p,
    decreases squares.len(),
{
    if squares.len() > 0 && squares[0] != p {
        lemma_first_at_holds(squares.drop_first(), p);
    }
}

/// A sequence of none or one.
pub open spec fn maybe(code: Option<Seq<i64>>) -> Seq<Seq<i64>> {
    match code {
        Some(c) => seq![c],
        None => Seq::empty(),
    }
}

impl State {
    /// The position written as numbers.
    pub open spec fn code(&self) -> Seq<i64> {
        Seq::new(
            (3 + 2 * self.sheep@.len()) as nat,
            |i: int|
                if i == 0 {
                    if self.dragons_move {
                        1i64
                    } else {
                        0i64
                    }
                } else if i == 1 {
                    self.dragon.x as i64
                } else if i == 2 {
                    self.dragon.y as i64
                } else if (i - 3) % 2 == 0 {
                    self.sheep@[(i - 3) / 2].x as i64
                } else {
                    self.sheep@[(i - 3) / 2].y as i64
                },
        )
    }

    /// Writes the position as numbers.
    pub fn encode(&self) -> (code: Vec<i64>)
        ensures
            code@ == self.code(),
            shaped(code@),
    {
        let mut code: Vec<i64> = Vec::new();
        code.push(if self.dragons_move {
            1
        } else {
            0
        });
        code.push(self.dragon.x as i64);
        code.push(self.dragon.y as i64);
        let mut i: usize = 0;
        while i < self.sheep.len()
            invariant
                0 <= i <= self.sheep.len(),
                code@.len() == 3 + 2 * i,
                forall|j: int| 0 <= j < code@.len() ==> code@[j] == self.code()[j],
            decreases self.sheep.len() - i,
        {
            code.push(self.sheep[i].x as i64);
            code.push(self.sheep[i].y as i64);
            i += 1;
        }
        assert(code@ =~= self.code());
        code
    }
}

impl Board {
    /// The square lies on the board.
    pub open spec fn inside(&self, p: Square) -> bool {
        0 <= p.0 < self.width && 0 <= p.1 < self.height
    }

    /// The square is a shelter.
    pub open spec fn sheltered(&self, p: Square) -> bool {
        exists|k: int|
            0 <= k < self.shelters@.len() && (#[trigger] self.shelters@[k]).x == p.0
                && self.shelters@[k].y == p.1
    }

    /// Whether the point lies on the board.
    pub fn inside_board(&self, pos: &Point) -> (yes: bool)
        ensures
            yes == self.inside((pos.x as int, pos.y as int)),
    {
        pos.x >= 0 && pos.x < self.width && pos.y >= 0 && pos.y < self.height
    }

    /// Whether the square lies on the board.
    fn on_board(&self, x: i128, y: i128) -> (yes: bool)
        ensures
            yes == self.inside((x as int, y as int)),
    {
        x >= 0 && x < self.width as i128 && y >= 0 && y < self.height as i128
    }

    /// Whether the square is a shelter.
    fn is_shelter(&self, x: i64, y: i64) -> (yes: bool)
        ensures
            yes == self.sheltered((x as int, y as int)),
    {
        let mut k: usize = 0;
        while k < self.shelters.len()
            invariant
                0 <= k <= self.shelters.len(),
                forall|j: int|
                    0 <= j < k ==> !((#[trigger] self.shelters@[j]).x == x && self.shelters@[j].y
                        == y),
            decreases self.shelters.len() - k,
        {
            if self.shelters[k].x as i64 == x && self.shelters[k].y as i64 == y {
                return true;
            }
            k += 1;
        }
        false
    }

    /// The position after the dragon has moved to `to`: it is the sheep's
    /// turn, and the first sheep on `to` is gone unless `to` is a shelter.
    pub open spec fn after_dragon(&self, code: Seq<i64>, to: Square) -> Seq<i64> {
        let moved = code.update(0, 0i64).update(1, to.0 as i64).update(2, to.1 as i64);
        if self.sheltered(to) {
            moved
        } else {
            match first_at(herd(code), to) {
                Some(i) => moved.take(3 + 2 * i) + moved.skip(5 + 2 * i),
                None => moved,
            }
        }
    }

    /// Where knight's move `k` takes the dragon.
    pub open spec fn landing(code: Seq<i64>, k: int) -> Square {
        (dragon_of(code).0 + knight(k).0, dragon_of(code).1 + knight(k).1)
    }

    /// The position after knight's move `k`, if it stays on the board.
    pub open spec fn dragon_move(&self, code: Seq<i64>, k: int) -> Option<Seq<i64>> {
        if self.inside(Board::landing(code, k)) {
            Some(self.after_dragon(code, Board::landing(code, k)))
        } else {
            None
        }
    }

    /// The positions after the first `upto` knight's moves.
    pub open spec fn dragon_moves(&self, code: Seq<i64>, upto: nat) -> Seq<Seq<i64>>
        decreases upto,
    {
        if upto == 0 {
            Seq::empty()
        } else {
            self.dragon_moves(code, (upto - 1) as nat) + maybe(
                self.dragon_move(code, upto - 1),
            )
        }
    }

    /// Sheep `i` is on the board and the square below it is free for it.
    pub open spec fn can_step(&self, code: Seq<i64>, i: int) -> bool {
        let at = herd(code)[i];
        let below = (at.0, at.1 + 1);
        self.inside(at) && (below != dragon_of(code) || self.sheltered(below))
    }

    /// The position after sheep `i` has stepped down, if it can.
    pub open spec fn sheep_move(&self, code: Seq<i64>, i: int) -> Option<Seq<i64>> {
        if self.can_step(code, i) {
            Some(code.update(0, 1i64).update(4 + 2 * i, (code[4 + 2 * i] + 1) as i64))
        } else {
            None
        }
    }

    /// The positions after a step of each of the first `upto` sheep.
    pub open spec fn sheep_moves(&self, code: Seq<i64>, upto: nat) -> Seq<Seq<i64>>
        decreases upto,
    {
        if upto == 0 {
            Seq::empty()
        } else {
            self.sheep_moves(code, (upto - 1) as nat) + maybe(self.sheep_move(code, upto - 1))
        }
    }

    /// The positions that one move leads to.
    pub open spec fn next_codes(&self, code: Seq<i64>) -> Seq<Seq<i64>> {
        if code[0] == 1 {
            self.dragon_moves(code, 8)
        } else {
            let stepped = self.sheep_moves(code, herd_size(code) as nat);
            if stepped.len() == 0 {
                seq![code.update(0, 1i64)]
            } else {
                stepped
            }
        }
    }

    /// No sheep is left.
    pub open spec fn won(&self, code: Seq<i64>) -> bool {
        shaped(code) && herd_size(code) == 0
    }

    /// The code is no position, or every sheep left is off the board.
    pub open spec fn lost(&self, code: Seq<i64>) -> bool {
        !shaped(code) || (herd_size(code) > 0 && forall|i: int|
            0 <= i < herd_size(code) ==> !self.inside(#[trigger] herd(code)[i]))
    }
}

/// The codes of a list of positions.
pub open spec fn codes_view(codes: Seq<Vec<i64>>) -> Seq<Seq<i64>> {
    Seq::new(codes.len(), |k: int| codes[k]@)
}

/// The number of the first sheep on the square, if there is one.
fn first_sheep_at(code: &Vec<i64>, x: i64, y: i64) -> (found: Option<usize>)
    requires
        shaped(code@),
    ensures
        match found {
            Some(i) => first_at(herd(code@), (x as int, y as int)) == Some(i as int) && i
                < herd_size(code@),
            None => first_at(herd(code@), (x as int, y as int)).is_none(),
        },
{
    let n = (code.len() - 3) / 2;
    let mut i: usize = 0;
    while i < n
        invariant
            0 <= i <= n,
            n == herd_size(code@),
            code@.len() == 3 + 2 * n,
            code@.len() <= usize::MAX,
            shaped(code@),
            forall|j: int| 0 <= j < i ==> herd(code@)[j] != (x as int, y as int),
        decreases n - i,
    {
        if code[3 + 2 * i] == x && code[4 + 2 * i] == y {
            proof {
                lemma_first_at_found(herd(code@), (x as int, y as int), i as int);
            }
            return Some(i);
        }
        i += 1;
    }
    proof {
        lemma_first_at_none(herd(code@), (x as int, y as int));
    }
    None
}

impl Board {
    /// Whether no sheep is left.
    fn is_won(&self, code: &Vec<i64>) -> (yes: bool)
        ensures
            yes == self.won(code@),
    {
        code.len() == 3 && (code[0] == 0 || code[0] == 1)
    }

    /// Whether the code is no position or every sheep left is off the board.
    fn is_lost(&self, code: &Vec<i64>) -> (yes: bool)
        ensures
            yes == self.lost(code@),
    {
        if code.len() < 3 || (code.len() - 3) % 2 != 0 || !(code[0] == 0 || code[0] == 1) {
            return true;
        }
        let n = (code.len() - 3) / 2;
        if n == 0 {
            return false;
        }
        let mut i: usize = 0;
        while i < n
            invariant
                0 <= i <= n,
                n == herd_size(code@),
                code@.len() == 3 + 2 * n,
                code@.len() <= usize::MAX,
            code@.len() <= usize::MAX,
                shaped(code@),
                forall|j: int| 0 <= j < i ==> !self.inside(#[trigger] herd(code@)[j]),
            decreases n - i,
        {
            if self.on_board(code[3 + 2 * i] as i128, code[4 + 2 * i] as i128) {
                assert(self.inside(herd(code@)[i as int]));
                return false;
            }
            i += 1;
        }
        true
    }

    /// The positions that the dragon's moves lead to.
    fn dragon_successors(&self, code: &Vec<i64>) -> (out: Vec<Vec<i64>>)
        requires
            shaped(code@),
        ensures
            codes_view(out@) == self.dragon_moves(code@, 8),
    {
        let mut out: Vec<Vec<i64>> = Vec::new();
        let mut k: usize = 0;
        while k < 8
            invariant
                0 <= k <= 8,
                shaped(code@),
                codes_view(out@) == self.dragon_moves(code@, k as nat),
            decreases 8 - k,
        {
            let step = knight_move(k);
            let nx: i128 = code[1] as i128 + step.0 as i128;
            let ny: i128 = code[2] as i128 + step.1 as i128;
            let ghost before = codes_view(out@);
            if self.on_board(nx, ny) {
                let tx = nx as i64;
                let ty = ny as i64;
                let mut next = copy_of(code);
                next.set(0, 0);
                next.set(1, tx);
                next.set(2, ty);
                let ghost moved = next@;
                if !self.is_shelter(tx, ty) {
                    match first_sheep_at(code, tx, ty) {
                        Some(i) => {
                            let size = code.len();
                            assert(5 + 2 * i <= size);
                            next.remove(3 + 2 * i);
                            next.remove(3 + 2 * i);
                            assert(next@ =~= moved.take(3 + 2 * i) + moved.skip(5 + 2 * i));
                        },
                        None => {},
                    }
                }
                assert(next@ == self.after_dragon(code@, Board::landing(code@, k as int)));
                out.push(next);
                assert(codes_view(out@) =~= before + maybe(self.dragon_move(code@, k as int)));
            } else {
                assert(codes_view(out@) =~= before + maybe(self.dragon_move(code@, k as int)));
            }
            k += 1;
        }
        out
    }

    /// The positions that the sheep's moves lead to, the pass among them.
    fn sheep_successors(&self, code: &Vec<i64>) -> (out: Vec<Vec<i64>>)
        requires
            shaped(code@),
        ensures
            codes_view(out@) == (if self.sheep_moves(code@, herd_size(code@) as nat).len() == 0 {
                seq![code@.update(0, 1i64)]
            } else {
                self.sheep_moves(code@, herd_size(code@) as nat)
            }),
    {
        let n = (code.len() - 3) / 2;
        let mut out: Vec<Vec<i64>> = Vec::new();
        let mut i: usize = 0;
        while i < n
            invariant
                0 <= i <= n,
                n == herd_size(code@),
                code@.len() == 3 + 2 * n,
                code@.len() <= usize::MAX,
            code@.len() <= usize::MAX,
                shaped(code@),
                codes_view(out@) == self.sheep_moves(code@, i as nat),
            decreases n - i,
        {
            let x = code[3 + 2 * i];
            let y = code[4 + 2 * i];
            let ghost before = codes_view(out@);
            assert(herd(code@)[i as int] == (x as int, y as int));
            let mut steps = false;
            if self.on_board(x as i128, y as i128) {
                if !(x == code[1] && y + 1 == code[2]) || self.is_shelter(x, y + 1) {
                    steps = true;
                }
            }
            assert(steps == self.can_step(code@, i as int));
            if steps {
                let mut next = copy_of(code);
                next.set(0, 1);
                next.set(4 + 2 * i, y + 1);
                out.push(next);
            }
            assert(codes_view(out@) =~= before + maybe(self.sheep_move(code@, i as int)));
            i += 1;
        }
        if out.len() == 0 {
            let mut next = copy_of(code);
            next.set(0, 1);
            out.push(next);
            assert(codes_view(out@) =~= seq![code@.update(0, 1i64)]);
        }
        out
    }
}

impl Board {
    /// The steps a sheep on `p` can still take before it leaves the board.
    pub open spec fn left_to_walk(&self, p: Square) -> nat {
        if self.inside(p) {
            (self.height - p.1) as nat
        } else {
            0
        }
    }

    /// The steps that all the sheep together can still take.
    pub open spec fn walk_sum(&self, squares: Seq<Square>) -> nat
        decreases squares.len(),
    {
        if squares.len() == 0 {
            0
        } else {
            self.walk_sum(squares.drop_last()) + self.left_to_walk(squares.last())
        }
    }

    /// No sheep can step.
    pub open spec fn stuck(&self, code: Seq<i64>) -> bool {
        forall|i: int| 0 <= i < herd_size(code) ==> !#[trigger] self.can_step(code, i)
    }

    /// A bound on the moves that can still follow: four for every step a
    /// sheep can still take, and a few for the turn at hand.
    pub open spec fn moves_left(&self, code: Seq<i64>) -> nat {
        if !shaped(code) {
            0
        } else {
            4 * self.walk_sum(herd(code)) + (if code[0] == 0 {
                if self.stuck(code) {
                    2nat
                } else {
                    0nat
                }
            } else {
                if self.stuck(code) {
                    1nat
                } else {
                    3nat
                }
            })
        }
    }

    /// Moving one sheep changes the sum by what that sheep gains or loses.
    pub proof fn lemma_walk_update(&self, squares: Seq<Square>, i: int, p: Square)
        requires
            0 <= i < squares.len(),
        ensures
            self.walk_sum(squares.update(i, p)) + self.left_to_walk(squares[i]) == self.walk_sum(
                squares,
            ) + self.left_to_walk(p),
        decreases squares.len(),
    {
        let changed = squares.update(i, p);
        if i == squares.len() - 1 {
            assert(changed.drop_last() =~= squares.drop_last());
        } else {
            self.lemma_walk_update(squares.drop_last(), i, p);
            assert(changed.drop_last() =~= squares.drop_last().update(i, p));
        }
    }

    /// Taking one sheep away takes its steps out of the sum.
    pub proof fn lemma_walk_remove(&self, squares: Seq<Square>, i: int)
        requires
            0 <= i < squares.len(),
        ensures
            self.walk_sum(squares.remove(i)) + self.left_to_walk(squares[i]) == self.walk_sum(
                squares,
            ),
        decreases squares.len(),
    {
        let fewer = squares.remove(i);
        if i == squares.len() - 1 {
            assert(fewer =~= squares.drop_last());
        } else {
            self.lemma_walk_remove(squares.drop_last(), i);
            assert(fewer.drop_last() =~= squares.drop_last().remove(i));
            assert(fewer.last() == squares.last());
        }
    }

    /// Every position among the sheep's moves comes from a sheep that can step.
    pub proof fn lemma_sheep_member(&self, code: Seq<i64>, upto: nat, k: int) -> (i: int)
        requires
            0 <= k < self.sheep_moves(code, upto).len(),
        ensures
            0 <= i < upto,
            self.can_step(code, i),
            self.sheep_moves(code, upto)[k] == self.sheep_move(code, i).unwrap(),
        decreases upto,
    {
        let before = self.sheep_moves(code, (upto - 1) as nat);
        if k < before.len() {
            self.lemma_sheep_member(code, (upto - 1) as nat, k)
        } else {
            upto - 1
        }
    }

    /// The sheep have no move exactly when no sheep can step.
    pub proof fn lemma_sheep_none(&self, code: Seq<i64>, upto: nat)
        ensures
            self.sheep_moves(code, upto).len() == 0 <==> forall|i: int|
                0 <= i < upto ==> !#[trigger] self.can_step(code, i),
        decreases upto,
    {
        if upto > 0 {
            self.lemma_sheep_none(code, (upto - 1) as nat);
            if self.can_step(code, upto - 1) {
                assert(self.sheep_moves(code, upto).len() > 0);
            }
        }
    }

    /// Every position among the dragon's moves comes from a knight's move
    /// that stays on the board.
    pub proof fn lemma_dragon_member(&self, code: Seq<i64>, upto: nat, k: int) -> (j: int)
        requires
            0 <= k < self.dragon_moves(code, upto).len(),
        ensures
            0 <= j < upto,
            self.inside(Board::landing(code, j)),
            self.dragon_moves(code, upto)[k] == self.after_dragon(code, Board::landing(code, j)),
        decreases upto,
    {
        let before = self.dragon_moves(code, (upto - 1) as nat);
        if k < before.len() {
            self.lemma_dragon_member(code, (upto - 1) as nat, k)
        } else {
            upto - 1
        }
    }

    /// A step of a sheep leaves fewer moves.
    proof fn lemma_step_descends(&self, code: Seq<i64>, i: int)
        requires
            shaped(code),
            code[0] == 0,
            0 <= i < herd_size(code),
            self.can_step(code, i),
        ensures
            self.moves_left(self.sheep_move(code, i).unwrap()) < self.moves_left(code),
    {
        let next = self.sheep_move(code, i).unwrap();
        let at = herd(code)[i];
        let below = (at.0, at.1 + 1);
        assert(herd(next) =~= herd(code).update(i, below));
        self.lemma_walk_update(herd(code), i, below);
        assert(!self.stuck(code));
    }

    /// A pass leaves fewer moves.
    proof fn lemma_pass_descends(&self, code: Seq<i64>)
        requires
            shaped(code),
            code[0] == 0,
            self.stuck(code),
        ensures
            self.moves_left(code.update(0, 1i64)) < self.moves_left(code),
    {
        let next = code.update(0, 1i64);
        assert(herd(next) =~= herd(code));
        assert forall|i: int| 0 <= i < herd_size(next) implies !#[trigger] self.can_step(
            next,
            i,
        ) by {
            assert(!self.can_step(code, i));
        }
    }

    /// A move of the dragon leaves fewer moves.
    proof fn lemma_dragon_descends(&self, code: Seq<i64>, j: int)
        requires
            shaped(code),
            code[0] == 1,
            !self.lost(code),
            herd_size(code) > 0,
            0 <= j < 8,
            self.inside(Board::landing(code, j)),
        ensures
            self.moves_left(self.after_dragon(code, Board::landing(code, j))) < self.moves_left(
                code,
            ),
    {
        let to = Board::landing(code, j);
        let next = self.after_dragon(code, to);
        let moved = code.update(0, 0i64).update(1, to.0 as i64).update(2, to.1 as i64);
        assert(herd(moved) =~= herd(code));
        let eaten = !self.sheltered(to) && first_at(herd(code), to) is Some;
        if eaten {
            let i = first_at(herd(code), to).unwrap();
            lemma_first_at_holds(herd(code), to);
            assert(herd(next) =~= herd(code).remove(i));
            self.lemma_walk_remove(herd(code), i);
            if self.stuck(code) {
                assert(!self.can_step(code, i));
            }
        } else {
            assert(next == moved);
            if self.stuck(code) {
                let w = choose|w: int| 0 <= w < herd_size(code) && self.inside(herd(code)[w]);
                assert(!self.can_step(code, w));
                assert(herd(next)[w] == herd(code)[w]);
                assert(self.can_step(next, w));
            }
        }
    }
}

impl TurnGame for Board {
    open spec fn wf(&self) -> bool {
        true
    }

    open spec fn terminal(&self, state: Seq<i64>) -> bool {
        self.won(state)
    }

    open spec fn dead(&self, state: Seq<i64>) -> bool {
        self.lost(state)
    }

    open spec fn moves(&self, state: Seq<i64>) -> Seq<Seq<i64>> {
        self.next_codes(state)
    }

    open spec fn depth(&self, state: Seq<i64>) -> nat {
        self.moves_left(state)
    }

    proof fn lemma_moves_descend(&self, state: Seq<i64>, k: int) {
        if state[0] == 1 {
            let j = self.lemma_dragon_member(state, 8, k);
            self.lemma_dragon_descends(state, j);
        } else {
            let n = herd_size(state) as nat;
            self.lemma_sheep_none(state, n);
            if self.sheep_moves(state, n).len() == 0 {
                self.lemma_pass_descends(state);
            } else {
                let i = self.lemma_sheep_member(state, n, k);
                self.lemma_step_descends(state, i);
            }
        }
    }

    fn is_terminal(&self, state: &Vec<i64>) -> (yes: bool) {
        self.is_won(state)
    }

    fn is_dead(&self, state: &Vec<i64>) -> (yes: bool) {
        self.is_lost(state)
    }

    fn successors(&self, state: &Vec<i64>) -> (out: Vec<Vec<i64>>) {
        let out = if state[0] == 1 {
            self.dragon_successors(state)
        } else {
            self.sheep_successors(state)
        };
        assert(codes_view(out@) == self.next_codes(state@));
        assert forall|k: int| 0 <= k < out@.len() implies (#[trigger] out@[k])@ == self.moves(
            state@,
        )[k] by {
            assert(codes_view(out@)[k] == out@[k]@);
        }
        out
    }
}

impl Board {
    /// The number of move sequences from `state` at the end of which the
    /// dragon has eaten every sheep, or `None` when that number does not
    /// fit in 64 bits. Counts found on the way are remembered in `memo`:
    /// what it held stays, and the count of `state`, where it fits, is
    /// added. A state that is remembered is answered from `memo`; such a
    /// state, and one that is won or lost, leaves `memo` and its
    /// count of expanded states as they were.
    pub fn count_move_seqs(&self, state: &State, memo: &mut Enumerator) -> (count: Option<u64>)
        requires
            old(memo).inv(self),
        ensures
            final(memo).inv(self),
            count == fitting(outcomes(self, state.code())),
            old(memo).memo().submap_of(final(memo).memo()),
            old(memo).expansions() <= final(memo).expansions(),
            old(memo).memo().contains_key(state.code()) || self.terminal(state.code())
                || self.dead(state.code()) ==> final(memo).expansions() == old(memo).expansions()
                && final(memo).memo() == old(memo).memo(),
            old(memo).memo().contains_key(state.code()) ==> count == Some(
                old(memo).memo()[state.code()],
            ),
            !old(memo).memo().contains_key(state.code()) && !self.terminal(state.code())
                && !self.dead(state.code()) && count is Some ==> final(memo).memo().contains_pair(
                state.code(),
                count.unwrap(),
            ),
    {
        let code = state.encode();
        memo.count(self, &code)
    }

    /// The number of move sequences from the starting position at the end
    /// of which the dragon has eaten every sheep, or `None` when that
    /// number does not fit in 64 bits.
    pub fn count_dragon_wins_sequences(&self) -> (count: Option<u64>)
        ensures
            count == fitting(outcomes(self, self.init_state.code())),
    {
        let code = self.init_state.encode();
        count_terminal_states(&code, self)
    }
}

/// What has been read of a board so far.
pub struct Sketch {
    pub width: i32,
    pub height: i32,
    pub shelters: Seq<Point>,
    pub dragon: Point,
    pub sheep: Seq<Point>,
}

/// The sketch after the character `c` at column `x` of row `y` was read:
/// the board is as wide as the row read last, `D` is the dragon, `S` a
/// sheep and `#` a shelter. A column that does not fit in 32 bits cannot
/// be read.
pub open spec fn sketch_cell(sketch: Sketch, x: int, y: int, c: char) -> Option<Sketch> {
    let at = Point { x: x as i32, y: y as i32 };
    if !fits_i32(x + 1) {
        None
    } else {
        Some(
            Sketch {
                width: (x + 1) as i32,
                height: sketch.height,
                shelters: if c == '#' {
                    sketch.shelters.push(at)
                } else {
                    sketch.shelters
                },
                dragon: if c == 'D' {
                    at
                } else {
                    sketch.dragon
                },
                sheep: if c == 'S' {
                    sketch.sheep.push(at)
                } else {
                    sketch.sheep
                },
            },
        )
    }
}

/// The sketch after the first `upto` characters of row `y` were read.
pub open spec fn sketch_row(sketch: Sketch, row: Seq<char>, y: int, upto: nat) -> Option<Sketch>
    decreases upto,
{
    if upto == 0 {
        Some(sketch)
    } else {
        match sketch_row(sketch, row, y, (upto - 1) as nat) {
            Some(before) => sketch_cell(before, upto - 1, y, row[upto - 1]),
            None => None,
        }
    }
}

/// The sketch after the first `upto` rows were read: the board is as
/// high as there are rows.
pub open spec fn sketch_rows(rows: Seq<Seq<char>>, upto: nat) -> Option<Sketch>
    decreases upto,
{
    if upto == 0 {
        Some(
            Sketch {
                width: 0,
                height: 0,
                shelters: Seq::empty(),
                dragon: Point { x: 0, y: 0 },
                sheep: Seq::empty(),
            },
        )
    } else {
        match sketch_rows(rows, (upto - 1) as nat) {
            Some(before) => if fits_i32(upto as int) {
                sketch_row(
                    Sketch {
                        width: before.width,
                        height: upto as i32,
                        shelters: before.shelters,
                        dragon: before.dragon,
                        sheep: before.sheep,
                    },
                    rows[upto - 1],
                    upto - 1,
                    rows[upto - 1].len(),
                )
            } else {
                None
            },
            None => None,
        }
    }
}

/// A row that cannot be read up to some character cannot be read further.
pub proof fn lemma_sketch_row_stays(sketch: Sketch, row: Seq<char>, y: int, from: nat, upto: nat)
    requires
        from <= upto,
        sketch_row(sketch, row, y, from).is_none(),
    ensures
        sketch_row(sketch, row, y, upto).is_none(),
    decreases upto,
{
    if from < upto {
        lemma_sketch_row_stays(sketch, row, y, from, (upto - 1) as nat);
    }
}

/// A board that cannot be read up to some row cannot be read further.
pub proof fn lemma_sketch_rows_stay(rows: Seq<Seq<char>>, from: nat, upto: nat)
    requires
        from <= upto,
        sketch_rows(rows, from).is_none(),
    ensures
        sketch_rows(rows, upto).is_none(),
    decreases upto,
{
    if from < upto {
        lemma_sketch_rows_stay(rows, from, (upto - 1) as nat);
    }
}

impl Board {
    /// What the board holds, as a sketch.
    pub open spec fn sketch(&self) -> Sketch {
        Sketch {
            width: self.width,
            height: self.height,
            shelters: self.shelters@,
            dragon: self.init_state.dragon,
            sheep: self.init_state.sheep@,
        }
    }

    /// Reads a board from its rows, with the sheep to move first; `None`
    /// when the board does not fit in 32 bits.
    pub fn from_rows(rows: &Vec<Vec<char>>) -> (made: Option<Board>)
        ensures
            match made {
                Some(b) => sketch_rows(pieces_view(rows@), rows@.len()) == Some(b.sketch())
                    && !b.init_state.dragons_move,
                None => sketch_rows(pieces_view(rows@), rows@.len()).is_none(),
            },
    {
        let mut board = Board {
            width: 0,
            height: 0,
            shelters: Vec::new(),
            init_state: State { dragon: Point { x: 0, y: 0 }, sheep: Vec::new(), dragons_move: false },
        };
        let ghost views = pieces_view(rows@);
        let mut y: usize = 0;
        while y < rows.len()
            invariant
                0 <= y <= rows.len(),
                views == pieces_view(rows@),
                sketch_rows(views, y as nat) == Some(board.sketch()),
                !board.init_state.dragons_move,
            decreases rows.len() - y,
        {
            if y >= 0x7fff_ffff {
                proof {
                    assert(sketch_rows(views, (y + 1) as nat).is_none());
                    lemma_sketch_rows_stay(views, (y + 1) as nat, views.len());
                }
                return None;
            }
            board.height = y as i32 + 1;
            let row = &rows[y];
            let ghost start = board.sketch();
            let mut x: usize = 0;
            while x < row.len()
                invariant
                    0 <= x <= row.len(),
                    0 <= y < rows.len(),
                    y < 0x7fff_ffff,
                    views == pieces_view(rows@),
                    row@ == views[y as int],
                    sketch_rows(views, (y + 1) as nat) == sketch_row(
                        start,
                        row@,
                        y as int,
                        row@.len(),
                    ),
                    sketch_row(start, row@, y as int, x as nat) == Some(board.sketch()),
                    !board.init_state.dragons_move,
                decreases row.len() - x,
            {
                let c = row[x];
                let ghost before = board.sketch();
                if x >= 0x7fff_ffff {
                    proof {
                        assert(sketch_cell(before, x as int, y as int, c).is_none());
                        assert(sketch_row(start, row@, y as int, (x + 1) as nat).is_none());
                        lemma_sketch_row_stays(start, row@, y as int, (x + 1) as nat, row@.len());
                        lemma_sketch_rows_stay(views, (y + 1) as nat, views.len());
                    }
                    return None;
                }
                board.width = x as i32 + 1;
                let pos = Point { x: x as i32, y: y as i32 };
                if c == 'D' {
                    board.init_state.dragon = pos;
                } else if c == 'S' {
                    board.init_state.sheep.push(pos);
                } else if c == '#' {
                    board.shelters.push(pos);
                }
                assert(sketch_cell(before, x as int, y as int, c) == Some(board.sketch()));
                x += 1;
            }
            y += 1;
        }
        Some(board)
    }

    /// Reads a board from its text.
    pub fn parse(s: &str) -> (made: Option<Board>)
        ensures
            match made {
                Some(b) => sketch_rows(lines(s@), lines(s@).len()) == Some(b.sketch())
                    && !b.init_state.dragons_move,
                None => sketch_rows(lines(s@), lines(s@).len()).is_none(),
            },
    {
        let chars = chars_of(s);
        let rows = lines_of(&chars);
        Board::from_rows(&rows)
    }
}

/// The squares of an unbounded board, a knight's move apart.
pub struct KnightMoves;

impl KnightMoves {
    /// The edge from `p` by knight's move `k`, as a sequence of none or
    /// one: none when the move leaves the squares that can be written down.
    pub open spec fn hop(p: Point, k: int) -> Seq<Hop> {
        let to = (p.x + knight(k).0, p.y + knight(k).1);
        if fits_i32(to.0) && fits_i32(to.1) {
            seq![(key_of(Point { x: to.0 as i32, y: to.1 as i32 }), 1u64)]
        } else {
            Seq::empty()
        }
    }

    /// The edges from `p` by the first `upto` knight's moves.
    pub open spec fn hops(p: Point, upto: nat) -> Seq<Hop>
        decreases upto,
    {
        if upto == 0 {
            Seq::empty()
        } else {
            KnightMoves::hops(p, (upto - 1) as nat) + KnightMoves::hop(p, upto - 1)
        }
    }
}

impl StateGraph for KnightMoves {
    open spec fn wf(&self) -> bool {
        true
    }

    open spec fn edges(&self, state: u64) -> Seq<Hop> {
        KnightMoves::hops(point_of(state), 8)
    }

    fn neighbors(&self, state: u64) -> (out: Vec<Hop>) {
        let p = Point::from_key(state);
        let mut out: Vec<Hop> = Vec::new();
        let mut k: usize = 0;
        while k < 8
            invariant
                0 <= k <= 8,
                p == point_of(state),
                out@ == KnightMoves::hops(p, k as nat),
            decreases 8 - k,
        {
            let step = knight_move(k);
            let x: i64 = p.x as i64 + step.0;
            let y: i64 = p.y as i64 + step.1;
            let ghost before = out@;
            if -0x8000_0000 <= x && x <= 0x7fff_ffff && -0x8000_0000 <= y && y <= 0x7fff_ffff {
                let to = Point { x: x as i32, y: y as i32 };
                out.push((to.key(), 1));
            }
            assert(out@ =~= before + KnightMoves::hop(p, k as int));
            k += 1;
        }
        out
    }
}

/// How many of the first `upto` sheep stand on a square that the dragon
/// reaches in at most `moves` knight's moves, the squares of the board
/// and beyond being open to it.
pub open spec fn sheep_in_range(dragon: Point, sheep: Seq<Point>, moves: u64, upto: nat) -> nat
    decreases upto,
{
    if upto == 0 {
        0
    } else {
        sheep_in_range(dragon, sheep, moves, (upto - 1) as nat) + (if in_range(
            &KnightMoves,
            seq![(key_of(dragon), 0u64)],
            key_of(sheep[upto - 1]),
            moves,
        ) {
            1nat
        } else {
            0nat
        })
    }
}

impl Board {
    /// How many sheep stand where the dragon can be after at most `moves`
    /// moves from where it starts.
    pub fn count_sheep_in_range(&self, moves: u64) -> (count: usize)
        ensures
            count == sheep_in_range(
                self.init_state.dragon,
                self.init_state.sheep@,
                moves,
                self.init_state.sheep@.len(),
            ),
    {
        let knights = KnightMoves;
        let mut sources: Vec<Source> = Vec::new();
        sources.push((self.init_state.dragon.key(), 0));
        assert(sources@ =~= seq![(key_of(self.init_state.dragon), 0u64)]);
        let table = distances_within(&knights, &sources, moves);
        let mut count: usize = 0;
        let mut i: usize = 0;
        while i < self.init_state.sheep.len()
            invariant
                0 <= i <= self.init_state.sheep.len(),
                count <= i,
                sources@ == seq![(key_of(self.init_state.dragon), 0u64)],
                count == sheep_in_range(
                    self.init_state.dragon,
                    self.init_state.sheep@,
                    moves,
                    i as nat,
                ),
                forall|v: u64| #[trigger]
                    table@.contains_key(v) ==> table@[v] <= moves && crate::graph::is_distance(
                        &knights,
                        sources@,
                        v,
                        table@[v] as nat,
                    ),
                forall|v: u64|
                    !table@.contains_key(v) ==> !#[trigger] in_range(&knights, sources@, v, moves),
            decreases self.init_state.sheep.len() - i,
        {
            let key = self.init_state.sheep[i].key();
            if table.contains_key(&key) {
                assert(crate::graph::reaches(&knights, sources@, key, table@[key] as nat));
                assert(in_range(&knights, sources@, key, moves));
                count += 1;
            }
            i += 1;
        }
        count
    }
}

} // verus!
