//! Games played with dice: rolling until a sum is reached, racing along
//! a track, and walking over a grid of numbers from every square at
//! once, a step for each roll.

use crate::die::{race, rolls_in_race, Die};
use crate::order::{is_rising, rank_up};
use crate::point::fits_i32;
use crate::text::{chars_of, lines, lines_of, pieces_view};
use vstd::prelude::*;

verus! {

/// The face that the die shows after its next roll.
pub open spec fn next_face(die: Die) -> int {
    die.rolled().faces@[die.rolled().index as int] as int
}

/// The sum after the first `upto` dice have been rolled once each;
/// `None` when one of them cannot be rolled or the sum leaves 32 bits.
pub open spec fn round_sum(dice: Seq<Die>, sum: int, upto: nat) -> Option<int>
    decreases upto,
{
    if upto == 0 {
        Some(sum)
    } else {
        match round_sum(dice, sum, (upto - 1) as nat) {
            Some(s) => if dice[upto - 1].can_roll() && fits_i32(s + next_face(dice[upto - 1])) {
                Some(s + next_face(dice[upto - 1]))
            } else {
                None
            },
            None => None,
        }
    }
}

/// The dice after one more roll of each.
pub open spec fn all_rolled(dice: Seq<Die>) -> Seq<Die> {
    Seq::new(dice.len(), |k: int| dice[k].rolled())
}

/// How many rounds, all dice being rolled in each, bring the sum to
/// `target`; `None` when `limit` rounds do not, a die cannot be rolled
/// or the sum leaves 32 bits.
pub open spec fn rounds_to(dice: Seq<Die>, sum: int, target: int, limit: nat) -> Option<nat>
    decreases limit,
{
    if sum >= target {
        Some(0)
    } else if limit == 0 {
        None
    } else {
        match round_sum(dice, sum, dice.len()) {
            Some(s) => match rounds_to(all_rolled(dice), s, target, (limit - 1) as nat) {
                Some(n) => Some(n + 1),
                None => None,
            },
            None => None,
        }
    }
}

/// Once a die cannot be rolled or the sum has left 32 bits, the round
/// has no sum.
pub proof fn lemma_round_fails(dice: Seq<Die>, sum: int, k: nat, upto: nat)
    requires
        k <= upto,
        round_sum(dice, sum, k).is_none(),
    ensures
        round_sum(dice, sum, upto).is_none(),
    decreases upto,
{
    if k < upto {
        lemma_round_fails(dice, sum, k, (upto - 1) as nat);
    }
}

/// Rolls all dice round by round until the faces shown sum up to
/// `target`, and returns the number of rounds.
pub fn rolls_to_reach(old_dice: Vec<Die>, target: i32, limit: usize) -> (rounds: Option<usize>)
    ensures
        rounds == (match rounds_to(old_dice@, 0, target as int, limit as nat) {
            Some(n) => Some(n as usize),
            None => None,
        }),
{
    let ghost given = old_dice@;
    let mut dice = old_dice;
    let mut sum: i32 = 0;
    let mut rounds: usize = 0;
    let n = dice.len();
    while sum < target
        invariant
            0 <= rounds <= limit,
            n == dice@.len(),
            given == old_dice@,
            rounds_to(given, 0, target as int, limit as nat) == (match rounds_to(
                dice@,
                sum as int,
                target as int,
                (limit - rounds) as nat,
            ) {
                Some(n) => Some((n + rounds) as nat),
                None => None,
            }),
        decreases limit - rounds,
    {
        if rounds == limit {
            return None;
        }
        let ghost start = dice@;
        let ghost before = sum as int;
        let mut i: usize = 0;
        while i < n
            invariant
                0 <= i <= n,
                n == dice@.len(),
                start.len() == n,
                rounds < limit,
                before < target,
                given == old_dice@,
                rounds_to(given, 0, target as int, limit as nat) == (match rounds_to(
                    start,
                    before,
                    target as int,
                    (limit - rounds) as nat,
                ) {
                    Some(n) => Some((n + rounds) as nat),
                    None => None,
                }),
                round_sum(start, before, i as nat) == Some(sum as int),
                forall|j: int| 0 <= j < i ==> #[trigger] dice@[j] == start[j].rolled(),
                forall|j: int| i <= j < n ==> #[trigger] dice@[j] == start[j],
            decreases n - i,
        {
            assert(dice@[i as int] == start[i as int]);
            if !dice[i].check_roll() {
                proof {
                    assert(round_sum(start, before, (i + 1) as nat).is_none());
                    lemma_round_fails(start, before, (i + 1) as nat, n as nat);
                }
                return None;
            }
            let ghost mid = dice@;
            let face = dice[i].roll();
            assert(dice@[i as int] == start[i as int].rolled());
            assert(face == next_face(start[i as int]));
            assert forall|j: int| 0 <= j < i + 1 implies #[trigger] dice@[j] == start[j].rolled() by {
                if j < i {
                    assert(mid[j] == start[j].rolled());
                }
            }
            assert forall|j: int| i + 1 <= j < n implies #[trigger] dice@[j] == start[j] by {
                assert(mid[j] == start[j]);
            }
            sum = match sum.checked_add(face) {
                Some(s) => s,
                None => {
                    proof {
                        assert(round_sum(start, before, (i + 1) as nat).is_none());
                        lemma_round_fails(start, before, (i + 1) as nat, n as nat);
                    }
                    return None;
                },
            };
            i += 1;
        }
        assert(dice@ =~= all_rolled(start));
        rounds += 1;
    }
    Some(rounds)
}

/// The rolls that each die needs along the track, if each comes to its end.
pub open spec fn race_rolls(track: Seq<i32>, dice: Seq<Die>, limit: nat) -> Option<Seq<i64>> {
    if forall|k: int| 0 <= k < dice.len() ==> (#[trigger] race(track, dice[k], 0, limit)).0 is Some {
        Some(Seq::new(dice.len(), |k: int| race(track, dice[k], 0, limit).0.unwrap() as i64))
    } else {
        None
    }
}

/// The die comes to the end of the track in `rolls` rolls.
pub open spec fn ran(track: Seq<i32>, die: Die, limit: nat, rolls: i64) -> bool {
    rolls >= 0 && race(track, die, 0, limit).0 == Some(rolls as nat)
}

/// The names of the dice at the places listed.
pub open spec fn names_at(dice: Seq<Die>, places: Seq<usize>) -> Seq<usize> {
    Seq::new(places.len(), |k: int| dice[places[k] as int].id)
}

/// Races every die along the track and returns the names of the dice
/// from the one that needed the fewest rolls to the one that needed
/// the most, dice that needed as many standing as they were given.
/// `None` when a die does not come to the end in `limit` rolls or
/// cannot be rolled.
pub fn winner_order(track: &Vec<i32>, old_dice: Vec<Die>, limit: u32) -> (order: Option<Vec<usize>>)
    ensures
        match order {
            Some(names) => race_rolls(track@, old_dice@, limit as nat) is Some && exists|
                places: Seq<usize>,
            |
                is_rising(race_rolls(track@, old_dice@, limit as nat).unwrap(), places) && names@
                    == names_at(old_dice@, places),
            None => race_rolls(track@, old_dice@, limit as nat).is_none(),
        },
{
    let ghost given = old_dice@;
    let mut dice = old_dice;
    let n = dice.len();
    let mut rolls: Vec<i64> = Vec::new();
    let mut i: usize = 0;
    while i < n
        invariant
            0 <= i <= n,
            n == dice@.len(),
            given.len() == n,
            given == old_dice@,
            rolls@.len() == i,
            forall|j: int| 0 <= j < n ==> (#[trigger] dice@[j]).id == given[j].id,
            forall|j: int| i <= j < n ==> #[trigger] dice@[j] == given[j],
            forall|j: int|
                0 <= j < i ==> ran(track@, given[j], limit as nat, #[trigger] rolls@[j]),
        decreases n - i,
    {
        let ghost before = dice@;
        assert(before[i as int] == given[i as int]);
        proof {
            lemma_race_within(track@, given[i as int], 0, limit as nat);
            lemma_race_keeps_name(track@, given[i as int], 0, limit as nat);
        }
        match rolls_in_race(track, &mut dice[i], limit as usize) {
            Some(r) => {
                let ghost rolls_before = rolls@;
                rolls.push(r as i64);
                proof {
                    assert forall|j: int| 0 <= j < n implies (#[trigger] dice@[j]).id
                        == given[j].id by {
                        if j != i {
                            assert(before[j].id == given[j].id);
                        }
                    }
                    assert forall|j: int| i + 1 <= j < n implies #[trigger] dice@[j]
                        == given[j] by {
                        assert(before[j] == given[j]);
                    }
                    assert forall|j: int| 0 <= j < i + 1 implies ran(
                        track@,
                        given[j],
                        limit as nat,
                        #[trigger] rolls@[j],
                    ) by {
                        if j < i {
                            assert(rolls@[j] == rolls_before[j]);
                            assert(ran(track@, given[j], limit as nat, rolls_before[j]));
                        } else {
                            let ran = race(track@, given[i as int], 0, limit as nat).0;
                            assert(ran is Some);
                            assert(ran.unwrap() <= limit);
                            assert(r == ran.unwrap());
                            assert(rolls@[j] == r as i64);
                        }
                    }
                }
            },
            None => {
                assert(race(track@, given[i as int], 0, limit as nat).0.is_none());
                return None;
            },
        }
        i += 1;
    }
    let ghost all = race_rolls(track@, given, limit as nat).unwrap();
    assert(race_rolls(track@, given, limit as nat) is Some) by {
        assert forall|j: int| 0 <= j < n implies (#[trigger] race(
            track@,
            given[j],
            0,
            limit as nat,
        )).0 is Some by {
            assert(ran(track@, given[j], limit as nat, rolls@[j]));
        }
    }
    assert(rolls@ =~= all) by {
        assert forall|j: int| 0 <= j < n implies rolls@[j] == all[j] by {
            assert(ran(track@, given[j], limit as nat, rolls@[j]));
        }
    }
    let places = rank_up(&rolls);
    let mut names: Vec<usize> = Vec::new();
    let mut k: usize = 0;
    while k < places.len()
        invariant
            0 <= k <= places.len(),
            n == dice@.len(),
            given.len() == n,
            is_rising(rolls@, places@),
            rolls@.len() == n,
            forall|j: int| 0 <= j < n ==> (#[trigger] dice@[j]).id == given[j].id,
            names@ == names_at(given, places@).take(k as int),
        decreases places.len() - k,
    {
        assert(places@[k as int] < n);
        names.push(dice[places[k]].id);
        assert(names@ =~= names_at(given, places@).take(k + 1));
        k += 1;
    }
    assert(names@ =~= names_at(given, places@));
    Some(names)
}

/// A race takes no more rolls than it is allowed.
pub proof fn lemma_race_within(track: Seq<i32>, die: Die, at: nat, limit: nat)
    ensures
        race(track, die, at, limit).0 is Some ==> race(track, die, at, limit).0.unwrap() <= limit,
    decreases limit,
{
    if at < track.len() && limit > 0 && die.can_roll() {
        let next = die.rolled();
        let on = if next.faces@[next.index as int] == track[at as int] {
            at + 1
        } else {
            at
        };
        lemma_race_within(track, next, on, (limit - 1) as nat);
    }
}

/// A race leaves the die its name.
pub proof fn lemma_race_keeps_name(track: Seq<i32>, die: Die, at: nat, limit: nat)
    ensures
        race(track, die, at, limit).1.id == die.id,
    decreases limit,
{
    if at < track.len() && limit > 0 && die.can_roll() {
        let next = die.rolled();
        let on = if next.faces@[next.index as int] == track[at as int] {
            at + 1
        } else {
            at
        };
        lemma_race_keeps_name(track, next, on, (limit - 1) as nat);
    }
}

/// A grid of numbers, row by row; the rows need not be of one length.
pub struct Grid {
    pub rows: Vec<Vec<i32>>,
}

/// A square of the grid or beside it: its column and its row.
pub type Square = (int, int);

/// The number that a digit stands for.
pub open spec fn digit_of(c: char) -> Option<i32> {
    if '0' <= c && c <= '9' {
        Some((c as u32 - '0' as u32) as i32)
    } else {
        None
    }
}

/// The numbers that the digits of a line stand for.
pub open spec fn digits_of(line: Seq<char>) -> Option<Seq<i32>> {
    if forall|k: int| 0 <= k < line.len() ==> digit_of(#[trigger] line[k]) is Some {
        Some(Seq::new(line.len(), |k: int| digit_of(line[k]).unwrap()))
    } else {
        None
    }
}

/// The grid that lines of digits spell.
pub open spec fn grid_of(rows: Seq<Seq<char>>) -> Option<Seq<Seq<i32>>> {
    if forall|k: int| 0 <= k < rows.len() ==> digits_of(#[trigger] rows[k]) is Some {
        Some(Seq::new(rows.len(), |k: int| digits_of(rows[k]).unwrap()))
    } else {
        None
    }
}

/// The rows of numbers, as sequences.
pub open spec fn numbers_view(rows: Seq<Vec<i32>>) -> Seq<Seq<i32>> {
    Seq::new(rows.len(), |k: int| rows[k]@)
}

/// The rows of marks, as sequences.
pub open spec fn marks_view(rows: Seq<Vec<bool>>) -> Seq<Seq<bool>> {
    Seq::new(rows.len(), |k: int| rows[k]@)
}

/// Reads a line of digits.
pub fn read_digits(line: &Vec<char>) -> (row: Option<Vec<i32>>)
    ensures
        match row {
            Some(r) => digits_of(line@) == Some(r@),
            None => digits_of(line@).is_none(),
        },
{
    let mut out: Vec<i32> = Vec::new();
    let mut k: usize = 0;
    while k < line.len()
        invariant
            0 <= k <= line.len(),
            out@.len() == k,
            forall|j: int| 0 <= j < k ==> digit_of(#[trigger] line@[j]) == Some(out@[j]),
        decreases line.len() - k,
    {
        let c = line[k];
        if '0' <= c && c <= '9' {
            out.push((c as u32 - '0' as u32) as i32);
        } else {
            assert(digit_of(line@[k as int]).is_none());
            return None;
        }
        k += 1;
    }
    assert(out@ =~= Seq::new(line@.len(), |k: int| digit_of(line@[k]).unwrap()));
    Some(out)
}

impl Grid {
    /// The rows of the grid.
    pub open spec fn view(&self) -> Seq<Seq<i32>> {
        numbers_view(self.rows@)
    }

    /// Reads a grid, a row from each line and a number from each
    /// digit. The text has to hold digits only; `read_str` tells
    /// whether it does.
    pub fn from_str(input: &str) -> (grid: Grid)
        requires
            grid_of(lines(input@)) is Some,
        ensures
            grid_of(lines(input@)) == Some(grid@),
    {
        Grid::read_str(input).unwrap()
    }

    /// Reads a grid, a row from each line and a number from each
    /// digit; `None` when a character is no digit.
    pub fn read_str(input: &str) -> (grid: Option<Grid>)
        ensures
            match grid {
                Some(g) => grid_of(lines(input@)) == Some(g@),
                None => grid_of(lines(input@)).is_none(),
            },
    {
        let chars = chars_of(input);
        let rows = lines_of(&chars);
        let ghost view = pieces_view(rows@);
        let mut out: Vec<Vec<i32>> = Vec::new();
        let mut k: usize = 0;
        while k < rows.len()
            invariant
                0 <= k <= rows.len(),
                view == pieces_view(rows@),
                view == lines(input@),
                out@.len() == k,
                forall|j: int| 0 <= j < k ==> digits_of(#[trigger] view[j]) == Some(out@[j]@),
            decreases rows.len() - k,
        {
            assert(view[k as int] == rows@[k as int]@);
            match read_digits(&rows[k]) {
                Some(row) => {
                    out.push(row);
                },
                None => {
                    assert(digits_of(view[k as int]).is_none());
                    return None;
                },
            }
            k += 1;
        }
        let grid = Grid { rows: out };
        assert(grid@ =~= Seq::new(view.len(), |k: int| digits_of(view[k]).unwrap()));
        Some(grid)
    }
}

/// The square lies on the grid.
pub open spec fn on_grid(rows: Seq<Seq<i32>>, p: Square) -> bool {
    0 <= p.1 < rows.len() && 0 <= p.0 < rows[p.1].len()
}

/// The step number `k`, of five: none, right, left, down, up.
pub open spec fn offset(k: int) -> Square {
    if k == 0 {
        (0, 0)
    } else if k == 1 {
        (1, 0)
    } else if k == 2 {
        (-1, 0)
    } else if k == 3 {
        (0, 1)
    } else {
        (0, -1)
    }
}

/// A player stands on the square, and the square shows the face rolled.
pub open spec fn scores(rows: Seq<Seq<i32>>, active: Set<Square>, face: i32, p: Square) -> bool {
    active.contains(p) && on_grid(rows, p) && rows[p.1][p.0] == face
}

/// A player who scores stands a step from `q`.
pub open spec fn stepped_onto(rows: Seq<Seq<i32>>, active: Set<Square>, face: i32, q: Square) -> bool {
    exists|k: int|
        0 <= k < 5 && #[trigger] scores(rows, active, face, (q.0 - offset(k).0, q.1 - offset(k).1))
}

/// Where players stand after the roll: the players who score stay or
/// step to a side, the others leave.
pub open spec fn stepped(rows: Seq<Seq<i32>>, active: Set<Square>, face: i32) -> Set<Square> {
    Set::new(|q: Square| stepped_onto(rows, active, face, q))
}

/// The squares on which a player has scored, with those of this roll.
pub open spec fn gathered(
    rows: Seq<Seq<i32>>,
    active: Set<Square>,
    face: i32,
    reached: Set<Square>,
) -> Set<Square> {
    Set::new(|p: Square| reached.contains(p) || scores(rows, active, face, p))
}

/// No player is left.
pub open spec fn nobody(active: Set<Square>) -> bool {
    forall|p: Square| !active.contains(p)
}

/// The squares on which a player scores while players are left, the
/// die having shown `face` and being rolled again after every step;
/// and the die as it is left. The squares are missing when `limit`
/// steps do not suffice or the die cannot be rolled.
pub open spec fn walk(
    rows: Seq<Seq<i32>>,
    die: Die,
    face: i32,
    active: Set<Square>,
    reached: Set<Square>,
    limit: nat,
) -> (Option<Set<Square>>, Die)
    decreases limit,
{
    if nobody(active) {
        (Some(reached), die)
    } else if limit == 0 || !die.can_roll() {
        (None, die)
    } else {
        walk(
            rows,
            die.rolled(),
            next_face(die) as i32,
            stepped(rows, active, face),
            gathered(rows, active, face, reached),
            (limit - 1) as nat,
        )
    }
}

/// The squares of the grid.
pub open spec fn all_squares(rows: Seq<Seq<i32>>) -> Set<Square> {
    Set::new(|p: Square| on_grid(rows, p))
}

/// The squares on which a player scores when players start from every
/// square of the grid, and the die as it is left.
pub open spec fn coins_reached(rows: Seq<Seq<i32>>, die: Die, limit: nat) -> (Option<Set<Square>>, Die) {
    if !die.can_roll() {
        (None, die)
    } else {
        walk(rows, die.rolled(), next_face(die) as i32, all_squares(rows), Set::empty(), limit)
    }
}

/// The marks have the shape of the grid.
pub open spec fn shaped_like(marks: Seq<Seq<bool>>, rows: Seq<Seq<i32>>) -> bool {
    &&& marks.len() == rows.len()
    &&& forall|y: int| 0 <= y < rows.len() ==> (#[trigger] marks[y]).len() == rows[y].len()
}

/// The squares that are marked.
pub open spec fn marked(marks: Seq<Seq<bool>>) -> Set<Square> {
    Set::new(|p: Square| 0 <= p.1 < marks.len() && 0 <= p.0 < marks[p.1].len() && marks[p.1][p.0])
}

/// Marks of the shape of the grid, all set to `mark`.
pub fn marks_like(grid: &Grid, mark: bool) -> (marks: Vec<Vec<bool>>)
    ensures
        shaped_like(marks_view(marks@), grid@),
        forall|y: int, x: int|
            0 <= y < grid@.len() && 0 <= x < grid@[y].len() ==> #[trigger] marks_view(
                marks@,
            )[y][x] == mark,
{
    let mut marks: Vec<Vec<bool>> = Vec::new();
    let mut y: usize = 0;
    while y < grid.rows.len()
        invariant
            0 <= y <= grid.rows.len(),
            marks@.len() == y,
            forall|j: int| 0 <= j < y ==> (#[trigger] marks@[j])@.len() == grid.rows@[j]@.len(),
            forall|j: int, x: int|
                0 <= j < y && 0 <= x < grid.rows@[j]@.len() ==> #[trigger] marks@[j]@[x] == mark,
        decreases grid.rows.len() - y,
    {
        let mut row: Vec<bool> = Vec::new();
        let mut x: usize = 0;
        while x < grid.rows[y].len()
            invariant
                0 <= y < grid.rows.len(),
                0 <= x <= grid.rows@[y as int]@.len(),
                row@.len() == x,
                forall|i: int| 0 <= i < x ==> row@[i] == mark,
            decreases grid.rows@[y as int]@.len() - x,
        {
            row.push(mark);
            x += 1;
        }
        marks.push(row);
        y += 1;
    }
    marks
}

/// Whether any square is marked.
pub fn any_marked(marks: &Vec<Vec<bool>>) -> (yes: bool)
    ensures
        yes == !nobody(marked(marks_view(marks@))),
{
    let ghost view = marks_view(marks@);
    let mut y: usize = 0;
    while y < marks.len()
        invariant
            0 <= y <= marks.len(),
            view == marks_view(marks@),
            forall|j: int, x: int| 0 <= j < y && 0 <= x < view[j].len() ==> !#[trigger] view[j][x],
        decreases marks.len() - y,
    {
        assert(view[y as int] == marks@[y as int]@);
        let mut x: usize = 0;
        while x < marks[y].len()
            invariant
                0 <= y < marks.len(),
                0 <= x <= marks@[y as int]@.len(),
                view == marks_view(marks@),
                view[y as int] == marks@[y as int]@,
                forall|i: int| 0 <= i < x ==> !#[trigger] view[y as int][i],
            decreases marks@[y as int]@.len() - x,
        {
            if marks[y][x] {
                assert(marked(view).contains((x as int, y as int)));
                return true;
            }
            x += 1;
        }
        y += 1;
    }
    assert forall|p: Square| !marked(view).contains(p) by {
        if 0 <= p.1 < view.len() && 0 <= p.0 < view[p.1].len() {
            assert(!view[p.1][p.0]);
        }
    }
    false
}

/// Whether a marked player on the square scores.
fn scores_at(grid: &Grid, act: &Vec<Vec<bool>>, face: i32, x: usize, y: usize) -> (yes: bool)
    requires
        shaped_like(marks_view(act@), grid@),
    ensures
        yes == scores(grid@, marked(marks_view(act@)), face, (x as int, y as int)),
{
    if y >= grid.rows.len() {
        return false;
    }
    assert(grid@[y as int] == grid.rows@[y as int]@);
    assert(marks_view(act@)[y as int] == act@[y as int]@);
    if x >= grid.rows[y].len() {
        return false;
    }
    act[y][x] && grid.rows[y][x] == face
}

/// A step from the square leads off the grid.
pub open spec fn off_edge(rows: Seq<Seq<i32>>, p: Square) -> bool {
    exists|k: int| 0 <= k < 5 && !#[trigger] on_grid(rows, (p.0 + offset(k).0, p.1 + offset(k).1))
}

/// Whether a step from the square of the grid leads off the grid.
fn at_edge(grid: &Grid, x: usize, y: usize) -> (yes: bool)
    requires
        on_grid(grid@, (x as int, y as int)),
    ensures
        yes == off_edge(grid@, (x as int, y as int)),
{
    let ghost rows = grid@;
    let ghost p = (x as int, y as int);
    assert(rows[y as int] == grid.rows@[y as int]@);
    assert(y < grid.rows@.len() && x < grid.rows@[y as int]@.len());
    let width = grid.rows[y].len();
    let height = grid.rows.len();
    let right = x + 1 >= width;
    let left = x == 0;
    let down = if y + 1 >= height {
        true
    } else {
        assert(rows[y + 1] == grid.rows@[y + 1]@);
        x >= grid.rows[y + 1].len()
    };
    let up = if y == 0 {
        true
    } else {
        assert(rows[y - 1] == grid.rows@[y - 1]@);
        x >= grid.rows[y - 1].len()
    };
    proof {
        assert(on_grid(rows, (p.0 + offset(0).0, p.1 + offset(0).1)));
        assert(right == !on_grid(rows, (p.0 + offset(1).0, p.1 + offset(1).1)));
        assert(left == !on_grid(rows, (p.0 + offset(2).0, p.1 + offset(2).1)));
        assert(down == !on_grid(rows, (p.0 + offset(3).0, p.1 + offset(3).1)));
        assert(up == !on_grid(rows, (p.0 + offset(4).0, p.1 + offset(4).1)));
    }
    right || left || down || up
}

/// A player who scores on a square before `(x, y)`, the squares taken
/// row by row, stands at the edge of the grid.
pub open spec fn strays_before(
    rows: Seq<Seq<i32>>,
    active: Set<Square>,
    face: i32,
    y: int,
    x: int,
) -> bool {
    exists|p: Square|
        (p.1 < y || (p.1 == y && p.0 < x)) && #[trigger] scores(rows, active, face, p) && off_edge(
            rows,
            p,
        )
}

/// A player steps off the grid.
pub open spec fn strays(rows: Seq<Seq<i32>>, active: Set<Square>, face: i32) -> bool {
    exists|q: Square| !on_grid(rows, q) && #[trigger] stepped_onto(rows, active, face, q)
}

/// A player steps off the grid when one who scores stands at its edge.
pub proof fn lemma_strays(rows: Seq<Seq<i32>>, active: Set<Square>, face: i32)
    ensures
        strays(rows, active, face) == strays_before(rows, active, face, rows.len() as int, 0),
{
    if strays(rows, active, face) {
        let q = choose|q: Square| !on_grid(rows, q) && #[trigger] stepped_onto(rows, active, face, q);
        let k = choose|k: int|
            0 <= k < 5 && #[trigger] scores(
                rows,
                active,
                face,
                (q.0 - offset(k).0, q.1 - offset(k).1),
            );
        let p = (q.0 - offset(k).0, q.1 - offset(k).1);
        assert(!on_grid(rows, (p.0 + offset(k).0, p.1 + offset(k).1)));
        assert(off_edge(rows, p));
        assert(scores(rows, active, face, p));
    }
    if strays_before(rows, active, face, rows.len() as int, 0) {
        let p = choose|p: Square|
            (p.1 < rows.len() || (p.1 == rows.len() && p.0 < 0)) && #[trigger] scores(
                rows,
                active,
                face,
                p,
            ) && off_edge(rows, p);
        let k = choose|k: int|
            0 <= k < 5 && !#[trigger] on_grid(rows, (p.0 + offset(k).0, p.1 + offset(k).1));
        let q = (p.0 + offset(k).0, p.1 + offset(k).1);
        assert(scores(rows, active, face, (q.0 - offset(k).0, q.1 - offset(k).1)));
        assert(stepped_onto(rows, active, face, q));
    }
}

/// One step of the walk: marks the squares on which a player scores,
/// and returns where the players stand then on the grid, and whether
/// one has left it.
fn step(grid: &Grid, act: &Vec<Vec<bool>>, got: &mut Vec<Vec<bool>>, face: i32) -> (next: (
    Vec<Vec<bool>>,
    bool,
))
    requires
        shaped_like(marks_view(act@), grid@),
        shaped_like(marks_view(old(got)@), grid@),
    ensures
        shaped_like(marks_view(next.0@), grid@),
        shaped_like(marks_view(final(got)@), grid@),
        forall|y: int, x: int|
            0 <= y < grid@.len() && 0 <= x < grid@[y].len() ==> #[trigger] marks_view(
                next.0@,
            )[y][x] == stepped_onto(grid@, marked(marks_view(act@)), face, (x, y)),
        forall|y: int, x: int|
            0 <= y < grid@.len() && 0 <= x < grid@[y].len() ==> #[trigger] marks_view(
                final(got)@,
            )[y][x] == (marks_view(old(got)@)[y][x] || scores(
                grid@,
                marked(marks_view(act@)),
                face,
                (x, y),
            )),
        next.1 == strays(grid@, marked(marks_view(act@)), face),
{
    let ghost rows = grid@;
    let ghost active = marked(marks_view(act@));
    let ghost before = marks_view(got@);
    let mut next: Vec<Vec<bool>> = Vec::new();
    let mut left_grid = false;
    let mut y: usize = 0;
    while y < grid.rows.len()
        invariant
            0 <= y <= grid.rows.len(),
            rows == grid@,
            active == marked(marks_view(act@)),
            before == marks_view(old(got)@),
            shaped_like(marks_view(act@), rows),
            shaped_like(before, rows),
            shaped_like(marks_view(got@), rows),
            next@.len() == y,
            forall|j: int| 0 <= j < y ==> (#[trigger] next@[j])@.len() == rows[j].len(),
            forall|j: int, x: int|
                0 <= j < y && 0 <= x < rows[j].len() ==> #[trigger] next@[j]@[x] == stepped_onto(
                    rows,
                    active,
                    face,
                    (x, j),
                ),
            forall|j: int, x: int|
                0 <= j < rows.len() && 0 <= x < rows[j].len() ==> #[trigger] marks_view(
                    got@,
                )[j][x] == (before[j][x] || (j < y && scores(rows, active, face, (x, j)))),
            left_grid == strays_before(rows, active, face, y as int, 0),
        decreases grid.rows.len() - y,
    {
        assert(rows[y as int] == grid.rows@[y as int]@);
        let width = grid.rows[y].len();
        let mut row: Vec<bool> = Vec::new();
        let mut marks = marks_like_row(width, false);
        let ghost got_before = marks_view(got@);
        assert(got_before[y as int].len() == width);
        let mut x: usize = 0;
        while x < width
            invariant
                0 <= y < grid.rows.len(),
                0 <= x <= width,
                width == rows[y as int].len(),
                rows == grid@,
                active == marked(marks_view(act@)),
                shaped_like(marks_view(act@), rows),
                row@.len() == x,
                marks@.len() == width,
                forall|i: int|
                    0 <= i < x ==> #[trigger] row@[i] == stepped_onto(rows, active, face, (i, y as int)),
                forall|i: int|
                    0 <= i < width ==> #[trigger] marks@[i] == (i < x && scores(
                        rows,
                        active,
                        face,
                        (i, y as int),
                    )),
                left_grid == strays_before(rows, active, face, y as int, x as int),
            decreases width - x,
        {
            let here = scores_at(grid, act, face, x, y);
            let right = scores_at(grid, act, face, x + 1, y);
            let left = x > 0 && scores_at(grid, act, face, x - 1, y);
            let down = scores_at(grid, act, face, x, y + 1);
            let up = y > 0 && scores_at(grid, act, face, x, y - 1);
            let ghost q = (x as int, y as int);
            proof {
                assert(here == scores(rows, active, face, (q.0 - offset(0).0, q.1 - offset(0).1)));
                assert(left == scores(rows, active, face, (q.0 - offset(1).0, q.1 - offset(1).1)));
                assert(right == scores(rows, active, face, (q.0 - offset(2).0, q.1 - offset(2).1)));
                assert(up == scores(rows, active, face, (q.0 - offset(3).0, q.1 - offset(3).1)));
                assert(down == scores(rows, active, face, (q.0 - offset(4).0, q.1 - offset(4).1)));
                if stepped_onto(rows, active, face, q) {
                    let k = choose|k: int|
                        0 <= k < 5 && #[trigger] scores(
                            rows,
                            active,
                            face,
                            (q.0 - offset(k).0, q.1 - offset(k).1),
                        );
                    assert(here || right || left || down || up);
                }
            }
            row.push(here || right || left || down || up);
            if here {
                marks.set(x, true);
                if at_edge(grid, x, y) {
                    left_grid = true;
                }
            }
            proof {
                lemma_strays_next(rows, active, face, y as int, x as int);
            }
            x += 1;
        }
        proof {
            lemma_strays_row(rows, active, face, y as int, width as int);
        }
        next.push(row);
        let ghost got_mid = marks_view(got@);
        let mut i: usize = 0;
        while i < width
            invariant
                0 <= y < grid.rows.len(),
                0 <= i <= width,
                rows == grid@,
                width == rows[y as int].len(),
                marks@.len() == width,
                shaped_like(got_mid, rows),
                shaped_like(marks_view(got@), rows),
                forall|j: int, c: int|
                    0 <= j < rows.len() && 0 <= c < rows[j].len() && j != y ==> #[trigger] marks_view(
                        got@,
                    )[j][c] == got_mid[j][c],
                forall|c: int|
                    0 <= c < width ==> #[trigger] marks_view(got@)[y as int][c] == (got_mid[y as int][c]
                        || (c < i && marks@[c])),
            decreases width - i,
        {
            if marks[i] {
                let ghost now = marks_view(got@);
                assert(now[y as int] == got@[y as int]@);
                got[y].set(i, true);
                proof {
                    let then = marks_view(got@);
                    assert(then[y as int] == got@[y as int]@);
                    assert forall|j: int| 0 <= j < rows.len() && j != y implies then[j]
                        == now[j] by {
                        assert(then[j] == got@[j]@);
                    }
                }
            }
            i += 1;
        }
        y += 1;
    }
    proof {
        lemma_strays(rows, active, face);
        assert(marks_view(next@).len() == rows.len());
        assert forall|j: int| 0 <= j < rows.len() implies (#[trigger] marks_view(next@)[j]).len()
            == rows[j].len() by {
            assert(marks_view(next@)[j] == next@[j]@);
        }
    }
    (next, left_grid)
}

/// A row of marks, all set to `mark`.
fn marks_like_row(width: usize, mark: bool) -> (row: Vec<bool>)
    ensures
        row@.len() == width,
        forall|i: int| 0 <= i < width ==> row@[i] == mark,
{
    let mut row: Vec<bool> = Vec::new();
    let mut x: usize = 0;
    while x < width
        invariant
            0 <= x <= width,
            row@.len() == x,
            forall|i: int| 0 <= i < x ==> row@[i] == mark,
        decreases width - x,
    {
        row.push(mark);
        x += 1;
    }
    row
}

/// The players at the edge up to a square are those before it, and
/// the one on it.
pub proof fn lemma_strays_next(rows: Seq<Seq<i32>>, active: Set<Square>, face: i32, y: int, x: int)
    ensures
        strays_before(rows, active, face, y, x + 1) == (strays_before(rows, active, face, y, x) || (
        scores(rows, active, face, (x, y)) && off_edge(rows, (x, y)))),
{
    if strays_before(rows, active, face, y, x + 1) {
        let p = choose|p: Square|
            (p.1 < y || (p.1 == y && p.0 < x + 1)) && #[trigger] scores(rows, active, face, p)
                && off_edge(rows, p);
        if p != (x, y) {
            assert(p.1 < y || (p.1 == y && p.0 < x));
        }
    }
    if strays_before(rows, active, face, y, x) {
        let p = choose|p: Square|
            (p.1 < y || (p.1 == y && p.0 < x)) && #[trigger] scores(rows, active, face, p)
                && off_edge(rows, p);
        assert(p.1 < y || (p.1 == y && p.0 < x + 1));
    }
    if scores(rows, active, face, (x, y)) && off_edge(rows, (x, y)) {
        let p = (x, y);
        assert((p.1 < y || (p.1 == y && p.0 < x + 1)) && scores(rows, active, face, p));
    }
}

/// The players at the edge up to the end of a row are those up to the
/// start of the next.
pub proof fn lemma_strays_row(rows: Seq<Seq<i32>>, active: Set<Square>, face: i32, y: int, width: int)
    requires
        0 <= y < rows.len(),
        width == rows[y].len(),
    ensures
        strays_before(rows, active, face, y, width) == strays_before(rows, active, face, y + 1, 0),
{
    if strays_before(rows, active, face, y, width) {
        let p = choose|p: Square|
            (p.1 < y || (p.1 == y && p.0 < width)) && #[trigger] scores(rows, active, face, p)
                && off_edge(rows, p);
        assert(p.1 < y + 1);
    }
    if strays_before(rows, active, face, y + 1, 0) {
        let p = choose|p: Square|
            (p.1 < y + 1 || (p.1 == y + 1 && p.0 < 0)) && #[trigger] scores(rows, active, face, p)
                && off_edge(rows, p);
        assert(on_grid(rows, p));
        assert(p.1 < y || (p.1 == y && p.0 < width));
    }
}

/// Who scores depends on the players on the grid alone.
pub proof fn lemma_same_on_grid(rows: Seq<Seq<i32>>, a: Set<Square>, b: Set<Square>, face: i32)
    requires
        forall|p: Square| on_grid(rows, p) ==> a.contains(p) == b.contains(p),
    ensures
        stepped(rows, a, face) == stepped(rows, b, face),
        strays(rows, a, face) == strays(rows, b, face),
        forall|p: Square| scores(rows, a, face, p) == scores(rows, b, face, p),
{
    assert forall|q: Square| stepped_onto(rows, a, face, q) == stepped_onto(rows, b, face, q) by {
        if stepped_onto(rows, a, face, q) {
            let k = choose|k: int|
                0 <= k < 5 && #[trigger] scores(rows, a, face, (q.0 - offset(k).0, q.1 - offset(k).1));
            assert(scores(rows, b, face, (q.0 - offset(k).0, q.1 - offset(k).1)));
        }
        if stepped_onto(rows, b, face, q) {
            let k = choose|k: int|
                0 <= k < 5 && #[trigger] scores(rows, b, face, (q.0 - offset(k).0, q.1 - offset(k).1));
            assert(scores(rows, a, face, (q.0 - offset(k).0, q.1 - offset(k).1)));
        }
    }
    assert(stepped(rows, a, face) =~= stepped(rows, b, face));
    if strays(rows, a, face) {
        let q = choose|q: Square| !on_grid(rows, q) && #[trigger] stepped_onto(rows, a, face, q);
        assert(stepped_onto(rows, b, face, q));
    }
    if strays(rows, b, face) {
        let q = choose|q: Square| !on_grid(rows, q) && #[trigger] stepped_onto(rows, b, face, q);
        assert(stepped_onto(rows, a, face, q));
    }
}

/// Lets players walk from every square of the grid at once. After each
/// roll of the die the players on a square that shows the face rolled
/// score there and stay or step to a side, and the others leave. The
/// squares on which a player has scored are marked. `None` when
/// players are left after `limit` steps or the die cannot be rolled.
pub fn reachable_coins_by_walk(grid: &Grid, die: &mut Die, limit: usize) -> (reached: Option<
    Vec<Vec<bool>>,
>)
    ensures
        match reached {
            Some(m) => shaped_like(marks_view(m@), grid@) && coins_reached(
                grid@,
                *old(die),
                limit as nat,
            ).0 == Some(marked(marks_view(m@))),
            None => coins_reached(grid@, *old(die), limit as nat).0.is_none(),
        },
        *final(die) == coins_reached(grid@, *old(die), limit as nat).1,
{
    let ghost rows = grid@;
    if !die.check_roll() {
        return None;
    }
    let mut face = die.roll();
    let mut act = marks_like(grid, true);
    let mut strayed = false;
    let mut got = marks_like(grid, false);
    let ghost mut active = all_squares(rows);
    let ghost mut reached = Set::<Square>::empty();
    let mut left: usize = limit;
    assert(reached =~= marked(marks_view(got@)));
    loop
        invariant
            rows == grid@,
            shaped_like(marks_view(act@), rows),
            shaped_like(marks_view(got@), rows),
            forall|p: Square|
                on_grid(rows, p) ==> active.contains(p) == marked(marks_view(act@)).contains(p),
            strayed == exists|p: Square| !on_grid(rows, p) && active.contains(p),
            reached == marked(marks_view(got@)),
            coins_reached(rows, *old(die), limit as nat) == walk(
                rows,
                *die,
                face,
                active,
                reached,
                left as nat,
            ),
        decreases left,
    {
        let any = any_marked(&act);
        proof {
            if nobody(active) {
                assert forall|p: Square| !marked(marks_view(act@)).contains(p) by {
                    if marked(marks_view(act@)).contains(p) {
                        assert(on_grid(rows, p));
                        assert(active.contains(p));
                    }
                }
            }
            if !strayed && !any {
                assert forall|p: Square| !active.contains(p) by {
                    if on_grid(rows, p) {
                        assert(!marked(marks_view(act@)).contains(p));
                    }
                }
            }
        }
        if !strayed && !any {
            return Some(got);
        }
        if left == 0 || !die.check_roll() {
            return None;
        }
        let ghost got_before = marks_view(got@);
        let (next, off) = step(grid, &act, &mut got, face);
        proof {
            lemma_same_on_grid(rows, active, marked(marks_view(act@)), face);
            let onward = stepped(rows, active, face);
            let more = gathered(rows, active, face, reached);
            assert forall|p: Square| on_grid(rows, p) implies onward.contains(p) == marked(
                marks_view(next@),
            ).contains(p) by {
                assert(marks_view(next@)[p.1][p.0] == stepped_onto(
                    rows,
                    marked(marks_view(act@)),
                    face,
                    (p.0, p.1),
                ));
                assert(stepped(rows, marked(marks_view(act@)), face).contains(p)
                    == stepped_onto(rows, marked(marks_view(act@)), face, p));
            }
            assert(off == exists|p: Square| !on_grid(rows, p) && onward.contains(p)) by {
                if strays(rows, active, face) {
                    let q = choose|q: Square|
                        !on_grid(rows, q) && #[trigger] stepped_onto(rows, active, face, q);
                    assert(onward.contains(q));
                }
                if exists|p: Square| !on_grid(rows, p) && onward.contains(p) {
                    let q = choose|p: Square| !on_grid(rows, p) && onward.contains(p);
                    assert(stepped_onto(rows, active, face, q));
                }
            }
            assert(more =~= marked(marks_view(got@))) by {
                assert forall|p: Square| more.contains(p) == marked(marks_view(got@)).contains(
                    p,
                ) by {
                    if on_grid(rows, p) {
                        assert(marks_view(got@)[p.1][p.0] == (got_before[p.1][p.0] || scores(
                            rows,
                            marked(marks_view(act@)),
                            face,
                            (p.0, p.1),
                        )));
                        assert(reached.contains(p) == got_before[p.1][p.0]);
                    } else {
                        assert(!reached.contains(p));
                    }
                }
            }
            active = onward;
            reached = more;
        }
        face = die.roll();
        act = next;
        strayed = off;
        left -= 1;
    }
}

/// The squares on which a player scores with one of the first `upto`
/// dice.
pub open spec fn reached_by_any(rows: Seq<Seq<i32>>, dice: Seq<Die>, limit: nat, upto: int) -> Set<
    Square,
> {
    Set::new(
        |p: Square|
            exists|k: int|
                0 <= k < upto && (#[trigger] coins_reached(rows, dice[k], limit)).0 is Some
                    && coins_reached(rows, dice[k], limit).0.unwrap().contains(p),
    )
}

/// The walk comes to an end with each of the first `upto` dice.
pub open spec fn all_end(rows: Seq<Seq<i32>>, dice: Seq<Die>, limit: nat, upto: int) -> bool {
    forall|k: int| 0 <= k < upto ==> (#[trigger] coins_reached(rows, dice[k], limit)).0 is Some
}

/// Walks with one die after the other and marks the squares on which a
/// player scores with one of them; `None` when a walk does not come to
/// an end in `limit` steps or a die cannot be rolled.
pub fn all_reached(grid: &Grid, old_dice: Vec<Die>, limit: usize) -> (reached: Option<Vec<Vec<bool>>>)
    ensures
        match reached {
            Some(m) => all_end(grid@, old_dice@, limit as nat, old_dice@.len() as int)
                && shaped_like(marks_view(m@), grid@) && marked(marks_view(m@)) == reached_by_any(
                grid@,
                old_dice@,
                limit as nat,
                old_dice@.len() as int,
            ),
            None => !all_end(grid@, old_dice@, limit as nat, old_dice@.len() as int),
        },
{
    let ghost rows = grid@;
    let ghost given = old_dice@;
    let mut dice = old_dice;
    let n = dice.len();
    let mut all = marks_like(grid, false);
    assert(marked(marks_view(all@)) =~= reached_by_any(rows, given, limit as nat, 0));
    let mut k: usize = 0;
    while k < n
        invariant
            0 <= k <= n,
            rows == grid@,
            given == old_dice@,
            n == dice@.len(),
            n == given.len(),
            forall|j: int| k <= j < n ==> #[trigger] dice@[j] == given[j],
            all_end(rows, given, limit as nat, k as int),
            shaped_like(marks_view(all@), rows),
            marked(marks_view(all@)) == reached_by_any(rows, given, limit as nat, k as int),
        decreases n - k,
    {
        let ghost before = dice@;
        assert(before[k as int] == given[k as int]);
        let found = reachable_coins_by_walk(grid, &mut dice[k], limit);
        assert forall|j: int| k + 1 <= j < n implies #[trigger] dice@[j] == given[j] by {
            assert(before[j] == given[j]);
        }
        match found {
            Some(m) => {
                let ghost all_before = marks_view(all@);
                proof {
                    assert(m@.len() == rows.len());
                    assert forall|y: int| 0 <= y < m@.len() implies (#[trigger] all@[y])@.len()
                        == m@[y]@.len() by {
                        assert(marks_view(all@)[y] == all@[y]@);
                        assert(marks_view(m@)[y] == m@[y]@);
                    }
                }
                merge(&mut all, &m);
                proof {
                    assert forall|y: int| 0 <= y < rows.len() implies (#[trigger] marks_view(
                        all@,
                    )[y]).len() == rows[y].len() by {
                        assert(marks_view(all@)[y] == all@[y]@);
                        assert(marks_view(m@)[y] == m@[y]@);
                    }
                    assert forall|y: int, x: int|
                        0 <= y < rows.len() && 0 <= x < rows[y].len() implies #[trigger] marks_view(
                        all@,
                    )[y][x] == (all_before[y][x] || marks_view(m@)[y][x]) by {
                        assert(marks_view(all@)[y] == all@[y]@);
                        assert(marks_view(m@)[y] == m@[y]@);
                        assert(all@[y]@[x] == (all_before[y][x] || m@[y]@[x]));
                    }
                    let now = marked(marks_view(all@));
                    let one = marked(marks_view(m@));
                    assert forall|p: Square| now.contains(p) == reached_by_any(
                        rows,
                        given,
                        limit as nat,
                        k + 1,
                    ).contains(p) by {
                        assert(marked(all_before).contains(p) == reached_by_any(
                            rows,
                            given,
                            limit as nat,
                            k as int,
                        ).contains(p));
                        if reached_by_any(rows, given, limit as nat, k + 1).contains(p) {
                            let j = choose|j: int|
                                0 <= j < k + 1 && (#[trigger] coins_reached(
                                    rows,
                                    given[j],
                                    limit as nat,
                                )).0 is Some && coins_reached(
                                    rows,
                                    given[j],
                                    limit as nat,
                                ).0.unwrap().contains(p);
                            if j < k {
                                assert(reached_by_any(rows, given, limit as nat, k as int).contains(
                                    p,
                                ));
                            }
                        }
                        if reached_by_any(rows, given, limit as nat, k as int).contains(p) {
                            let j = choose|j: int|
                                0 <= j < k && (#[trigger] coins_reached(
                                    rows,
                                    given[j],
                                    limit as nat,
                                )).0 is Some && coins_reached(
                                    rows,
                                    given[j],
                                    limit as nat,
                                ).0.unwrap().contains(p);
                            assert(0 <= j < k + 1);
                        }
                        if one.contains(p) {
                            assert(coins_reached(rows, given[k as int], limit as nat).0 is Some);
                        }
                    }
                    assert(now =~= reached_by_any(rows, given, limit as nat, k + 1));
                }
            },
            None => {
                assert(coins_reached(rows, given[k as int], limit as nat).0.is_none());
                return None;
            },
        }
        k += 1;
    }
    Some(all)
}

/// Marks in `all` what is marked in `more`.
pub fn merge(all: &mut Vec<Vec<bool>>, more: &Vec<Vec<bool>>)
    requires
        old(all)@.len() == more@.len(),
        forall|y: int| 0 <= y < more@.len() ==> (#[trigger] old(all)@[y])@.len() == more@[y]@.len(),
    ensures
        final(all)@.len() == more@.len(),
        forall|y: int| 0 <= y < more@.len() ==> (#[trigger] final(all)@[y])@.len() == more@[y]@.len(),
        forall|y: int, x: int|
            0 <= y < more@.len() && 0 <= x < more@[y]@.len() ==> #[trigger] final(all)@[y]@[x] == (
            old(all)@[y]@[x] || more@[y]@[x]),
{
    let mut y: usize = 0;
    while y < more.len()
        invariant
            0 <= y <= more.len(),
            all@.len() == more@.len(),
            forall|j: int| 0 <= j < more@.len() ==> (#[trigger] all@[j])@.len() == more@[j]@.len(),
            forall|j: int, x: int|
                0 <= j < more@.len() && 0 <= x < more@[j]@.len() ==> #[trigger] all@[j]@[x] == (
                old(all)@[j]@[x] || (j < y && more@[j]@[x])),
        decreases more.len() - y,
    {
        let ghost mid = all@;
        let mut x: usize = 0;
        while x < more[y].len()
            invariant
                0 <= y < more.len(),
                0 <= x <= more@[y as int]@.len(),
                all@.len() == more@.len(),
                mid.len() == more@.len(),
                forall|j: int| 0 <= j < more@.len() ==> (#[trigger] mid[j])@.len() == more@[j]@.len(),
                forall|j: int|
                    0 <= j < more@.len() ==> (#[trigger] all@[j])@.len() == more@[j]@.len(),
                forall|j: int| 0 <= j < more@.len() && j != y ==> #[trigger] all@[j] == mid[j],
                forall|c: int|
                    0 <= c < more@[y as int]@.len() ==> #[trigger] all@[y as int]@[c] == (mid[y as int]@[c]
                        || (c < x && more@[y as int]@[c])),
            decreases more@[y as int]@.len() - x,
        {
            if more[y][x] {
                all[y].set(x, true);
            }
            x += 1;
        }
        y += 1;
    }
}

/// How many of the first `upto` marks of a row are set.
pub open spec fn set_in_row(row: Seq<bool>, upto: nat) -> nat
    decreases upto,
{
    if upto == 0 {
        0
    } else {
        set_in_row(row, (upto - 1) as nat) + (if row[upto - 1] {
            1nat
        } else {
            0nat
        })
    }
}

/// How many marks of the first `upto` rows are set.
pub open spec fn set_in_rows(marks: Seq<Seq<bool>>, upto: nat) -> nat
    decreases upto,
{
    if upto == 0 {
        0
    } else {
        set_in_rows(marks, (upto - 1) as nat) + set_in_row(marks[upto - 1], marks[upto - 1].len())
    }
}

/// The marks set grow with the marks counted.
pub proof fn lemma_set_in_row_grows(row: Seq<bool>, a: nat, b: nat)
    requires
        a <= b,
    ensures
        set_in_row(row, a) <= set_in_row(row, b),
    decreases b,
{
    if a < b {
        lemma_set_in_row_grows(row, a, (b - 1) as nat);
    }
}

/// The marks set grow with the rows counted.
pub proof fn lemma_set_in_rows_grows(marks: Seq<Seq<bool>>, a: nat, b: nat)
    requires
        a <= b,
    ensures
        set_in_rows(marks, a) <= set_in_rows(marks, b),
    decreases b,
{
    if a < b {
        lemma_set_in_rows_grows(marks, a, (b - 1) as nat);
    }
}

/// How many marks are set; `None` when the number leaves the machine word.
pub fn count_marked(marks: &Vec<Vec<bool>>) -> (count: Option<usize>)
    ensures
        count == (if set_in_rows(marks_view(marks@), marks@.len()) <= usize::MAX {
            Some(set_in_rows(marks_view(marks@), marks@.len()) as usize)
        } else {
            None
        }),
{
    let ghost view = marks_view(marks@);
    let mut count: usize = 0;
    let mut y: usize = 0;
    while y < marks.len()
        invariant
            0 <= y <= marks.len(),
            view == marks_view(marks@),
            count == set_in_rows(view, y as nat),
        decreases marks.len() - y,
    {
        assert(view[y as int] == marks@[y as int]@);
        let ghost before = count;
        let mut x: usize = 0;
        while x < marks[y].len()
            invariant
                0 <= y < marks.len(),
                0 <= x <= marks@[y as int]@.len(),
                view == marks_view(marks@),
                view[y as int] == marks@[y as int]@,
                before == set_in_rows(view, y as nat),
                count == before + set_in_row(view[y as int], x as nat),
            decreases marks@[y as int]@.len() - x,
        {
            if marks[y][x] {
                if count == usize::MAX {
                    proof {
                        lemma_set_in_row_grows(view[y as int], (x + 1) as nat, view[y as int].len());
                        lemma_set_in_rows_grows(view, (y + 1) as nat, marks@.len());
                    }
                    return None;
                }
                count += 1;
            }
            x += 1;
        }
        y += 1;
    }
    Some(count)
}

} // verus!
