//! A clapping dance: columns of dancers, of whom the one in front of a
//! column walks round the next column in every round and takes the place
//! that her number leads her to.

use crate::digits::{join_decimal, join_numbers};
use crate::text::{
    chars_of, copy_of, fields, fields_of, lines, lines_of, parse_words_of, pieces_view, words,
};
use crate::table::TranspositionTable;
use std::collections::HashMap;
use vstd::prelude::*;

verus! {

broadcast use vstd::std_specs::hash::group_hash_axioms;

/// Why a dance cannot go on or show a number.
#[derive(Clone, Copy, Debug, PartialEq, Eq, Structural)]
pub enum DanceError {
    /// A column is empty.
    EmptyColumn,
    /// The numbers in front spell no number that fits in a machine word,
    /// or a field of the input is no number.
    BadNumber,
    /// A row of the input has more numbers than the first row.
    RaggedRow,
}

/// The columns of the dance, front first, and the rounds danced.
pub struct Dance {
    pub grid: Vec<Vec<usize>>,
    pub round: usize,
}

/// Where the dancer `dancer` comes to stand in a column of `len`
/// dancers: she counts the dancers down one side and up the other, over
/// and over, and stands in front of the one she ends at going down, behind
/// her going up.
pub open spec fn landing(dancer: usize, len: int) -> int {
    let down = if len == 1 {
        dancer % 2 == 1
    } else {
        ((dancer - 1) / len) % 2 == 0
    };
    if dancer as int % len == 0 {
        if down {
            len - 1
        } else {
            1
        }
    } else {
        if down {
            (dancer - 1) % len
        } else {
            len - (dancer as int % len) + 1
        }
    }
}

/// The columns as sequences.
pub open spec fn columns_view(grid: Seq<Vec<usize>>) -> Seq<Seq<usize>> {
    Seq::new(grid.len(), |i: int| grid[i]@)
}

/// The column that gives its dancer in the round after `round` rounds.
pub open spec fn giving(columns: Seq<Seq<usize>>, round: usize) -> int {
    round as int % (columns.len() as int)
}

/// The column that takes the dancer.
pub open spec fn taking(columns: Seq<Seq<usize>>, round: usize) -> int {
    (giving(columns, round) + 1) % (columns.len() as int)
}

/// The columns after the dancer in front has left her column.
pub open spec fn after_leaving(columns: Seq<Seq<usize>>, round: usize) -> Seq<Seq<usize>> {
    columns.update(giving(columns, round), columns[giving(columns, round)].drop_first())
}

/// The columns after one more round.
pub open spec fn after_round(columns: Seq<Seq<usize>>, round: usize) -> Seq<Seq<usize>> {
    let dancer = columns[giving(columns, round)][0];
    let left = after_leaving(columns, round);
    let to = taking(columns, round);
    left.update(to, left[to].insert(landing(dancer, left[to].len() as int), dancer))
}

/// The numbers in front of the columns.
pub open spec fn fronts(columns: Seq<Seq<usize>>) -> Seq<u64> {
    Seq::new(columns.len(), |i: int| columns[i][0] as u64)
}

/// What the dance shows: the numbers in front, read as one number.
pub open spec fn shown(columns: Seq<Seq<usize>>) -> Result<usize, DanceError> {
    if exists|i: int| 0 <= i < columns.len() && (#[trigger] columns[i]).len() == 0 {
        Err(DanceError::EmptyColumn)
    } else if columns.len() == 0 || join_decimal(fronts(columns)) > usize::MAX {
        Err(DanceError::BadNumber)
    } else {
        Ok(join_decimal(fronts(columns)) as usize)
    }
}

impl Dance {
    /// The columns as sequences.
    pub open spec fn columns(&self) -> Seq<Seq<usize>> {
        columns_view(self.grid@)
    }

    /// The next round can be danced: there is a column, the rounds can be
    /// counted on, and the column that takes the dancer is not empty and
    /// lets her count.
    pub open spec fn can_move(&self) -> bool {
        &&& self.grid@.len() > 0
        &&& self.round < usize::MAX
        &&& self.columns()[giving(self.columns(), self.round)].len() > 0 ==> {
            let dancer = self.columns()[giving(self.columns(), self.round)][0];
            let len = after_leaving(self.columns(), self.round)[taking(
                self.columns(),
                self.round,
            )].len();
            len >= 1 && (len != 1 ==> dancer >= 1)
        }
    }

    /// Decides whether the next round can be danced.
    pub fn check_move(&self) -> (ok: bool)
        ensures
            ok == self.can_move(),
    {
        let columns = self.grid.len();
        if columns == 0 || self.round == usize::MAX {
            return false;
        }
        let i_from = self.round % columns;
        let i_to = (i_from + 1) % columns;
        if self.grid[i_from].len() == 0 {
            return true;
        }
        let dancer = self.grid[i_from][0];
        let len = if i_to == i_from {
            self.grid[i_from].len() - 1
        } else {
            self.grid[i_to].len()
        };
        assert(len == after_leaving(self.columns(), self.round)[i_to as int].len());
        len >= 1 && (len == 1 || dancer >= 1)
    }

    /// How many rounds were danced.
    pub fn get_round(&self) -> (round: usize)
        ensures
            round == self.round,
    {
        self.round
    }

    /// The numbers in front of the columns, read as one number.
    pub fn get_number(&self) -> (number: Result<usize, DanceError>)
        ensures
            number == shown(self.columns()),
    {
        let mut firsts: Vec<u64> = Vec::new();
        let mut i: usize = 0;
        while i < self.grid.len()
            invariant
                0 <= i <= self.grid.len(),
                firsts@.len() == i,
                forall|j: int| 0 <= j < i ==> (#[trigger] self.columns()[j]).len() > 0,
                forall|j: int| 0 <= j < i ==> firsts@[j] == self.columns()[j][0] as u64,
            decreases self.grid.len() - i,
        {
            if self.grid[i].len() == 0 {
                assert(self.columns()[i as int].len() == 0);
                return Err(DanceError::EmptyColumn);
            }
            firsts.push(self.grid[i][0] as u64);
            i += 1;
        }
        assert(firsts@ =~= fronts(self.columns()));
        if self.grid.len() == 0 {
            return Err(DanceError::BadNumber);
        }
        match join_numbers(&firsts) {
            Some(v) => {
                if v <= usize::MAX as u64 {
                    Ok(v as usize)
                } else {
                    Err(DanceError::BadNumber)
                }
            },
            None => Err(DanceError::BadNumber),
        }
    }

    /// Dances one round: the dancer in front of the column whose turn it is
    /// leaves it and takes her place in the next column. When her column is
    /// empty the round still counts, and nothing else changes.
    pub fn move_dancer(&mut self) -> (moved: Result<(), DanceError>)
        requires
            old(self).can_move(),
        ensures
            final(self).round == old(self).round + 1,
            match moved {
                Ok(_) => old(self).columns()[giving(old(self).columns(), old(self).round)].len()
                    > 0 && final(self).columns() == after_round(
                    old(self).columns(),
                    old(self).round,
                ),
                Err(e) => e == DanceError::EmptyColumn && old(self).columns()[giving(
                    old(self).columns(),
                    old(self).round,
                )].len() == 0 && final(self).columns() == old(self).columns(),
            },
    {
        let ghost before = self.columns();
        let ghost round = self.round;
        self.round += 1;
        let columns = self.grid.len();
        let i_from = (self.round - 1) % columns;
        let i_to = (i_from + 1) % columns;
        if self.grid[i_from].len() == 0 {
            assert(self.columns() =~= before);
            return Err(DanceError::EmptyColumn);
        }
        let mut from_column = copy_of(&self.grid[i_from]);
        let dancer = from_column.remove(0);
        assert(from_column@ =~= before[i_from as int].drop_first());
        self.grid.set(i_from, from_column);
        assert(self.columns() =~= after_leaving(before, round));
        let mut to_column = copy_of(&self.grid[i_to]);
        let column_len = to_column.len();
        let is_moving_down = if column_len == 1 {
            dancer % 2 == 1
        } else {
            ((dancer - 1) / column_len) % 2 == 0
        };
        let is_at_endpoint = dancer % column_len == 0;
        let insert_index = if is_at_endpoint {
            if is_moving_down {
                column_len - 1
            } else {
                1
            }
        } else {
            if is_moving_down {
                (dancer - 1) % column_len
            } else {
                column_len - (dancer % column_len) + 1
            }
        };
        assert(insert_index == landing(dancer, column_len as int));
        to_column.insert(insert_index, dancer);
        self.grid.set(i_to, to_column);
        assert(self.columns() =~= after_round(before, round));
        Ok(())
    }
}

/// The numbers of every row of a text, if every field spells one.
pub open spec fn table_of(text: Seq<char>) -> Option<Seq<Seq<usize>>> {
    let ls = lines(text);
    if forall|k: int| 0 <= k < ls.len() ==> words(fields(#[trigger] ls[k])) is Some {
        Some(Seq::new(ls.len(), |k: int| words(fields(ls[k])).unwrap()))
    } else {
        None
    }
}

/// Some row after the first has more numbers than the first.
pub open spec fn ragged(table: Seq<Seq<usize>>) -> bool {
    exists|k: int| 0 < k < table.len() && (#[trigger] table[k]).len() > table[0].len()
}

/// Column `j` of the first `upto` rows: the numbers in place `j` of
/// the rows that have one, from the top.
pub open spec fn column_of(table: Seq<Seq<usize>>, j: int, upto: nat) -> Seq<usize>
    decreases upto,
{
    if upto == 0 {
        Seq::empty()
    } else {
        column_of(table, j, (upto - 1) as nat) + (if j < table[upto - 1].len() {
            seq![table[upto - 1][j]]
        } else {
            Seq::empty()
        })
    }
}

/// The tables of a list of rows, as sequences.
pub open spec fn table_view(table: Seq<Vec<usize>>) -> Seq<Seq<usize>> {
    Seq::new(table.len(), |k: int| table[k]@)
}

impl Dance {
    /// The dance is the one that the table lays out, before its first
    /// round: a column for every number of the first row, filled from the
    /// rows in turn.
    pub open spec fn laid_out(&self, table: Seq<Seq<usize>>) -> bool {
        &&& self.round == 0
        &&& self.grid@.len() == (if table.len() == 0 {
            0
        } else {
            table[0].len()
        })
        &&& forall|j: int|
            0 <= j < self.grid@.len() ==> (#[trigger] self.grid@[j])@ == column_of(
                table,
                j,
                table.len(),
            )
    }

    /// Lays out the dance from a table of numbers.
    pub fn from_table(table: &Vec<Vec<usize>>) -> (dance: Result<Dance, DanceError>)
        ensures
            match dance {
                Ok(d) => !ragged(table_view(table@)) && d.laid_out(table_view(table@)),
                Err(e) => e == DanceError::RaggedRow && ragged(table_view(table@)),
            },
    {
        let ghost rows = table_view(table@);
        let mut columns: Vec<Vec<usize>> = Vec::new();
        if table.len() == 0 {
            return Ok(Dance { grid: columns, round: 0 });
        }
        let width = table[0].len();
        let mut j: usize = 0;
        while j < width
            invariant
                0 <= j <= width,
                columns@.len() == j,
                forall|c: int| 0 <= c < j ==> (#[trigger] columns@[c])@ == column_of(rows, c, 0),
            decreases width - j,
        {
            columns.push(Vec::new());
            j += 1;
        }
        let mut i: usize = 0;
        while i < table.len()
            invariant
                0 <= i <= table.len(),
                rows == table_view(table@),
                width == rows[0].len(),
                columns@.len() == width,
                forall|k: int| 0 < k < i ==> (#[trigger] rows[k]).len() <= width,
                forall|c: int|
                    0 <= c < width ==> (#[trigger] columns@[c])@ == column_of(rows, c, i as nat),
            decreases table.len() - i,
        {
            let row = &table[i];
            if row.len() > width {
                assert(rows[i as int].len() > rows[0].len());
                return Err(DanceError::RaggedRow);
            }
            let mut j: usize = 0;
            while j < width
                invariant
                    0 <= j <= width,
                    0 <= i < table.len(),
                    rows == table_view(table@),
                    *row == table@[i as int],
                    row@.len() <= width,
                    columns@.len() == width,
                    forall|c: int|
                        0 <= c < j ==> (#[trigger] columns@[c])@ == column_of(
                            rows,
                            c,
                            (i + 1) as nat,
                        ),
                    forall|c: int|
                        j <= c < width ==> (#[trigger] columns@[c])@ == column_of(
                            rows,
                            c,
                            i as nat,
                        ),
                decreases width - j,
            {
                if j < row.len() {
                    let mut column = copy_of(&columns[j]);
                    column.push(row[j]);
                    assert(rows[i as int][j as int] == row@[j as int]);
                    columns.set(j, column);
                } else {
                    assert(column_of(rows, j as int, (i + 1) as nat) =~= column_of(
                        rows,
                        j as int,
                        i as nat,
                    ));
                }
                j += 1;
            }
            i += 1;
        }
        Ok(Dance { grid: columns, round: 0 })
    }

    /// Reads a dance from its text: rows of numbers, the first dancer of
    /// every column in the first row.
    pub fn parse(input: &str) -> (dance: Result<Dance, DanceError>)
        ensures
            match dance {
                Ok(d) => table_of(input@) is Some && !ragged(table_of(input@).unwrap())
                    && d.laid_out(table_of(input@).unwrap()),
                Err(e) => match table_of(input@) {
                    Some(t) => e == DanceError::RaggedRow && ragged(t),
                    None => e == DanceError::BadNumber,
                },
            },
    {
        let chars = chars_of(input);
        let ls = lines_of(&chars);
        let ghost views = pieces_view(ls@);
        let mut table: Vec<Vec<usize>> = Vec::new();
        let mut k: usize = 0;
        while k < ls.len()
            invariant
                0 <= k <= ls.len(),
                views == pieces_view(ls@),
                views == lines(input@),
                table@.len() == k,
                forall|j: int|
                    0 <= j < k ==> words(fields(views[j])) == Some((#[trigger] table@[j])@),
            decreases ls.len() - k,
        {
            let f = fields_of(&ls[k]);
            match parse_words_of(&f) {
                Some(numbers) => {
                    table.push(numbers);
                },
                None => {
                    assert(words(fields(views[k as int])).is_none());
                    return Err(DanceError::BadNumber);
                },
            }
            k += 1;
        }
        proof {
            assert forall|j: int| 0 <= j < views.len() implies words(
                fields(#[trigger] views[j]),
            ) is Some by {
                assert(words(fields(views[j])) == Some(table@[j]@));
            }
            assert forall|j: int| 0 <= j < views.len() implies table_view(table@)[j]
                == table_of(input@).unwrap()[j] by {
                assert(words(fields(views[j])) == Some(table@[j]@));
            }
            assert(table_view(table@) =~= table_of(input@).unwrap());
        }
        Dance::from_table(&table)
    }
}

/// How a dance goes on: the columns and the rounds danced.
pub struct Figure {
    pub columns: Seq<Seq<usize>>,
    pub round: usize,
}

/// The next round of the figure can be danced and leads to a number.
pub open spec fn can_go_on(figure: Figure) -> bool {
    &&& figure.columns.len() > 0
    &&& figure.round < usize::MAX
    &&& figure.columns[giving(figure.columns, figure.round)].len() > 0
    &&& {
        let dancer = figure.columns[giving(figure.columns, figure.round)][0];
        let len = after_leaving(figure.columns, figure.round)[taking(
            figure.columns,
            figure.round,
        )].len();
        len >= 1 && (len != 1 ==> dancer >= 1)
    }
    &&& shown(after_round(figure.columns, figure.round)) is Ok
}

/// The figure a round later.
pub open spec fn next_figure(figure: Figure) -> Figure {
    Figure {
        columns: after_round(figure.columns, figure.round),
        round: (figure.round + 1) as usize,
    }
}

/// The figure after `rounds` more rounds, or where it cannot go on.
pub open spec fn figure_after(figure: Figure, rounds: nat) -> Figure
    decreases rounds,
{
    if rounds == 0 || !can_go_on(figure) {
        figure
    } else {
        figure_after(next_figure(figure), (rounds - 1) as nat)
    }
}

/// The first of the next `rounds` rounds at whose end a number has been
/// shown `often` times, counted from the round the figure is in, with
/// that number; `shouts` holds how often each number was shown before.
/// `None` when the dance cannot go on or the rounds do not suffice.
pub open spec fn first_shout(
    figure: Figure,
    shouts: Map<usize, usize>,
    often: usize,
    rounds: nat,
) -> Option<(usize, usize)>
    decreases rounds,
{
    if rounds == 0 || !can_go_on(figure) {
        None
    } else {
        let next = next_figure(figure);
        let number = shown(next.columns).unwrap();
        let so_far = if shouts.contains_key(number) {
            shouts[number]
        } else {
            0usize
        };
        if so_far + 1 >= often {
            Some((number, next.round))
        } else {
            first_shout(next, shouts.insert(number, (so_far + 1) as usize), often, (rounds - 1) as nat)
        }
    }
}

impl Dance {
    /// The dance as a figure.
    pub open spec fn figure(&self) -> Figure {
        Figure { columns: self.columns(), round: self.round }
    }

    /// Dances until a number has been shown `often` times and returns that
    /// number with the round it was reached in; `None` when the dance
    /// cannot go on or `limit` rounds do not suffice.
    pub fn dance_until_shouted(&mut self, often: usize, limit: usize) -> (shout: Option<
        (usize, usize),
    >)
        requires
            often >= 1,
        ensures
            shout == first_shout(old(self).figure(), Map::empty(), often, limit as nat),
    {
        let mut counts: HashMap<usize, usize> = HashMap::new();
        let mut left: usize = limit;
        loop
            invariant
                often >= 1,
                first_shout(old(self).figure(), Map::empty(), often, limit as nat) == first_shout(
                    self.figure(),
                    counts@,
                    often,
                    left as nat,
                ),
                forall|k: usize| #[trigger] counts@.contains_key(k) ==> counts@[k] < often,
            decreases left,
        {
            if left == 0 || !self.check_move() {
                return None;
            }
            let i_from = self.round % self.grid.len();
            if self.grid[i_from].len() == 0 {
                return None;
            }
            match self.move_dancer() {
                Ok(_) => {},
                Err(_) => {
                    return None;
                },
            }
            let number = match self.get_number() {
                Ok(n) => n,
                Err(_) => {
                    return None;
                },
            };
            let so_far = match counts.get(&number) {
                Some(c) => *c,
                None => 0,
            };
            if so_far + 1 >= often {
                return Some((number, self.round));
            }
            counts.insert(number, so_far + 1);
            left -= 1;
        }
    }
}

/// The greatest of the numbers shown in the next `rounds` rounds, and
/// of `best`.
pub open spec fn greatest_shown(figure: Figure, best: usize, rounds: nat) -> usize
    decreases rounds,
{
    if rounds == 0 || !can_go_on(figure) {
        best
    } else {
        let next = next_figure(figure);
        let number = shown(next.columns).unwrap();
        greatest_shown(
            next,
            if number > best {
                number
            } else {
                best
            },
            (rounds - 1) as nat,
        )
    }
}

impl Dance {
    /// Dances `rounds` rounds, or as many as can be danced, and returns
    /// the greatest number shown in them, or `best` if that is greater.
    pub fn greatest_number(&mut self, best: usize, rounds: usize) -> (greatest: usize)
        ensures
            greatest == greatest_shown(old(self).figure(), best, rounds as nat),
            final(self).figure() == figure_after(old(self).figure(), rounds as nat),
    {
        let mut greatest = best;
        let mut left: usize = rounds;
        loop
            invariant
                greatest_shown(old(self).figure(), best, rounds as nat) == greatest_shown(
                    self.figure(),
                    greatest,
                    left as nat,
                ),
                figure_after(old(self).figure(), rounds as nat) == figure_after(
                    self.figure(),
                    left as nat,
                ),
            decreases left,
        {
            if left == 0 || !self.check_move() {
                return greatest;
            }
            if self.grid[self.round % self.grid.len()].len() == 0 {
                return greatest;
            }
            if !self.shows_next() {
                return greatest;
            }
            let _ = self.move_dancer();
            let number = match self.get_number() {
                Ok(n) => n,
                Err(_) => 0,
            };
            if number > greatest {
                greatest = number;
            }
            left -= 1;
        }
    }

    /// Whether the next round leads to a number that can be shown.
    pub fn shows_next(&self) -> (yes: bool)
        requires
            self.can_move(),
            self.columns()[giving(self.columns(), self.round)].len() > 0,
        ensures
            yes == (shown(after_round(self.columns(), self.round)) is Ok),
    {
        let mut ahead = Dance { grid: Vec::new(), round: self.round };
        let mut i: usize = 0;
        while i < self.grid.len()
            invariant
                0 <= i <= self.grid.len(),
                ahead.round == self.round,
                ahead.grid@.len() == i,
                forall|j: int| 0 <= j < i ==> (#[trigger] ahead.grid@[j])@ == self.grid@[j]@,
            decreases self.grid.len() - i,
        {
            ahead.grid.push(copy_of(&self.grid[i]));
            i += 1;
        }
        assert(ahead.columns() =~= self.columns());
        let _ = ahead.move_dancer();
        ahead.get_number().is_ok()
    }
}

/// All the dancers of the columns, column after column.
pub open spec fn flattened(columns: Seq<Seq<usize>>) -> Seq<i64>
    decreases columns.len(),
{
    if columns.len() == 0 {
        Seq::empty()
    } else {
        flattened(columns.drop_last()) + Seq::new(
            columns.last().len(),
            |k: int| columns.last()[k] as i64,
        )
    }
}

/// The lengths of the columns.
pub open spec fn lengths(columns: Seq<Seq<usize>>) -> Seq<i64> {
    Seq::new(columns.len(), |j: int| columns[j].len() as i64)
}

/// The columns written as one row of numbers: how many columns there
/// are, how long each is, and then all the dancers.
pub open spec fn written(columns: Seq<Seq<usize>>) -> Seq<i64> {
    seq![columns.len() as i64] + lengths(columns) + flattened(columns)
}

/// The columns can be written as a row of numbers: no length and no
/// dancer is beyond the greatest number of 63 bits.
pub open spec fn writable(columns: Seq<Seq<usize>>) -> bool {
    &&& columns.len() <= i64::MAX
    &&& forall|j: int| 0 <= j < columns.len() ==> (#[trigger] columns[j]).len() <= i64::MAX
    &&& forall|j: int, k: int|
        0 <= j < columns.len() && 0 <= k < columns[j].len() ==> #[trigger] columns[j][k]
            <= i64::MAX
}

/// Columns of the same lengths with the same dancers, column after
/// column, are the same columns.
pub proof fn lemma_flattened_decides(a: Seq<Seq<usize>>, b: Seq<Seq<usize>>)
    requires
        a.len() == b.len(),
        forall|j: int| 0 <= j < a.len() ==> (#[trigger] a[j]).len() == b[j].len(),
        forall|j: int, k: int|
            0 <= j < a.len() && 0 <= k < a[j].len() ==> #[trigger] a[j][k] <= i64::MAX,
        forall|j: int, k: int|
            0 <= j < b.len() && 0 <= k < b[j].len() ==> #[trigger] b[j][k] <= i64::MAX,
        flattened(a) == flattened(b),
    ensures
        a == b,
    decreases a.len(),
{
    if a.len() > 0 {
        let la = Seq::new(a.last().len(), |k: int| a.last()[k] as i64);
        let lb = Seq::new(b.last().len(), |k: int| b.last()[k] as i64);
        let fa = flattened(a.drop_last());
        let fb = flattened(b.drop_last());
        assert(a[a.len() - 1].len() == b[a.len() - 1].len());
        assert forall|j: int| 0 <= j < a.drop_last().len() implies (#[trigger] a.drop_last()[j]).len()
            == b.drop_last()[j].len() by {
            assert(a[j].len() == b[j].len());
        }
        assert forall|j: int, k: int|
            0 <= j < a.drop_last().len() && 0 <= k < a.drop_last()[j].len() implies #[trigger] a.drop_last()[j][k]
            <= i64::MAX by {
            assert(a[j][k] <= i64::MAX);
        }
        assert forall|j: int, k: int|
            0 <= j < b.drop_last().len() && 0 <= k < b.drop_last()[j].len() implies #[trigger] b.drop_last()[j][k]
            <= i64::MAX by {
            assert(b[j][k] <= i64::MAX);
        }
        lemma_flattened_len(a.drop_last());
        lemma_flattened_len(b.drop_last());
        lemma_same_total(a.drop_last(), b.drop_last());
        assert(fa.len() == fb.len());
        assert(fa =~= fb) by {
            assert forall|i: int| 0 <= i < fa.len() implies fa[i] == fb[i] by {
                assert((fa + la)[i] == (fb + lb)[i]);
            }
        }
        lemma_flattened_decides(a.drop_last(), b.drop_last());
        assert(a.last() =~= b.last()) by {
            assert forall|k: int| 0 <= k < a.last().len() implies a.last()[k] == b.last()[k] by {
                assert((fa + la)[fa.len() + k] == (fb + lb)[fb.len() + k]);
                assert(la[k] == lb[k]);
                assert(a[a.len() - 1][k] <= i64::MAX);
                assert(b[b.len() - 1][k] <= i64::MAX);
            }
        }
        assert(a =~= a.drop_last().push(a.last()));
        assert(b =~= b.drop_last().push(b.last()));
    } else {
        assert(a =~= b);
    }
}

/// The number of dancers in all the columns.
pub open spec fn dancers(columns: Seq<Seq<usize>>) -> nat
    decreases columns.len(),
{
    if columns.len() == 0 {
        0
    } else {
        dancers(columns.drop_last()) + columns.last().len()
    }
}

/// The row of all dancers is as long as there are dancers.
pub proof fn lemma_flattened_len(columns: Seq<Seq<usize>>)
    ensures
        flattened(columns).len() == dancers(columns),
    decreases columns.len(),
{
    if columns.len() > 0 {
        lemma_flattened_len(columns.drop_last());
    }
}

/// Columns of the same lengths hold the same number of dancers.
pub proof fn lemma_same_total(a: Seq<Seq<usize>>, b: Seq<Seq<usize>>)
    requires
        a.len() == b.len(),
        forall|j: int| 0 <= j < a.len() ==> (#[trigger] a[j]).len() == b[j].len(),
    ensures
        dancers(a) == dancers(b),
    decreases a.len(),
{
    if a.len() > 0 {
        assert(a[a.len() - 1].len() == b[a.len() - 1].len());
        assert forall|j: int| 0 <= j < a.drop_last().len() implies (#[trigger] a.drop_last()[j]).len()
            == b.drop_last()[j].len() by {
            assert(a[j].len() == b[j].len());
        }
        lemma_same_total(a.drop_last(), b.drop_last());
    }
}

/// Columns that are written the same are the same columns.
pub proof fn lemma_written_decides(a: Seq<Seq<usize>>, b: Seq<Seq<usize>>)
    requires
        written(a) == written(b),
        writable(a),
        writable(b),
    ensures
        a == b,
{
    let wa = written(a);
    let wb = written(b);
    assert(wa[0] == a.len() as i64);
    assert(wb[0] == b.len() as i64);
    assert(a.len() == b.len());
    assert forall|j: int| 0 <= j < a.len() implies (#[trigger] a[j]).len() == b[j].len() by {
        assert(wa[1 + j] == lengths(a)[j]);
        assert(wb[1 + j] == lengths(b)[j]);
    }
    lemma_flattened_len(a);
    lemma_flattened_len(b);
    lemma_same_total(a, b);
    let n = a.len() as int;
    assert(flattened(a) =~= flattened(b)) by {
        assert forall|i: int| 0 <= i < flattened(a).len() implies flattened(a)[i] == flattened(
            b,
        )[i] by {
            assert(wa[1 + n + i] == flattened(a)[i]);
            assert(wb[1 + n + i] == flattened(b)[i]);
        }
    }
    lemma_flattened_decides(a, b);
}

impl Dance {
    /// Writes the columns as one row of numbers; `None` when they cannot
    /// be written.
    pub fn write(&self) -> (row: Option<Vec<i64>>)
        ensures
            match row {
                Some(r) => r@ == written(self.columns()) && writable(self.columns()),
                None => !writable(self.columns()),
            },
    {
        let ghost columns = self.columns();
        if self.grid.len() as u64 > 0x7fff_ffff_ffff_ffff {
            return None;
        }
        let mut row: Vec<i64> = Vec::new();
        row.push(self.grid.len() as i64);
        let mut j: usize = 0;
        while j < self.grid.len()
            invariant
                0 <= j <= self.grid.len(),
                columns == self.columns(),
                self.grid@.len() <= i64::MAX,
                row@ == seq![columns.len() as i64] + lengths(columns).take(j as int),
                forall|k: int| 0 <= k < j ==> (#[trigger] columns[k]).len() <= i64::MAX,
            decreases self.grid.len() - j,
        {
            if self.grid[j].len() as u64 > 0x7fff_ffff_ffff_ffff {
                assert(columns[j as int].len() > i64::MAX);
                return None;
            }
            row.push(self.grid[j].len() as i64);
            assert(row@ =~= seq![columns.len() as i64] + lengths(columns).take(j + 1));
            j += 1;
        }
        assert(lengths(columns).take(j as int) =~= lengths(columns));
        let ghost head = row@;
        let mut j: usize = 0;
        assert(columns.take(0) =~= Seq::<Seq<usize>>::empty());
        assert(row@ =~= head + flattened(columns.take(0)));
        while j < self.grid.len()
            invariant
                0 <= j <= self.grid.len(),
                columns == self.columns(),
                row@ == head + flattened(columns.take(j as int)),
                forall|a: int, b: int|
                    0 <= a < j && 0 <= b < columns[a].len() ==> #[trigger] columns[a][b]
                        <= i64::MAX,
            decreases self.grid.len() - j,
        {
            let column = &self.grid[j];
            let ghost so_far = row@;
            let ghost view = Seq::new(columns[j as int].len(), |k: int| columns[j as int][k] as i64);
            assert(columns[j as int] == column@);
            let mut k: usize = 0;
            while k < column.len()
                invariant
                    0 <= k <= column.len(),
                    0 <= j < self.grid.len(),
                    columns == self.columns(),
                    column@ == columns[j as int],
                    view == Seq::new(columns[j as int].len(), |k: int| columns[j as int][k] as i64),
                    row@ == so_far + view.take(k as int),
                    forall|b: int| 0 <= b < k ==> #[trigger] column@[b] <= i64::MAX,
                decreases column.len() - k,
            {
                let dancer = column[k];
                if dancer as u64 > 0x7fff_ffff_ffff_ffff {
                    assert(columns[j as int][k as int] > i64::MAX);
                    return None;
                }
                let as_number = dancer as i64;
                row.push(as_number);
                assert(row@ =~= so_far + view.take(k + 1));
                k += 1;
            }
            proof {
                assert(view.take(k as int) =~= view);
                assert(columns.take(j + 1).drop_last() =~= columns.take(j as int));
                assert(columns.take(j + 1).last() == columns[j as int]);
                assert(row@ =~= head + flattened(columns.take(j + 1)));
            }
            j += 1;
        }
        assert(columns.take(j as int) =~= columns);
        Some(row)
    }
}

/// The greatest number shown up to the first round after which the
/// columns stand as they stood before, in at most `rounds` rounds; `seen`
/// holds the ways the columns stood so far. `None` when the dance cannot
/// go on, when the rounds do not suffice, or when the columns come to
/// hold a dancer beyond 63 bits.
pub open spec fn greatest_before_repeat(
    figure: Figure,
    seen: Set<Seq<Seq<usize>>>,
    best: usize,
    rounds: nat,
) -> Option<usize>
    decreases rounds,
{
    if rounds == 0 || !can_go_on(figure) || !writable(next_figure(figure).columns) {
        None
    } else {
        let next = next_figure(figure);
        let number = shown(next.columns).unwrap();
        let greatest = if number > best {
            number
        } else {
            best
        };
        if seen.contains(next.columns) {
            Some(greatest)
        } else {
            greatest_before_repeat(next, seen.insert(next.columns), greatest, (rounds - 1) as nat)
        }
    }
}

impl Dance {
    /// Dances until the columns stand as they stood at the start or after
    /// an earlier round, and returns the greatest number shown on the
    /// way, or the number shown at the start if that is greater. `None`
    /// when the dance has no number to show or cannot go on, when
    /// `limit` rounds do not suffice, or when a dancer is beyond 63 bits.
    pub fn dance_until_repeat(&mut self, limit: usize) -> (greatest: Option<usize>)
        ensures
            greatest == (if shown(old(self).columns()) is Ok && writable(old(self).columns()) {
                greatest_before_repeat(
                    old(self).figure(),
                    set![old(self).columns()],
                    shown(old(self).columns()).unwrap(),
                    limit as nat,
                )
            } else {
                None
            }),
    {
        let first = match self.get_number() {
            Ok(n) => n,
            Err(_) => {
                return None;
            },
        };
        let mut seen = TranspositionTable::new();
        let ghost mut stood: Set<Seq<Seq<usize>>> = set![self.columns()];
        match self.write() {
            Some(row) => {
                seen.insert(row, 0);
            },
            None => {
                return None;
            },
        }
        proof {
            let start = self.columns();
            assert forall|c: Seq<Seq<usize>>| writable(c) implies (#[trigger] stood.contains(c)
                <==> seen@.contains_key(written(c))) by {
                if written(c) == written(start) {
                    lemma_written_decides(c, start);
                }
            }
        }
        let mut best = first;
        let mut left: usize = limit;
        loop
            invariant
                seen.wf(),
                shown(old(self).columns()) is Ok,
                writable(old(self).columns()),
                forall|c: Seq<Seq<usize>>| #[trigger] stood.contains(c) ==> writable(c),
                forall|c: Seq<Seq<usize>>|
                    writable(c) ==> (#[trigger] stood.contains(c) <==> seen@.contains_key(
                        written(c),
                    )),
                greatest_before_repeat(
                    old(self).figure(),
                    set![old(self).columns()],
                    shown(old(self).columns()).unwrap(),
                    limit as nat,
                ) == greatest_before_repeat(self.figure(), stood, best, left as nat),
            decreases left,
        {
            if left == 0 || !self.check_move() {
                return None;
            }
            if self.grid[self.round % self.grid.len()].len() == 0 {
                return None;
            }
            match self.move_dancer() {
                Ok(_) => {},
                Err(_) => {
                    return None;
                },
            }
            let number = match self.get_number() {
                Ok(n) => n,
                Err(_) => {
                    return None;
                },
            };
            if number > best {
                best = number;
            }
            let row = match self.write() {
                Some(r) => r,
                None => {
                    return None;
                },
            };
            let ghost now = self.columns();
            proof {
                assert forall|c: Seq<Seq<usize>>| writable(c) && written(c) == written(now) implies c
                    == now by {
                    lemma_written_decides(c, now);
                }
            }
            if seen.get(&row).is_some() {
                proof {
                    assert(stood.contains(now)) by {
                        if !stood.contains(now) {
                            assert(!seen@.contains_key(written(now)));
                        }
                    }
                }
                return Some(best);
            }
            proof {
                assert(!stood.contains(now)) by {
                    if stood.contains(now) {
                        assert(seen@.contains_key(written(now)));
                    }
                }
            }
            let ghost seen_before = seen@;
            seen.insert(row, 0);
            proof {
                let before = stood;
                stood = stood.insert(now);
                assert forall|c: Seq<Seq<usize>>| writable(c) implies (#[trigger] stood.contains(c)
                    <==> seen@.contains_key(written(c))) by {
                    if written(c) == written(now) {
                        lemma_written_decides(c, now);
                    }
                    assert(before.contains(c) <==> seen_before.contains_key(written(c)));
                }
            }
            left -= 1;
        }
    }
}

} // verus!
