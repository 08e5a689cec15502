//! A triangular board of triangular cells. Row `y` holds the cells of that
//! row from left to right; cells at even places point down and touch the
//! row above, cells at odd places point up and touch the row below.

use crate::graph::{answers, Hop, Source, StateGraph};
use crate::point::lemma_cell;
use crate::search::shortest_path;
use crate::text::{chars_of, lines, lines_of, pieces_view};
use vstd::prelude::*;

verus! {

/// A cell: its row and its place in the row.
pub type Cell = (usize, usize);

/// The board with the cells where a walk starts and ends.
pub struct Triangle {
    pub grid: Vec<Vec<char>>,
    pub start: Cell,
    pub exit: Cell,
}

impl Triangle {
    /// The cells that can be gone to from `current`: the cell itself, the
    /// cells beside it in its row, and the cell it touches in the row above
    /// or below.
    pub open spec fn neighbours(&self, current: Cell) -> Seq<Cell> {
        let (y, x) = current;
        seq![(y, x)] + (if x > 0 {
            seq![(y, (x - 1) as usize)]
        } else {
            Seq::empty()
        }) + (if x < self.grid@[y as int]@.len() - 1 {
            seq![(y, (x + 1) as usize)]
        } else {
            Seq::empty()
        }) + (if x % 2 == 0 && y > 0 {
            seq![((y - 1) as usize, (x + 1) as usize)]
        } else {
            Seq::empty()
        }) + (if x % 2 == 1 {
            seq![((y + 1) as usize, (x - 1) as usize)]
        } else {
            Seq::empty()
        })
    }

    /// Computes the cells that can be gone to from `current`.
    pub fn get_neighbours(&self, current: Cell) -> (found: Vec<Cell>)
        requires
            current.0 < self.grid@.len(),
            self.grid@[current.0 as int]@.len() > 0,
        ensures
            found@ == self.neighbours(current),
    {
        let (y, x) = current;
        let rows = self.grid.len();
        let mut candidates: Vec<Cell> = Vec::new();
        candidates.push((y, x));
        if x > 0 {
            candidates.push((y, x - 1));
        }
        if x < self.grid[y].len() - 1 {
            candidates.push((y, x + 1));
        }
        if x % 2 == 0 && y > 0 {
            candidates.push((y - 1, x + 1));
        }
        if x % 2 == 1 {
            candidates.push((y + 1, x - 1));
        }
        assert(candidates@ =~= self.neighbours(current));
        candidates
    }

    /// Where `current` lands when the board is turned by a third.
    pub open spec fn jumped(&self, current: Cell) -> (int, int) {
        let (y, x) = current;
        (self.grid@.len() - 1 - (x + 1) / 2 - y, y * 2 + (if x % 2 == 1 {
            1int
        } else {
            0int
        }))
    }

    /// The cell that `current` lands on when the board is turned by a third.
    pub fn jump_counter_clockwise(&self, current: Cell) -> (landed: Cell)
        requires
            current.1 < usize::MAX,
            self.jumped(current).0 >= 0,
            self.jumped(current).1 <= usize::MAX,
        ensures
            landed.0 == self.jumped(current).0,
            landed.1 == self.jumped(current).1,
    {
        let (y, x) = current;
        let ny = self.grid.len() - 1 - (x + 1) / 2 - y;
        let nx = y * 2 + if x % 2 == 1 {
            1
        } else {
            0
        };
        (ny, nx)
    }
}

/// The line without the dots in front of it.
pub open spec fn skip_dots(line: Seq<char>) -> Seq<char>
    decreases line.len(),
{
    if line.len() > 0 && line[0] == '.' {
        skip_dots(line.drop_first())
    } else {
        line
    }
}

/// The characters of the first `upto` that are no dots.
pub open spec fn kept(s: Seq<char>, upto: nat) -> Seq<char>
    decreases upto,
{
    if upto == 0 {
        Seq::empty()
    } else if s[upto - 1] != '.' {
        kept(s, (upto - 1) as nat).push(s[upto - 1])
    } else {
        kept(s, (upto - 1) as nat)
    }
}

/// The last of the first `upto` places that holds `mark`.
pub open spec fn last_mark(s: Seq<char>, mark: char, upto: nat) -> Option<int>
    decreases upto,
{
    if upto == 0 {
        None
    } else if s[upto - 1] == mark {
        Some(upto - 1)
    } else {
        last_mark(s, mark, (upto - 1) as nat)
    }
}

/// What has been read of a board so far.
pub struct Outline {
    pub grid: Seq<Seq<char>>,
    pub start: Cell,
    pub exit: Cell,
}

/// The outline after the first `upto` rows were read. Dots are no cells.
/// `S` and `E` mark the start and the exit, by their place in the row
/// once the dots in front of it are gone.
pub open spec fn outline(rows: Seq<Seq<char>>, upto: nat) -> Outline
    decreases upto,
{
    if upto == 0 {
        Outline { grid: Seq::empty(), start: (0, 0), exit: (0, 0) }
    } else {
        let before = outline(rows, (upto - 1) as nat);
        let t = skip_dots(rows[upto - 1]);
        Outline {
            grid: before.grid.push(kept(t, t.len())),
            start: match last_mark(t, 'S', t.len()) {
                Some(x) => ((upto - 1) as usize, x as usize),
                None => before.start,
            },
            exit: match last_mark(t, 'E', t.len()) {
                Some(x) => ((upto - 1) as usize, x as usize),
                None => before.exit,
            },
        }
    }
}

/// The rows of a grid, as sequences.
pub open spec fn grid_view(grid: Seq<Vec<char>>) -> Seq<Seq<char>> {
    Seq::new(grid.len(), |k: int| grid[k]@)
}

/// The place of the first character of the line that is no dot.
fn dots_in_front(line: &Vec<char>) -> (from: usize)
    ensures
        from <= line.len(),
        skip_dots(line@) == line@.skip(from as int),
{
    let mut from: usize = 0;
    assert(line@.skip(0) =~= line@);
    while from < line.len() && line[from] == '.'
        invariant
            0 <= from <= line.len(),
            skip_dots(line@) == skip_dots(line@.skip(from as int)),
        decreases line.len() - from,
    {
        assert(line@.skip(from as int).drop_first() =~= line@.skip(from + 1));
        from += 1;
    }
    from
}

impl Triangle {
    /// What the board holds, as an outline.
    pub open spec fn as_outline(&self) -> Outline {
        Outline { grid: grid_view(self.grid@), start: self.start, exit: self.exit }
    }

    /// Reads a board from its rows.
    pub fn from_rows(rows: &Vec<Vec<char>>) -> (made: Triangle)
        ensures
            made.as_outline() == outline(pieces_view(rows@), rows@.len()),
    {
        let mut start: Cell = (0, 0);
        let mut exit: Cell = (0, 0);
        let mut grid: Vec<Vec<char>> = Vec::new();
        let ghost views = pieces_view(rows@);
        let mut y: usize = 0;
        assert(grid_view(grid@) =~= Seq::<Seq<char>>::empty());
        while y < rows.len()
            invariant
                0 <= y <= rows.len(),
                views == pieces_view(rows@),
                (Outline { grid: grid_view(grid@), start, exit }) == outline(views, y as nat),
            decreases rows.len() - y,
        {
            let line = &rows[y];
            let from = dots_in_front(line);
            let ghost t = skip_dots(line@);
            let ghost before = outline(views, y as nat);
            let ghost grid_before = grid_view(grid@);
            let mut row: Vec<char> = Vec::new();
            let mut x: usize = 0;
            let len = line.len() - from;
            while x < len
                invariant
                    0 <= x <= len,
                    from + len == line.len(),
                    t == line@.skip(from as int),
                    row@ == kept(t, x as nat),
                    start == (match last_mark(t, 'S', x as nat) {
                        Some(at) => (y, at as usize),
                        None => before.start,
                    }),
                    exit == (match last_mark(t, 'E', x as nat) {
                        Some(at) => (y, at as usize),
                        None => before.exit,
                    }),
                decreases len - x,
            {
                let c = line[from + x];
                assert(t[x as int] == c);
                if c != '.' {
                    row.push(c);
                }
                if c == 'S' {
                    start = (y, x);
                }
                if c == 'E' {
                    exit = (y, x);
                }
                x += 1;
            }
            grid.push(row);
            assert(grid_view(grid@) =~= grid_before.push(kept(t, t.len())));
            assert(line@ == views[y as int]);
            y += 1;
        }
        Triangle { grid, start, exit }
    }

    /// Reads a board from its text.
    pub fn parse(s: &str) -> (made: Triangle)
        ensures
            made.as_outline() == outline(lines(s@), lines(s@).len()),
    {
        let chars = chars_of(s);
        let rows = lines_of(&chars);
        Triangle::from_rows(&rows)
    }
}

/// The length of the longest of the first `upto` rows, and at least 1.
pub open spec fn widest(grid: Seq<Seq<char>>, upto: nat) -> nat
    decreases upto,
{
    if upto == 0 {
        1
    } else {
        let before = widest(grid, (upto - 1) as nat);
        if grid[upto - 1].len() > before {
            grid[upto - 1].len()
        } else {
            before
        }
    }
}

/// A walk over the cells of a board that are no rock `#`. When the board
/// turns, every step begins with the walker being carried round by a third.
pub struct TriangleWalk {
    pub triangle: Triangle,
    pub span: usize,
    pub turning: bool,
}

impl TriangleWalk {
    /// The board as sequences.
    pub open spec fn grid(&self) -> Seq<Seq<char>> {
        grid_view(self.triangle.grid@)
    }

    /// No row is longer than the span, and the cells can be numbered in 64 bits.
    pub open spec fn spanned(&self) -> bool {
        &&& self.span >= 1
        &&& forall|y: int| 0 <= y < self.grid().len() ==> (#[trigger] self.grid()[y]).len() <= self.span
        &&& self.grid().len() * self.span <= u64::MAX
    }

    /// The cell lies on the board.
    pub open spec fn is_cell(&self, c: Cell) -> bool {
        c.0 < self.grid().len() && c.1 < self.grid()[c.0 as int].len()
    }

    /// The cell lies on the board and is no rock.
    pub open spec fn is_open(&self, c: Cell) -> bool {
        self.is_cell(c) && self.grid()[c.0 as int][c.1 as int] != '#'
    }

    /// The number of a cell: its row times the span, plus its place.
    pub open spec fn id(&self, c: Cell) -> u64 {
        (c.0 * self.span + c.1) as u64
    }

    /// The cell with the number.
    pub open spec fn cell(&self, id: u64) -> Cell {
        ((id as int / self.span as int) as usize, (id as int % self.span as int) as usize)
    }

    /// The cell a step begins on: the cell itself, or where the turning
    /// board carries it, if that is a cell.
    pub open spec fn carried(&self, c: Cell) -> Option<Cell> {
        if self.turning {
            let j = self.triangle.jumped(c);
            if 0 <= j.0 <= usize::MAX && 0 <= j.1 <= usize::MAX && self.is_cell(
                (j.0 as usize, j.1 as usize),
            ) {
                Some((j.0 as usize, j.1 as usize))
            } else {
                None
            }
        } else {
            Some(c)
        }
    }

    /// The steps to the open cells among the first `upto` of `cells`.
    pub open spec fn hops_among(&self, cells: Seq<Cell>, upto: nat) -> Seq<Hop>
        decreases upto,
    {
        if upto == 0 {
            Seq::empty()
        } else {
            self.hops_among(cells, (upto - 1) as nat) + (if self.is_open(cells[upto - 1]) {
                seq![(self.id(cells[upto - 1]), 1u64)]
            } else {
                Seq::empty()
            })
        }
    }

    /// A walk over `triangle`, its span the length of the longest row and
    /// at least 1; `None` when the cells cannot be numbered in 64 bits.
    pub fn new(triangle: Triangle, turning: bool) -> (walk: Option<TriangleWalk>)
        ensures
            match walk {
                Some(w) => w.spanned() && w.triangle == triangle && w.turning == turning
                    && w.span == widest(grid_view(triangle.grid@), triangle.grid@.len()),
                None => triangle.grid@.len() * widest(
                    grid_view(triangle.grid@),
                    triangle.grid@.len(),
                ) > u64::MAX,
            },
    {
        let mut span: usize = 1;
        let mut y: usize = 0;
        while y < triangle.grid.len()
            invariant
                0 <= y <= triangle.grid.len(),
                span >= 1,
                span == widest(grid_view(triangle.grid@), y as nat),
                forall|k: int| 0 <= k < y ==> (#[trigger] grid_view(triangle.grid@)[k]).len() <= span,
            decreases triangle.grid.len() - y,
        {
            if triangle.grid[y].len() > span {
                span = triangle.grid[y].len();
            }
            y += 1;
        }
        match (triangle.grid.len() as u64).checked_mul(span as u64) {
            Some(_) => Some(TriangleWalk { triangle, span, turning }),
            None => None,
        }
    }

    /// Whether the cell lies on the board and is no rock.
    pub fn open_at(&self, c: Cell) -> (yes: bool)
        ensures
            yes == self.is_open(c),
    {
        c.0 < self.triangle.grid.len() && c.1 < self.triangle.grid[c.0].len()
            && self.triangle.grid[c.0][c.1] != '#'
    }

    /// The cell a step from `c` begins on.
    pub fn carry(&self, c: Cell) -> (to: Option<Cell>)
        requires
            self.is_cell(c),
        ensures
            to == self.carried(c),
    {
        if !self.turning {
            return Some(c);
        }
        let (y, x) = c;
        let rows = self.triangle.grid.len();
        let row_len = self.triangle.grid[y].len();
        let half = (x + 1) / 2;
        if half > rows - 1 || y > rows - 1 - half || y > (usize::MAX - 1) / 2 {
            return None;
        }
        let j = self.triangle.jump_counter_clockwise(c);
        if j.0 < rows && j.1 < self.triangle.grid[j.0].len() {
            Some(j)
        } else {
            None
        }
    }
}

impl StateGraph for TriangleWalk {
    open spec fn wf(&self) -> bool {
        self.spanned()
    }

    open spec fn edges(&self, state: u64) -> Seq<Hop> {
        if state < self.grid().len() * self.span && self.is_cell(self.cell(state)) {
            match self.carried(self.cell(state)) {
                Some(b) => self.hops_among(
                    self.triangle.neighbours(b),
                    self.triangle.neighbours(b).len(),
                ),
                None => Seq::empty(),
            }
        } else {
            Seq::empty()
        }
    }

    fn neighbors(&self, state: u64) -> (out: Vec<Hop>) {
        let mut out: Vec<Hop> = Vec::new();
        let rows = self.triangle.grid.len() as u64;
        let span = self.span as u64;
        let y = state / span;
        let x = state % span;
        if y >= rows {
            assert(state >= self.grid().len() * self.span) by (nonlinear_arith)
                requires
                    state / span >= rows,
                    rows == self.grid().len(),
                    span == self.span,
                    span >= 1,
            ;
            return out;
        }
        assert(state < self.grid().len() * self.span) by (nonlinear_arith)
            requires
                state / span < rows,
                rows == self.grid().len(),
                span == self.span,
                span >= 1,
        ;
        let here: Cell = (y as usize, x as usize);
        assert(here == self.cell(state));
        if here.1 >= self.triangle.grid[here.0].len() {
            return out;
        }
        let base = match self.carry(here) {
            Some(b) => b,
            None => {
                return out;
            },
        };
        assert(self.grid()[base.0 as int] == self.triangle.grid@[base.0 as int]@);
        let cells = self.triangle.get_neighbours(base);
        let mut k: usize = 0;
        while k < cells.len()
            invariant
                0 <= k <= cells.len(),
                self.spanned(),
                span == self.span,
                out@ == self.hops_among(cells@, k as nat),
            decreases cells.len() - k,
        {
            let c = cells[k];
            let ghost before = out@;
            if self.open_at(c) {
                proof {
                    assert(self.grid()[c.0 as int].len() <= self.span);
                    lemma_cell(
                        c.0 as int,
                        c.1 as int,
                        self.grid().len() as int,
                        self.span as int,
                    );
                    assert(c.0 * span >= 0) by (nonlinear_arith)
                        requires
                            c.0 >= 0,
                            span >= 0,
                    ;
                }
                out.push((c.0 as u64 * span + c.1 as u64, 1));
                assert(out@ =~= before + seq![(self.id(c), 1u64)]);
            } else {
                assert(out@ =~= before + Seq::<Hop>::empty());
            }
            k += 1;
        }
        out
    }
}

/// The fewest steps from the start of the board to its exit, or `None`
/// when there is no way. On a turning board every step begins with the
/// walker being carried round by a third.
pub fn shortest_walk(walk: &TriangleWalk) -> (steps: Option<u64>)
    requires
        walk.spanned(),
    ensures
        if walk.is_cell(walk.triangle.start) && walk.is_cell(walk.triangle.exit) {
            answers(
                walk,
                seq![(walk.id(walk.triangle.start), 0u64)],
                walk.id(walk.triangle.exit),
                steps,
            )
        } else {
            steps == (if walk.triangle.start == walk.triangle.exit {
                Some(0u64)
            } else {
                None
            })
        },
{
    let start = walk.triangle.start;
    let exit = walk.triangle.exit;
    let rows = walk.triangle.grid.len();
    if start.0 < rows && start.1 < walk.triangle.grid[start.0].len() && exit.0 < rows && exit.1
        < walk.triangle.grid[exit.0].len() {
        proof {
            assert(walk.grid()[start.0 as int].len() <= walk.span);
            assert(walk.grid()[exit.0 as int].len() <= walk.span);
            lemma_cell(start.0 as int, start.1 as int, rows as int, walk.span as int);
            lemma_cell(exit.0 as int, exit.1 as int, rows as int, walk.span as int);
        }
        let from = start.0 as u64 * walk.span as u64 + start.1 as u64;
        let to = exit.0 as u64 * walk.span as u64 + exit.1 as u64;
        let mut sources: Vec<Source> = Vec::new();
        sources.push((from, 0));
        assert(sources@ =~= seq![(walk.id(start), 0u64)]);
        shortest_path(walk, &sources, to)
    } else {
        if start.0 == exit.0 && start.1 == exit.1 {
            Some(0)
        } else {
            None
        }
    }
}

/// How many of the first `upto` places of the row hold a `T` with a `T`
/// right behind it.
pub open spec fn pairs_in_row(row: Seq<char>, upto: nat) -> nat
    decreases upto,
{
    if upto == 0 {
        0
    } else {
        pairs_in_row(row, (upto - 1) as nat) + (if upto < row.len() && row[upto - 1] == 'T'
            && row[upto as int] == 'T' {
            1nat
        } else {
            0nat
        })
    }
}

/// How many of the first `upto` places of the lower row hold a `T`
/// under a `T` one place further on in the upper row.
pub open spec fn pairs_between(upper: Seq<char>, lower: Seq<char>, upto: nat) -> nat
    decreases upto,
{
    if upto == 0 {
        0
    } else {
        pairs_between(upper, lower, (upto - 1) as nat) + (if upto < upper.len() && upto
            <= lower.len() && lower[upto - 1] == 'T' && upper[upto as int] == 'T' {
            1nat
        } else {
            0nat
        })
    }
}

/// The pairs of trampolines side by side in the first `upto` rows, and
/// one above the other between them.
pub open spec fn pairs(grid: Seq<Seq<char>>, upto: nat) -> nat
    decreases upto,
{
    if upto == 0 {
        0
    } else {
        pairs(grid, (upto - 1) as nat) + pairs_in_row(grid[upto - 1], grid[upto - 1].len()) + (
        if upto >= 2 {
            pairs_between(grid[upto - 2], grid[upto - 1], grid[upto - 1].len())
        } else {
            0nat
        })
    }
}

/// The pairs grow with the rows looked at.
pub proof fn lemma_pairs_grow(grid: Seq<Seq<char>>, a: nat, b: nat)
    requires
        a <= b,
    ensures
        pairs(grid, a) <= pairs(grid, b),
    decreases b,
{
    if a < b {
        lemma_pairs_grow(grid, a, (b - 1) as nat);
    }
}

impl Triangle {
    /// The number of pairs of trampolines `T` that touch: side by side in
    /// a row, or one in a row and one a place further on in the row
    /// above. `None` when the number leaves the machine word.
    pub fn count_pairs(&self) -> (count: Option<usize>)
        ensures
            count == (if pairs(grid_view(self.grid@), self.grid@.len()) <= usize::MAX {
                Some(pairs(grid_view(self.grid@), self.grid@.len()) as usize)
            } else {
                None
            }),
    {
        let ghost rows = grid_view(self.grid@);
        let mut count: usize = 0;
        let mut y: usize = 0;
        while y < self.grid.len()
            invariant
                0 <= y <= self.grid.len(),
                rows == grid_view(self.grid@),
                count == pairs(rows, y as nat),
            decreases self.grid.len() - y,
        {
            let row = &self.grid[y];
            assert(rows[y as int] == row@);
            let mut beside: usize = 0;
            let mut x: usize = 0;
            while x < row.len()
                invariant
                    0 <= x <= row.len(),
                    beside == pairs_in_row(row@, x as nat),
                    beside <= x,
                decreases row.len() - x,
            {
                if row.len() - x > 1 && row[x] == 'T' && row[x + 1] == 'T' {
                    beside += 1;
                }
                x += 1;
            }
            let mut above: usize = 0;
            if y >= 1 {
                let upper = &self.grid[y - 1];
                assert(rows[y - 1] == upper@);
                let mut x: usize = 0;
                while x < row.len()
                    invariant
                        0 <= x <= row.len(),
                        above == pairs_between(upper@, row@, x as nat),
                        above <= x,
                    decreases row.len() - x,
                {
                    if upper.len() > 0 && x < upper.len() - 1 && row[x] == 'T' && upper[x + 1]
                        == 'T' {
                        above += 1;
                    }
                    x += 1;
                }
            }
            let here = match beside.checked_add(above) {
                Some(h) => count.checked_add(h),
                None => None,
            };
            count = match here {
                Some(c) => c,
                None => {
                    proof {
                        lemma_pairs_grow(rows, (y + 1) as nat, rows.len());
                    }
                    return None;
                },
            };
            y += 1;
        }
        Some(count)
    }
}

} // verus!
