//! A maze of herbs: walk from the entrance, gather one herb of each kind,
//! and come back. A state of the walk is a cell together with the set of
//! kinds gathered so far, kept as a mask of bits.

use crate::elevation::{direction, direction_of};
use crate::graph::{answers, Hop, Source, StateGraph};
use crate::point::{fits_i32, key_of, lemma_cell, lemma_key_decides, Point};
use crate::search::shortest_path;
use crate::text::{chars_of, lines, lines_of, pieces_view};
use ahash::AHashMap;
use vstd::prelude::*;

verus! {

/// `ahash::AHashMap`, carried as a value that nothing is known of but
/// what the functions below state.
#[verifier::external_type_specification]
#[verifier::external_body]
#[verifier::reject_recursive_types(K)]
#[verifier::reject_recursive_types(V)]
#[verifier::reject_recursive_types(S)]
pub struct ExAHashMap<K, V, S>(AHashMap<K, V, S>);

/// `ahash::RandomState`, the hasher that such a map is made with.
#[verifier::external_type_specification]
#[verifier::external_body]
pub struct ExRandomState(ahash::RandomState);

/// What an index of cells holds: for the key of a place, the number of
/// the cell there.
pub uninterp spec fn index_entries(index: AHashMap<u64, u64>) -> Map<u64, u64>;

/// The entries of an index that holds nothing.
pub open spec fn no_entries() -> Map<u64, u64> {
    Map::empty()
}

/// What a map holds for a key, if anything.
pub open spec fn looked_up(entries: Map<u64, u64>, key: u64) -> Option<u64> {
    if entries.contains_key(key) {
        Some(entries[key])
    } else {
        None
    }
}

/// `AHashMap::new`: a map that holds nothing.
#[verifier::external_body]
fn index_new() -> (fresh: AHashMap<u64, u64>)
    ensures
        index_entries(fresh) == no_entries(),
{
    AHashMap::new()
}

/// `AHashMap::insert`: the key holds the value afterwards, and what it
/// held before is returned.
#[verifier::external_body]
fn index_insert(index: &mut AHashMap<u64, u64>, key: u64, value: u64) -> (before: Option<u64>)
    ensures
        index_entries(*final(index)) == index_entries(*old(index)).insert(key, value),
        before == looked_up(index_entries(*old(index)), key),
{
    index.insert(key, value)
}

/// `AHashMap::get`: what the key holds, if anything.
#[verifier::external_body]
fn index_get(index: &AHashMap<u64, u64>, key: u64) -> (found: Option<u64>)
    ensures
        found == looked_up(index_entries(*index), key),
{
    index.get(&key).copied()
}

/// How many masks of gathered kinds there are: one bit for each letter.
pub const MASKS: u64 = 0x400_0000;

/// The most cells a maze holds.
pub const MOST_CELLS: usize = 0x8000_0000;

/// The symbol is an open cell or a herb: a dot or a capital letter.
pub open spec fn is_symbol(c: char) -> bool {
    c == '.' || 65 <= c as u32 <= 90
}

/// The mask of the kind that grows on a cell: nothing on a dot, and the
/// bit of the letter otherwise.
pub open spec fn herb_mask(c: char) -> u64 {
    if 65 <= c as u32 <= 90 {
        1u64 << ((c as u32 - 65) as u64)
    } else {
        0
    }
}

/// The mask of the kind that grows on a cell.
pub fn herb_of(c: char) -> (mask: u64)
    ensures
        mask == herb_mask(c),
        mask < MASKS,
{
    let code = c as u32;
    if 65 <= code && code <= 90 {
        let shift: u64 = (code - 65) as u64;
        assert((1u64 << shift) < 0x400_0000u64) by (bit_vector)
            requires
                shift < 26,
        ;
        1u64 << shift
    } else {
        0
    }
}

/// Two masks joined stay a mask.
pub proof fn lemma_join_masks(a: u64, b: u64)
    requires
        a < MASKS,
        b < MASKS,
    ensures
        (a | b) < MASKS,
{
    assert((a | b) < 0x400_0000u64) by (bit_vector)
        requires
            a < 0x400_0000u64,
            b < 0x400_0000u64,
    ;
}

/// The kinds that grow on the first `upto` cells, joined.
pub open spec fn herbs_among(symbols: Seq<char>, upto: nat) -> u64
    decreases upto,
{
    if upto == 0 {
        0
    } else {
        herbs_among(symbols, (upto - 1) as nat) | herb_mask(symbols[upto - 1])
    }
}

/// The first of the first `upto` places that lies in row 0.
pub open spec fn first_in_top_row(places: Seq<Point>, upto: nat) -> Option<int>
    decreases upto,
{
    if upto == 0 {
        None
    } else {
        match first_in_top_row(places, (upto - 1) as nat) {
            Some(i) => Some(i),
            None => if places[upto - 1].y == 0 {
                Some(upto - 1)
            } else {
                None
            },
        }
    }
}

/// The places and the symbols of the cells of a maze, in the order the
/// cells were put in.
pub struct Layout {
    pub places: Seq<Point>,
    pub symbols: Seq<char>,
}

/// The number of the cell at `p`, if there is one.
pub open spec fn cell_in(places: Seq<Point>, p: Point) -> Option<int> {
    if exists|i: int| 0 <= i < places.len() && places[i] == p {
        Some(choose|i: int| 0 <= i < places.len() && places[i] == p)
    } else {
        None
    }
}

/// A cell with `symbol` can be put at `at`: the symbol is one of a maze,
/// and the cell is there already or there is room for one more.
pub open spec fn can_put(layout: Layout, at: Point, symbol: char) -> bool {
    is_symbol(symbol) && (cell_in(layout.places, at) is Some || layout.places.len() < MOST_CELLS)
}

/// The layout after a cell with `symbol` was put at `at`: a cell that is
/// there already gets the symbol, a new cell goes to the end, and what
/// cannot be put changes nothing.
pub open spec fn put(layout: Layout, at: Point, symbol: char) -> Layout {
    if !can_put(layout, at, symbol) {
        layout
    } else {
        match cell_in(layout.places, at) {
            Some(i) => Layout { places: layout.places, symbols: layout.symbols.update(i, symbol) },
            None => Layout {
                places: layout.places.push(at),
                symbols: layout.symbols.push(symbol),
            },
        }
    }
}

/// The layout after the character `c` at column `x` of row `y` was read:
/// rock `#` and water `~` are no cells, anything else is put as a cell.
/// What cannot be put, or lies at a place that does not fit in 32 bits,
/// cannot be read.
pub open spec fn lay_cell(layout: Layout, x: int, y: int, c: char) -> Option<Layout> {
    let at = Point { x: x as i32, y: y as i32 };
    if c == '#' || c == '~' {
        Some(layout)
    } else if !fits_i32(x) || !fits_i32(y) || !can_put(layout, at, c) {
        None
    } else {
        Some(put(layout, at, c))
    }
}

/// The layout after the first `upto` characters of row `y` were read.
pub open spec fn lay_row(layout: Layout, row: Seq<char>, y: int, upto: nat) -> Option<Layout>
    decreases upto,
{
    if upto == 0 {
        Some(layout)
    } else {
        match lay_row(layout, row, y, (upto - 1) as nat) {
            Some(before) => lay_cell(before, upto - 1, y, row[upto - 1]),
            None => None,
        }
    }
}

/// The layout after the first `upto` rows were read.
pub open spec fn lay_rows(rows: Seq<Seq<char>>, upto: nat) -> Option<Layout>
    decreases upto,
{
    if upto == 0 {
        Some(Layout { places: Seq::empty(), symbols: Seq::empty() })
    } else {
        match lay_rows(rows, (upto - 1) as nat) {
            Some(before) => lay_row(before, rows[upto - 1], upto - 1, rows[upto - 1].len()),
            None => None,
        }
    }
}

/// A row that cannot be read up to some character cannot be read further.
pub proof fn lemma_row_stays_unlaid(layout: Layout, row: Seq<char>, y: int, from: nat, upto: nat)
    requires
        from <= upto,
        lay_row(layout, row, y, from).is_none(),
    ensures
        lay_row(layout, row, y, upto).is_none(),
    decreases upto,
{
    if from < upto {
        lemma_row_stays_unlaid(layout, row, y, from, (upto - 1) as nat);
    }
}

/// A maze that cannot be read up to some row cannot be read further.
pub proof fn lemma_rows_stay_unlaid(rows: Seq<Seq<char>>, from: nat, upto: nat)
    requires
        from <= upto,
        lay_rows(rows, from).is_none(),
    ensures
        lay_rows(rows, upto).is_none(),
    decreases upto,
{
    if from < upto {
        lemma_rows_stay_unlaid(rows, from, (upto - 1) as nat);
    }
}

/// The cells of a maze, each with its place and its symbol, and an index
/// that finds a cell by the key of its place.
pub struct Maze {
    places: Vec<Point>,
    symbols: Vec<char>,
    index: AHashMap<u64, u64>,
}

impl Maze {
    /// The places of the cells, in the order they were put in.
    pub closed spec fn places(&self) -> Seq<Point> {
        self.places@
    }

    /// The symbols of the cells, in the order they were put in.
    pub closed spec fn symbols(&self) -> Seq<char> {
        self.symbols@
    }

    /// The index finds every cell and nothing else.
    pub closed spec fn wf(&self) -> bool {
        &&& self.places@.len() == self.symbols@.len()
        &&& self.places@.len() <= MOST_CELLS
        &&& forall|i: int|
            0 <= i < self.places@.len() ==> index_entries(self.index).contains_pair(
                key_of(#[trigger] self.places@[i]),
                i as u64,
            )
        &&& forall|k: u64| #[trigger]
            index_entries(self.index).contains_key(k) ==> index_entries(self.index)[k]
                < self.places@.len() && key_of(
                self.places@[index_entries(self.index)[k] as int],
            ) == k
        &&& forall|i: int| 0 <= i < self.symbols@.len() ==> is_symbol(#[trigger] self.symbols@[i])
    }

    /// The number of the cell at `p`, if there is one.
    pub open spec fn cell_at(&self, p: Point) -> Option<int> {
        cell_in(self.places(), p)
    }

    /// What the maze holds, as a layout.
    pub open spec fn layout(&self) -> Layout {
        Layout { places: self.places(), symbols: self.symbols() }
    }

    /// A maze without cells.
    pub fn new() -> (maze: Maze)
        ensures
            maze.wf(),
            maze.places() == Seq::<Point>::empty(),
            maze.symbols() == Seq::<char>::empty(),
    {
        Maze { places: Vec::new(), symbols: Vec::new(), index: index_new() }
    }

    /// How many cells there are.
    pub fn len(&self) -> (n: usize)
        ensures
            n == self.places().len(),
    {
        self.places.len()
    }

    /// No two cells share a place.
    pub proof fn lemma_places_differ(&self, i: int, j: int)
        requires
            self.wf(),
            0 <= i < self.places().len(),
            0 <= j < self.places().len(),
            self.places()[i] == self.places()[j],
        ensures
            i == j,
    {
        assert(index_entries(self.index).contains_pair(key_of(self.places@[i]), i as u64));
        assert(index_entries(self.index).contains_pair(key_of(self.places@[j]), j as u64));
    }

    /// Finds the cell at `p`.
    pub fn find(&self, p: &Point) -> (found: Option<usize>)
        requires
            self.wf(),
        ensures
            match found {
                Some(i) => self.cell_at(*p) == Some(i as int) && i < self.places().len()
                    && self.places()[i as int] == *p,
                None => self.cell_at(*p).is_none(),
            },
    {
        match index_get(&self.index, p.key()) {
            Some(i) => {
                proof {
                    lemma_key_decides(self.places@[i as int], *p);
                    let c = self.cell_at(*p).unwrap();
                    self.lemma_places_differ(c, i as int);
                }
                Some(i as usize)
            },
            None => {
                proof {
                    if self.cell_at(*p) is Some {
                        let c = self.cell_at(*p).unwrap();
                        assert(index_entries(self.index).contains_pair(
                            key_of(self.places@[c]),
                            c as u64,
                        ));
                    }
                }
                None
            },
        }
    }

    /// Puts a cell with `symbol` at `at`. A cell that is there already gets
    /// the new symbol. Nothing happens, and `false` is returned, when the
    /// symbol is no symbol of a maze or the maze is full.
    pub fn insert(&mut self, at: Point, symbol: char) -> (done: bool)
        requires
            old(self).wf(),
        ensures
            final(self).wf(),
            done == can_put(old(self).layout(), at, symbol),
            final(self).layout() == put(old(self).layout(), at, symbol),
    {
        let code = symbol as u32;
        if !(symbol == '.' || (65 <= code && code <= 90)) {
            return false;
        }
        match self.find(&at) {
            Some(i) => {
                self.symbols.set(i, symbol);
                true
            },
            None => {
                if self.places.len() >= MOST_CELLS {
                    return false;
                }
                let n = self.places.len() as u64;
                let ghost entries0 = index_entries(self.index);
                proof {
                    if entries0.contains_key(key_of(at)) {
                        let j = entries0[key_of(at)];
                        lemma_key_decides(self.places@[j as int], at);
                    }
                }
                let _ = index_insert(&mut self.index, at.key(), n);
                self.places.push(at);
                self.symbols.push(symbol);
                proof {
                    let entries1 = index_entries(self.index);
                    assert forall|i: int| 0 <= i < self.places@.len() implies entries1.contains_pair(
                        key_of(#[trigger] self.places@[i]),
                        i as u64,
                    ) by {
                        if i < n {
                            assert(entries0.contains_pair(key_of(old(self).places@[i]), i as u64));
                        }
                    }
                    assert forall|k: u64| #[trigger] entries1.contains_key(k) implies entries1[k]
                        < self.places@.len() && key_of(self.places@[entries1[k] as int]) == k by {
                        if k != key_of(at) {
                            assert(entries0.contains_key(k));
                        }
                    }
                }
                true
            },
        }
    }

    /// The symbol of cell `i`.
    pub fn symbol(&self, i: usize) -> (c: char)
        requires
            self.wf(),
            i < self.places().len(),
        ensures
            c == self.symbols()[i as int],
            is_symbol(c),
    {
        self.symbols[i]
    }

    /// The place of cell `i`.
    pub fn place(&self, i: usize) -> (p: Point)
        requires
            self.wf(),
            i < self.places().len(),
        ensures
            p == self.places()[i as int],
    {
        self.places[i]
    }

    /// The cell where the walk starts and ends: the first cell of row 0.
    pub open spec fn entrance(&self) -> Option<int> {
        first_in_top_row(self.places(), self.places().len())
    }

    /// Every kind that grows in the maze, as one mask.
    pub open spec fn all_herbs(&self) -> u64 {
        herbs_among(self.symbols(), self.symbols().len())
    }

    /// Finds the entrance.
    pub fn find_entrance(&self) -> (found: Option<usize>)
        requires
            self.wf(),
        ensures
            match found {
                Some(i) => self.entrance() == Some(i as int) && i < self.places().len(),
                None => self.entrance().is_none(),
            },
    {
        let mut i: usize = 0;
        while i < self.places.len()
            invariant
                0 <= i <= self.places.len(),
                first_in_top_row(self.places@, i as nat).is_none(),
            decreases self.places.len() - i,
        {
            if self.places[i].y == 0 {
                proof {
                    lemma_entrance_stays(self.places@, (i + 1) as nat, self.places@.len());
                }
                return Some(i);
            }
            i += 1;
        }
        None
    }

    /// Joins every kind that grows in the maze into one mask.
    pub fn gather_all(&self) -> (mask: u64)
        requires
            self.wf(),
        ensures
            mask == self.all_herbs(),
            mask < MASKS,
    {
        let mut mask: u64 = 0;
        let mut i: usize = 0;
        while i < self.symbols.len()
            invariant
                0 <= i <= self.symbols.len(),
                mask == herbs_among(self.symbols@, i as nat),
                mask < MASKS,
            decreases self.symbols.len() - i,
        {
            let herb = herb_of(self.symbols[i]);
            proof {
                lemma_join_masks(mask, herb);
            }
            mask = mask | herb;
            i += 1;
        }
        mask
    }

    /// The state of standing on cell `cell` with the kinds of `mask` gathered.
    pub open spec fn state(cell: int, mask: u64) -> u64 {
        (cell * MASKS + mask) as u64
    }

    /// The edge from cell `cell` with `mask` gathered in direction `k`, as a
    /// sequence of none or one: a step onto the cell beside, gathering what
    /// grows there.
    pub open spec fn hop(&self, cell: int, mask: u64, k: int) -> Seq<Hop> {
        let p = self.places()[cell];
        let to = (p.x + direction(k).0, p.y + direction(k).1);
        if fits_i32(to.0) && fits_i32(to.1) {
            match self.cell_at(Point { x: to.0 as i32, y: to.1 as i32 }) {
                Some(j) => seq![(Maze::state(j, mask | herb_mask(self.symbols()[j])), 1u64)],
                None => Seq::empty(),
            }
        } else {
            Seq::empty()
        }
    }

    /// The edges in the first `upto` directions.
    pub open spec fn hops(&self, cell: int, mask: u64, upto: nat) -> Seq<Hop>
        decreases upto,
    {
        if upto == 0 {
            Seq::empty()
        } else {
            self.hops(cell, mask, (upto - 1) as nat) + self.hop(cell, mask, upto - 1)
        }
    }
}

/// Once an entrance is found among the first places, it stays the entrance.
pub proof fn lemma_entrance_stays(places: Seq<Point>, from: nat, upto: nat)
    requires
        from <= upto,
        first_in_top_row(places, from) is Some,
    ensures
        first_in_top_row(places, upto) == first_in_top_row(places, from),
    decreases upto,
{
    if from < upto {
        lemma_entrance_stays(places, from, (upto - 1) as nat);
    }
}

impl StateGraph for Maze {
    open spec fn wf(&self) -> bool {
        Maze::wf(self)
    }

    open spec fn edges(&self, state: u64) -> Seq<Hop> {
        if state < self.places().len() * MASKS {
            self.hops((state / MASKS) as int, state % MASKS, 4)
        } else {
            Seq::empty()
        }
    }

    fn neighbors(&self, state: u64) -> (out: Vec<Hop>) {
        let mut out: Vec<Hop> = Vec::new();
        let n = self.places.len() as u64;
        let cell = state / MASKS;
        let mask = state % MASKS;
        if cell >= n {
            assert(state >= self.places().len() * MASKS) by (nonlinear_arith)
                requires
                    state / MASKS >= n,
                    n == self.places().len(),
                    MASKS == 0x400_0000,
            ;
            return out;
        }
        assert(state < self.places().len() * MASKS) by (nonlinear_arith)
            requires
                state / MASKS < n,
                n == self.places().len(),
                MASKS == 0x400_0000,
        ;
        let p = self.places[cell as usize];
        let mut k: usize = 0;
        while k < 4
            invariant
                0 <= k <= 4,
                Maze::wf(self),
                cell < self.places().len(),
                mask < MASKS,
                p == self.places()[cell as int],
                out@ == self.hops(cell as int, mask, k as nat),
            decreases 4 - k,
        {
            let ghost before = out@;
            match p.plus(direction_of(k)) {
                Some(q) => {
                    match self.find(&q) {
                        Some(j) => {
                            let herb = herb_of(self.symbols[j]);
                            proof {
                                lemma_join_masks(mask, herb);
                                lemma_cell(
                                    j as int,
                                    (mask | herb) as int,
                                    MOST_CELLS as int,
                                    MASKS as int,
                                );
                            }
                            out.push((j as u64 * MASKS + (mask | herb), 1));
                        },
                        None => {},
                    }
                },
                None => {},
            }
            assert(out@ =~= before + self.hop(cell as int, mask, k as int));
            k += 1;
        }
        out
    }
}

/// The fewest steps of a walk that starts at the entrance with nothing
/// gathered and is back there with every kind of the maze gathered;
/// `None` when there is no such walk or no entrance.
pub fn find_distance(maze: &Maze) -> (found: Option<u64>)
    requires
        maze.wf(),
    ensures
        match maze.entrance() {
            Some(e) => answers(
                maze,
                seq![(Maze::state(e, 0), 0u64)],
                Maze::state(e, maze.all_herbs()),
                found,
            ),
            None => found.is_none(),
        },
{
    let start = match maze.find_entrance() {
        Some(e) => e,
        None => {
            return None;
        },
    };
    let herb_score = maze.gather_all();
    proof {
        lemma_cell(start as int, 0, MOST_CELLS as int, MASKS as int);
        lemma_cell(start as int, herb_score as int, MOST_CELLS as int, MASKS as int);
    }
    let mut sources: Vec<Source> = Vec::new();
    sources.push((start as u64 * MASKS, 0));
    assert(sources@ =~= seq![(Maze::state(start as int, 0), 0u64)]);
    shortest_path(maze, &sources, start as u64 * MASKS + herb_score)
}

/// Reads a maze from its rows; `None` when some character cannot be read.
pub fn maze_from_rows(rows: &Vec<Vec<char>>) -> (made: Option<Maze>)
    ensures
        match made {
            Some(m) => m.wf() && lay_rows(pieces_view(rows@), rows@.len()) == Some(m.layout()),
            None => lay_rows(pieces_view(rows@), rows@.len()).is_none(),
        },
{
    let mut maze = Maze::new();
    let ghost views = pieces_view(rows@);
    let mut y: usize = 0;
    while y < rows.len()
        invariant
            0 <= y <= rows.len(),
            views == pieces_view(rows@),
            maze.wf(),
            lay_rows(views, y as nat) == Some(maze.layout()),
        decreases rows.len() - y,
    {
        let row = &rows[y];
        let ghost start = maze.layout();
        let mut x: usize = 0;
        while x < row.len()
            invariant
                0 <= x <= row.len(),
                0 <= y < rows.len(),
                views == pieces_view(rows@),
                row@ == views[y as int],
                maze.wf(),
                lay_rows(views, y as nat) == Some(start),
                lay_row(start, row@, y as int, x as nat) == Some(maze.layout()),
            decreases row.len() - x,
        {
            let c = row[x];
            let ghost before = maze.layout();
            let read = if c == '#' || c == '~' {
                true
            } else if x > 0x7fff_ffff || y > 0x7fff_ffff {
                false
            } else {
                maze.insert(Point { x: x as i32, y: y as i32 }, c)
            };
            if !read {
                proof {
                    assert(lay_cell(before, x as int, y as int, c).is_none());
                    assert(lay_row(start, row@, y as int, (x + 1) as nat).is_none());
                    lemma_row_stays_unlaid(start, row@, y as int, (x + 1) as nat, row@.len());
                    lemma_rows_stay_unlaid(views, (y + 1) as nat, views.len());
                }
                return None;
            }
            assert(lay_cell(before, x as int, y as int, c) == Some(maze.layout()));
            x += 1;
        }
        y += 1;
    }
    Some(maze)
}

/// The layout that a text describes, row by row.
pub open spec fn layout_of(text: Seq<char>) -> Option<Layout> {
    lay_rows(lines(text), lines(text).len())
}

/// Reads a maze from its text.
pub fn parse_input(input: &str) -> (made: Option<Maze>)
    ensures
        match made {
            Some(m) => m.wf() && layout_of(input@) == Some(m.layout()),
            None => layout_of(input@).is_none(),
        },
{
    let chars = chars_of(input);
    let rows = lines_of(&chars);
    maze_from_rows(&rows)
}

} // verus!
