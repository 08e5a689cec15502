//! Digging a field block by block: a block may be dug one deeper when it
//! has been dug already and none of the blocks around it is shallower.
//! The field is dug until no block may be dug any more.

use crate::text::{chars_of, copy_of, lines, lines_of, pieces_view};
use vstd::prelude::*;

verus! {

/// A field of depths, row by row.
pub type Field = Seq<Seq<usize>>;

/// The rows of a field, as sequences.
pub open spec fn field_view(grid: Seq<Vec<usize>>) -> Field {
    Seq::new(grid.len(), |y: int| grid[y]@)
}

/// The field has `h` rows of `w` blocks each.
pub open spec fn rect(g: Field, h: int, w: int) -> bool {
    g.len() == h && forall|y: int| 0 <= y < h ==> (#[trigger] g[y]).len() == w
}

/// Every offset leads to a block beside or on the block it starts from.
pub open spec fn near(offsets: Seq<(i32, i32)>) -> bool {
    forall|k: int|
        0 <= k < offsets.len() ==> -1 <= (#[trigger] offsets[k]).0 <= 1 && -1 <= offsets[k].1 <= 1
}

/// Some offset leads away from the block it starts from. Without one
/// every block that has been dug could be dug for ever.
pub open spec fn leads_away(offsets: Seq<(i32, i32)>) -> bool {
    exists|k: int| 0 <= k < offsets.len() && #[trigger] offsets[k] != (0i32, 0i32)
}

/// The block is not on the rim of the field.
pub open spec fn inner(h: int, w: int, y: int, x: int) -> bool {
    1 <= y < h - 1 && 1 <= x < w - 1
}

/// The block at `(y, x)` is no deeper than the block that offset `k` leads to.
pub open spec fn level_with(g: Field, offsets: Seq<(i32, i32)>, y: int, x: int, k: int) -> bool {
    g[y][x] <= g[y + offsets[k].1][x + offsets[k].0]
}

/// The block may be dug: it has been dug, and no block around is shallower.
pub open spec fn can_dig(g: Field, offsets: Seq<(i32, i32)>, y: int, x: int) -> bool {
    g[y][x] > 0 && forall|k: int| 0 <= k < offsets.len() ==> #[trigger] level_with(g, offsets, y, x, k)
}

/// No inner block may be dug.
pub open spec fn settled(g: Field, offsets: Seq<(i32, i32)>, h: int, w: int) -> bool {
    forall|y: int, x: int| inner(h, w, y, x) ==> !#[trigger] can_dig(g, offsets, y, x)
}

/// Every block of `g` is at least as deep as in `base`.
pub open spec fn at_least(g: Field, base: Field, h: int, w: int) -> bool {
    forall|y: int, x: int| 0 <= y < h && 0 <= x < w ==> base[y][x] <= #[trigger] g[y][x]
}

/// `g` is what digging makes of `base`: it is dug no shallower, no block
/// of it may be dug any more, and no field of which the same holds is
/// shallower anywhere.
pub open spec fn dug_out(g: Field, base: Field, offsets: Seq<(i32, i32)>, h: int, w: int) -> bool {
    &&& rect(g, h, w)
    &&& at_least(g, base, h, w)
    &&& settled(g, offsets, h, w)
    &&& forall|other: Field|
        rect(other, h, w) && at_least(other, base, h, w) && #[trigger] settled(other, offsets, h, w)
            ==> at_least(other, g, h, w)
}

/// How many steps by the offset `d` lead from an inner block to the
/// rim of the field; 0 for a block of the rim. Along an axis on which
/// the offset does not move the rim is never met, which counts as more
/// steps than the field has rows and columns.
pub open spec fn to_rim(h: int, w: int, y: int, x: int, d: (i32, i32)) -> int {
    let a = if d.1 > 0 {
        h - 1 - y
    } else if d.1 < 0 {
        y
    } else {
        h + w
    };
    let b = if d.0 > 0 {
        w - 1 - x
    } else if d.0 < 0 {
        x
    } else {
        h + w
    };
    if !inner(h, w, y, x) {
        0
    } else if a <= b {
        a
    } else {
        b
    }
}

/// No block is deeper than `top` plus its distance to the rim along `d`.
pub open spec fn capped(g: Field, h: int, w: int, top: int, d: (i32, i32)) -> bool {
    forall|y: int, x: int|
        0 <= y < h && 0 <= x < w ==> #[trigger] g[y][x] <= top + to_rim(h, w, y, x, d)
}

/// How much deeper the first `upto` blocks of row `y` may still become.
pub open spec fn row_slack(
    row: Seq<usize>,
    h: int,
    w: int,
    top: int,
    d: (i32, i32),
    y: int,
    upto: nat,
) -> int
    decreases upto,
{
    if upto == 0 {
        0
    } else {
        row_slack(row, h, w, top, d, y, (upto - 1) as nat) + (top + to_rim(h, w, y, upto - 1, d)
            - row[upto - 1])
    }
}

/// How much deeper the blocks of the first `upto` rows may still become.
pub open spec fn slack(g: Field, h: int, w: int, top: int, d: (i32, i32), upto: nat) -> int
    decreases upto,
{
    if upto == 0 {
        0
    } else {
        slack(g, h, w, top, d, (upto - 1) as nat) + row_slack(g[upto - 1], h, w, top, d, upto - 1, w as nat)
    }
}

/// The slack of a capped row is not negative.
pub proof fn lemma_row_slack_positive(
    g: Field,
    h: int,
    w: int,
    top: int,
    d: (i32, i32),
    y: int,
    upto: nat,
)
    requires
        rect(g, h, w),
        capped(g, h, w, top, d),
        0 <= y < h,
        upto <= w,
    ensures
        row_slack(g[y], h, w, top, d, y, upto) >= 0,
    decreases upto,
{
    if upto > 0 {
        lemma_row_slack_positive(g, h, w, top, d, y, (upto - 1) as nat);
        assert(g[y][upto - 1] <= top + to_rim(h, w, y, upto - 1, d));
    }
}

/// The slack of a capped field is not negative.
pub proof fn lemma_slack_positive(g: Field, h: int, w: int, top: int, d: (i32, i32), upto: nat)
    requires
        rect(g, h, w),
        capped(g, h, w, top, d),
        upto <= h,
        w >= 0,
    ensures
        slack(g, h, w, top, d, upto) >= 0,
    decreases upto,
{
    if upto > 0 {
        lemma_slack_positive(g, h, w, top, d, (upto - 1) as nat);
        lemma_row_slack_positive(g, h, w, top, d, upto - 1, w as nat);
    }
}

/// Digging one block of a row takes one off the slack of the row.
pub proof fn lemma_row_dug(
    row: Seq<usize>,
    h: int,
    w: int,
    top: int,
    d: (i32, i32),
    y: int,
    x: int,
    upto: nat,
)
    requires
        0 <= x < row.len(),
        row[x] < usize::MAX,
        upto <= row.len(),
    ensures
        row_slack(row.update(x, (row[x] + 1) as usize), h, w, top, d, y, upto) == row_slack(
            row,
            h,
            w,
            top,
            d,
            y,
            upto,
        ) - (if x < upto {
            1int
        } else {
            0int
        }),
    decreases upto,
{
    if upto > 0 {
        lemma_row_dug(row, h, w, top, d, y, x, (upto - 1) as nat);
    }
}

/// Digging one block of a field takes one off the slack of the field.
pub proof fn lemma_field_dug(
    g: Field,
    after: Field,
    h: int,
    w: int,
    top: int,
    d: (i32, i32),
    y: int,
    x: int,
    upto: nat,
)
    requires
        rect(g, h, w),
        0 <= y < h,
        0 <= x < w,
        g[y][x] < usize::MAX,
        after == g.update(y, g[y].update(x, (g[y][x] + 1) as usize)),
        upto <= h,
    ensures
        slack(after, h, w, top, d, upto) == slack(g, h, w, top, d, upto) - (if y < upto {
            1int
        } else {
            0int
        }),
    decreases upto,
{
    if upto > 0 {
        lemma_field_dug(g, after, h, w, top, d, y, x, (upto - 1) as nat);
        if upto - 1 == y {
            lemma_row_dug(g[y], h, w, top, d, y, x, w as nat);
        }
    }
}

/// The sum of the first `upto` depths of a row.
pub open spec fn row_total(row: Seq<usize>, upto: nat) -> nat
    decreases upto,
{
    if upto == 0 {
        0
    } else {
        row_total(row, (upto - 1) as nat) + row[upto - 1] as nat
    }
}

/// The sum of the depths of the first `upto` rows.
pub open spec fn total(g: Field, upto: nat) -> nat
    decreases upto,
{
    if upto == 0 {
        0
    } else {
        total(g, (upto - 1) as nat) + row_total(g[upto - 1], g[upto - 1].len())
    }
}

/// The sum grows with the rows counted.
pub proof fn lemma_total_grows(g: Field, a: nat, b: nat)
    requires
        a <= b,
    ensures
        total(g, a) <= total(g, b),
    decreases b,
{
    if a < b {
        lemma_total_grows(g, a, (b - 1) as nat);
    }
}

/// The sum grows with the blocks counted.
pub proof fn lemma_row_total_grows(row: Seq<usize>, a: nat, b: nat)
    requires
        a <= b,
    ensures
        row_total(row, a) <= row_total(row, b),
    decreases b,
{
    if a < b {
        lemma_row_total_grows(row, a, (b - 1) as nat);
    }
}

/// The sum of all depths of the field; `None` when it leaves the machine word.
pub fn total_depth(grid: &Vec<Vec<usize>>) -> (sum: Option<usize>)
    ensures
        sum == (if total(field_view(grid@), grid@.len()) <= usize::MAX {
            Some(total(field_view(grid@), grid@.len()) as usize)
        } else {
            None
        }),
{
    let ghost g = field_view(grid@);
    let mut sum: usize = 0;
    let mut y: usize = 0;
    while y < grid.len()
        invariant
            0 <= y <= grid.len(),
            g == field_view(grid@),
            sum == total(g, y as nat),
        decreases grid.len() - y,
    {
        let row = &grid[y];
        assert(g[y as int] == row@);
        let mut in_row: usize = 0;
        let mut x: usize = 0;
        while x < row.len()
            invariant
                0 <= x <= row.len(),
                0 <= y < grid.len(),
                g == field_view(grid@),
                g[y as int] == row@,
                in_row == row_total(row@, x as nat),
            decreases row.len() - x,
        {
            in_row = match in_row.checked_add(row[x]) {
                Some(s) => s,
                None => {
                    proof {
                        lemma_row_total_grows(row@, (x + 1) as nat, row@.len());
                        lemma_total_grows(g, (y + 1) as nat, g.len());
                    }
                    return None;
                },
            };
            x += 1;
        }
        sum = match sum.checked_add(in_row) {
            Some(s) => s,
            None => {
                proof {
                    lemma_total_grows(g, (y + 1) as nat, g.len());
                }
                return None;
            },
        };
        y += 1;
    }
    Some(sum)
}

/// Some block of the field is as deep as `top`.
pub open spec fn some_as_deep(g: Field, top: usize) -> bool {
    exists|y: int, x: int| 0 <= y < g.len() && 0 <= x < g[y].len() && #[trigger] g[y][x] == top
}

/// The field can be dug out: it has rows, all of one length, and no
/// block so deep that digging as deep again as there are rows and
/// columns would leave the machine word.
pub open spec fn diggable(g: Field) -> bool {
    &&& g.len() > 0
    &&& exists|w: int| rect(g, g.len() as int, w)
    &&& forall|y: int, x: int|
        0 <= y < g.len() && 0 <= x < g[y].len() ==> #[trigger] g[y][x] + g.len() + g[y].len()
            <= usize::MAX
}

/// The depth of the deepest block of the field, 0 for a field without blocks.
pub fn deepest(grid: &Vec<Vec<usize>>) -> (top: usize)
    ensures
        forall|y: int, x: int|
            0 <= y < grid@.len() && 0 <= x < grid@[y]@.len() ==> #[trigger] field_view(grid@)[y][x]
                <= top,
        top == 0 || some_as_deep(field_view(grid@), top),
{
    let ghost g = field_view(grid@);
    let mut top: usize = 0;
    let mut y: usize = 0;
    while y < grid.len()
        invariant
            0 <= y <= grid.len(),
            g == field_view(grid@),
            forall|a: int, b: int| 0 <= a < y && 0 <= b < g[a].len() ==> #[trigger] g[a][b] <= top,
            top == 0 || some_as_deep(g, top),
        decreases grid.len() - y,
    {
        let row = &grid[y];
        assert(g[y as int] == row@);
        let mut x: usize = 0;
        while x < row.len()
            invariant
                0 <= x <= row.len(),
                0 <= y < grid.len(),
                g == field_view(grid@),
                g[y as int] == row@,
                forall|a: int, b: int|
                    0 <= a < y && 0 <= b < g[a].len() ==> #[trigger] g[a][b] <= top,
                forall|b: int| 0 <= b < x ==> #[trigger] row@[b] <= top,
                top == 0 || some_as_deep(g, top),
            decreases row.len() - x,
        {
            if row[x] > top {
                top = row[x];
                assert(g[y as int][x as int] == top);
            }
            x += 1;
        }
        y += 1;
    }
    top
}

/// Whether the field has rows of one length, and that length.
pub fn width_of(grid: &Vec<Vec<usize>>) -> (w: Option<usize>)
    ensures
        match w {
            Some(w) => rect(field_view(grid@), grid@.len() as int, w as int) && grid@.len() > 0,
            None => grid@.len() == 0 || !exists|w: int|
                rect(field_view(grid@), grid@.len() as int, w),
        },
{
    if grid.len() == 0 {
        return None;
    }
    let w = grid[0].len();
    let ghost g = field_view(grid@);
    let mut y: usize = 0;
    while y < grid.len()
        invariant
            0 <= y <= grid.len(),
            g == field_view(grid@),
            w == g[0].len(),
            forall|a: int| 0 <= a < y ==> (#[trigger] g[a]).len() == w,
        decreases grid.len() - y,
    {
        if grid[y].len() != w {
            proof {
                assert(g[y as int].len() != g[0].len());
                assert forall|v: int| !rect(g, g.len() as int, v) by {
                    if rect(g, g.len() as int, v) {
                        assert(g[0].len() == v);
                        assert(g[y as int].len() == v);
                    }
                }
            }
            return None;
        }
        y += 1;
    }
    Some(w)
}

/// Whether the inner block at `(y, x)` may be dug.
fn may_dig(grid: &Vec<Vec<usize>>, offsets: &Vec<(i32, i32)>, y: usize, x: usize, Ghost(h): Ghost<
    int,
>, Ghost(w): Ghost<int>) -> (yes: bool)
    requires
        rect(field_view(grid@), h, w),
        near(offsets@),
        inner(h, w, y as int, x as int),
    ensures
        yes == can_dig(field_view(grid@), offsets@, y as int, x as int),
{
    let ghost g = field_view(grid@);
    assert(g[y as int] == grid@[y as int]@);
    let rows = grid.len();
    let columns = grid[y].len();
    let depth = grid[y][x];
    if depth == 0 {
        return false;
    }
    let mut k: usize = 0;
    while k < offsets.len()
        invariant
            0 <= k <= offsets.len(),
            g == field_view(grid@),
            rect(g, h, w),
            near(offsets@),
            inner(h, w, y as int, x as int),
            h == rows,
            w == columns,
            depth == g[y as int][x as int],
            forall|j: int| 0 <= j < k ==> #[trigger] level_with(g, offsets@, y as int, x as int, j),
        decreases offsets.len() - k,
    {
        let (dx, dy) = offsets[k];
        assert(-1 <= offsets@[k as int].0 <= 1 && -1 <= offsets@[k as int].1 <= 1);
        let ny: usize = if dy < 0 {
            y - 1
        } else if dy > 0 {
            y + 1
        } else {
            y
        };
        let nx: usize = if dx < 0 {
            x - 1
        } else if dx > 0 {
            x + 1
        } else {
            x
        };
        assert(g[ny as int] == grid@[ny as int]@);
        assert(g[ny as int].len() == w);
        if depth > grid[ny][nx] {
            assert(!level_with(g, offsets@, y as int, x as int, k as int));
            return false;
        }
        k += 1;
    }
    true
}

/// Digs the field until no inner block may be dug any more. `false` is
/// returned, and nothing is dug, when the field has no rows or rows of
/// different lengths, or when its deepest block is so deep that digging
/// could leave the machine word.
pub fn dig_out(grid: &mut Vec<Vec<usize>>, offsets: &Vec<(i32, i32)>) -> (done: bool)
    requires
        near(offsets@),
        leads_away(offsets@),
    ensures
        done == diggable(field_view(old(grid)@)),
        !done ==> final(grid)@ == old(grid)@,
        done ==> exists|w: int|
            dug_out(
                field_view(final(grid)@),
                field_view(old(grid)@),
                offsets@,
                old(grid)@.len() as int,
                w,
            ),
{
    let width = match width_of(grid) {
        Some(w) => w,
        None => {
            return false;
        },
    };
    let top = deepest(grid);
    let height = grid.len();
    let room = match height.checked_add(width) {
        Some(r) => r,
        None => {
            assert(!diggable(field_view(grid@))) by {
                assert(rect(field_view(grid@), height as int, width as int));
                assert(field_view(grid@)[0][0] + height + width > usize::MAX);
            }
            return false;
        },
    };
    if top > usize::MAX - room {
        assert(!diggable(field_view(grid@))) by {
            assert(rect(field_view(grid@), height as int, width as int));
        }
        return false;
    }
    assert(diggable(field_view(grid@))) by {
        assert(rect(field_view(grid@), height as int, width as int));
    }
    let ghost h = height as int;
    let ghost w = width as int;
    let ghost base = field_view(grid@);
    let ghost cap = top as int;
    let ghost at = choose|k: int| 0 <= k < offsets@.len() && #[trigger] offsets@[k] != (0i32, 0i32);
    let ghost d = offsets@[at];
    proof {
        assert(capped(base, h, w, cap, d));
        lemma_slack_positive(base, h, w, cap, d, h as nat);
    }
    if height < 3 || width < 3 {
        assert(dug_out(base, base, offsets@, h, w));
        return true;
    }
    let mut changed = true;
    while changed
        invariant
            height == grid@.len(),
            height >= 3,
            width >= 3,
            h == height,
            w == width,
            cap == top,
            top + height + width <= usize::MAX,
            near(offsets@),
            leads_away(offsets@),
            0 <= at < offsets@.len(),
            d == offsets@[at],
            d != (0i32, 0i32),
            rect(base, h, w),
            rect(field_view(grid@), h, w),
            at_least(field_view(grid@), base, h, w),
            capped(field_view(grid@), h, w, cap, d),
            forall|other: Field|
                rect(other, h, w) && at_least(other, base, h, w) && #[trigger] settled(
                    other,
                    offsets@,
                    h,
                    w,
                ) ==> at_least(other, field_view(grid@), h, w),
            !changed ==> settled(field_view(grid@), offsets@, h, w),
            slack(field_view(grid@), h, w, cap, d, h as nat) >= 0,
        decreases slack(field_view(grid@), h, w, cap, d, h as nat), (if changed {
            1int
        } else {
            0int
        }),
    {
        changed = false;
        let ghost at_start = field_view(grid@);
        let mut y: usize = 1;
        while y < height - 1
            invariant
                1 <= y <= height - 1,
                height >= 3,
                width >= 3,
                height == grid@.len(),
                h == height,
                w == width,
                cap == top,
                top + height + width <= usize::MAX,
                near(offsets@),
                leads_away(offsets@),
                0 <= at < offsets@.len(),
                d == offsets@[at],
                d != (0i32, 0i32),
                rect(base, h, w),
                rect(field_view(grid@), h, w),
                at_least(field_view(grid@), base, h, w),
                capped(field_view(grid@), h, w, cap, d),
                forall|other: Field|
                    rect(other, h, w) && at_least(other, base, h, w) && #[trigger] settled(
                        other,
                        offsets@,
                        h,
                        w,
                    ) ==> at_least(other, field_view(grid@), h, w),
                slack(field_view(grid@), h, w, cap, d, h as nat) >= 0,
                changed ==> slack(field_view(grid@), h, w, cap, d, h as nat) < slack(
                    at_start,
                    h,
                    w,
                    cap,
                    d,
                    h as nat,
                ),
                !changed ==> field_view(grid@) == at_start,
                !changed ==> forall|a: int, b: int|
                    inner(h, w, a, b) && a < y ==> !#[trigger] can_dig(at_start, offsets@, a, b),
            decreases height - y,
        {
            let mut x: usize = 1;
            while x < width - 1
                invariant
                    1 <= x <= width - 1,
                    1 <= y < height - 1,
                    height >= 3,
                    width >= 3,
                    height == grid@.len(),
                    h == height,
                    w == width,
                    cap == top,
                    top + height + width <= usize::MAX,
                    near(offsets@),
                    leads_away(offsets@),
                    0 <= at < offsets@.len(),
                    d == offsets@[at],
                    d != (0i32, 0i32),
                    rect(base, h, w),
                    rect(field_view(grid@), h, w),
                    at_least(field_view(grid@), base, h, w),
                    capped(field_view(grid@), h, w, cap, d),
                    forall|other: Field|
                        rect(other, h, w) && at_least(other, base, h, w) && #[trigger] settled(
                            other,
                            offsets@,
                            h,
                            w,
                        ) ==> at_least(other, field_view(grid@), h, w),
                    slack(field_view(grid@), h, w, cap, d, h as nat) >= 0,
                    changed ==> slack(field_view(grid@), h, w, cap, d, h as nat) < slack(
                        at_start,
                        h,
                        w,
                        cap,
                        d,
                        h as nat,
                    ),
                    !changed ==> field_view(grid@) == at_start,
                    !changed ==> forall|a: int, b: int|
                        inner(h, w, a, b) && (a < y || (a == y && b < x)) ==> !#[trigger] can_dig(
                            at_start,
                            offsets@,
                            a,
                            b,
                        ),
                decreases width - x,
            {
                let ghost g = field_view(grid@);
                if may_dig(grid, offsets, y, x, Ghost(h), Ghost(w)) {
                    assert(g[y as int] == grid@[y as int]@);
                    let depth = grid[y][x];
                    proof {
                        lemma_dig_stays_capped(g, offsets@, h, w, cap, at, y as int, x as int);
                    }
                    let mut row = copy_of(&grid[y]);
                    row.set(x, depth + 1);
                    grid.set(y, row);
                    let ghost after = field_view(grid@);
                    proof {
                        assert(after =~= g.update(
                            y as int,
                            g[y as int].update(x as int, (depth + 1) as usize),
                        ));
                        lemma_field_dug(g, after, h, w, cap, d, y as int, x as int, h as nat);
                        lemma_dig_keeps_least(g, after, base, offsets@, h, w, y as int, x as int);
                        assert(capped(after, h, w, cap, d)) by {
                            assert forall|a: int, b: int| 0 <= a < h && 0 <= b < w implies #[trigger] after[a][b]
                                <= cap + to_rim(h, w, a, b, d) by {
                                if !(a == y && b == x) {
                                    assert(after[a][b] == g[a][b]);
                                }
                            }
                        }
                        assert(at_least(after, base, h, w)) by {
                            assert forall|a: int, b: int| 0 <= a < h && 0 <= b < w implies base[a][b]
                                <= #[trigger] after[a][b] by {
                                assert(base[a][b] <= g[a][b]);
                                if !(a == y && b == x) {
                                    assert(after[a][b] == g[a][b]);
                                }
                            }
                        }
                        lemma_slack_positive(after, h, w, cap, d, h as nat);
                    }
                    changed = true;
                }
                x += 1;
            }
            y += 1;
        }
        proof {
            if !changed {
                assert forall|a: int, b: int| inner(h, w, a, b) implies !#[trigger] can_dig(
                    at_start,
                    offsets@,
                    a,
                    b,
                ) by {}
            }
        }
    }
    assert(dug_out(field_view(grid@), base, offsets@, h, w));
    true
}

/// A block that may be dug lies below its cap, so digging it keeps the
/// field capped: the block that the offset `at` leads to is as deep and
/// a step nearer the rim.
pub proof fn lemma_dig_stays_capped(
    g: Field,
    offsets: Seq<(i32, i32)>,
    h: int,
    w: int,
    top: int,
    at: int,
    y: int,
    x: int,
)
    requires
        rect(g, h, w),
        near(offsets),
        0 <= at < offsets.len(),
        offsets[at] != (0i32, 0i32),
        capped(g, h, w, top, offsets[at]),
        inner(h, w, y, x),
        can_dig(g, offsets, y, x),
    ensures
        g[y][x] + 1 <= top + to_rim(h, w, y, x, offsets[at]),
        to_rim(h, w, y, x, offsets[at]) <= h + w,
{
    let d = offsets[at];
    assert(level_with(g, offsets, y, x, at));
    let ny = y + d.1;
    let nx = x + d.0;
    assert(g[ny][nx] <= top + to_rim(h, w, ny, nx, d));
    assert(to_rim(h, w, ny, nx, d) + 1 <= to_rim(h, w, y, x, d));
}

/// Digging a block that may be dug keeps the field below every field
/// that is settled and no shallower than the base.
pub proof fn lemma_dig_keeps_least(
    g: Field,
    after: Field,
    base: Field,
    offsets: Seq<(i32, i32)>,
    h: int,
    w: int,
    y: int,
    x: int,
)
    requires
        rect(g, h, w),
        near(offsets),
        inner(h, w, y, x),
        can_dig(g, offsets, y, x),
        g[y][x] < usize::MAX,
        after == g.update(y, g[y].update(x, (g[y][x] + 1) as usize)),
        forall|other: Field|
            rect(other, h, w) && at_least(other, base, h, w) && #[trigger] settled(
                other,
                offsets,
                h,
                w,
            ) ==> at_least(other, g, h, w),
    ensures
        forall|other: Field|
            rect(other, h, w) && at_least(other, base, h, w) && #[trigger] settled(
                other,
                offsets,
                h,
                w,
            ) ==> at_least(other, after, h, w),
{
    assert forall|other: Field|
        rect(other, h, w) && at_least(other, base, h, w) && #[trigger] settled(
            other,
            offsets,
            h,
            w,
        ) implies at_least(other, after, h, w) by {
        assert(at_least(other, g, h, w));
        assert(!can_dig(other, offsets, y, x));
        assert(g[y][x] <= other[y][x]);
        if other[y][x] == g[y][x] {
            let k = choose|k: int|
                0 <= k < offsets.len() && !#[trigger] level_with(other, offsets, y, x, k);
            assert(level_with(g, offsets, y, x, k));
            let ny = y + offsets[k].1;
            let nx = x + offsets[k].0;
            assert(g[ny][nx] <= other[ny][nx]);
        }
        assert forall|a: int, b: int| 0 <= a < h && 0 <= b < w implies after[a][b] <= #[trigger] other[a][b] by {
            assert(g[a][b] <= other[a][b]);
            if !(a == y && b == x) {
                assert(after[a][b] == g[a][b]);
            }
        }
    }
}

/// Digs the field out and returns the sum of all its depths; `None`,
/// with nothing dug, when the field cannot be dug out, and `None` too
/// when the sum leaves the machine word.
pub fn count(grid: &mut Vec<Vec<usize>>, offsets: &Vec<(i32, i32)>) -> (sum: Option<usize>)
    requires
        near(offsets@),
        leads_away(offsets@),
    ensures
        sum is Some <==> diggable(field_view(old(grid)@)) && total(
            field_view(final(grid)@),
            final(grid)@.len(),
        ) <= usize::MAX,
        !diggable(field_view(old(grid)@)) ==> final(grid)@ == old(grid)@,
        sum is Some ==> sum.unwrap() == total(field_view(final(grid)@), final(grid)@.len()),
        diggable(field_view(old(grid)@)) ==> exists|w: int|
            dug_out(
                field_view(final(grid)@),
                field_view(old(grid)@),
                offsets@,
                old(grid)@.len() as int,
                w,
            ),
{
    if dig_out(grid, offsets) {
        total_depth(grid)
    } else {
        None
    }
}

/// The depth that a character stands for: `#` is a block to dig, `.` is not.
pub open spec fn depth_of(c: char) -> Option<usize> {
    if c == '#' {
        Some(1usize)
    } else if c == '.' {
        Some(0usize)
    } else {
        None
    }
}

/// The depths that a row of characters stands for.
pub open spec fn row_of(line: Seq<char>) -> Option<Seq<usize>> {
    if forall|x: int| 0 <= x < line.len() ==> depth_of(#[trigger] line[x]) is Some {
        Some(Seq::new(line.len(), |x: int| depth_of(line[x]).unwrap()))
    } else {
        None
    }
}

/// The field that the lines of a text stand for.
pub open spec fn field_of(text: Seq<char>) -> Option<Field> {
    let ls = lines(text);
    if forall|y: int| 0 <= y < ls.len() ==> row_of(#[trigger] ls[y]) is Some {
        Some(Seq::new(ls.len(), |y: int| row_of(ls[y]).unwrap()))
    } else {
        None
    }
}

/// Reads one row of the field.
pub fn parse_row(line: &Vec<char>) -> (row: Option<Vec<usize>>)
    ensures
        match row {
            Some(r) => row_of(line@) == Some(r@),
            None => row_of(line@).is_none(),
        },
{
    let mut row: Vec<usize> = Vec::new();
    let mut x: usize = 0;
    while x < line.len()
        invariant
            0 <= x <= line.len(),
            row@.len() == x,
            forall|j: int| 0 <= j < x ==> depth_of(#[trigger] line@[j]) == Some(row@[j]),
        decreases line.len() - x,
    {
        let c = line[x];
        if c == '#' {
            row.push(1);
        } else if c == '.' {
            row.push(0);
        } else {
            assert(depth_of(line@[x as int]).is_none());
            return None;
        }
        x += 1;
    }
    assert(row@ =~= Seq::new(line@.len(), |x: int| depth_of(line@[x]).unwrap()));
    Some(row)
}

/// Reads a field from its text: `#` for a block to dig, `.` for none.
/// The text has to hold these two only; `read` tells whether it does.
pub fn parse(input: &str) -> (grid: Vec<Vec<usize>>)
    requires
        field_of(input@) is Some,
    ensures
        field_of(input@) == Some(field_view(grid@)),
{
    read(input).unwrap()
}

/// Reads a field from its text: `#` for a block to dig, `.` for none.
pub fn read(input: &str) -> (grid: Option<Vec<Vec<usize>>>)
    ensures
        match grid {
            Some(g) => field_of(input@) == Some(field_view(g@)),
            None => field_of(input@).is_none(),
        },
{
    let chars = chars_of(input);
    let ls = lines_of(&chars);
    let ghost views = pieces_view(ls@);
    let mut grid: Vec<Vec<usize>> = Vec::new();
    let mut y: usize = 0;
    while y < ls.len()
        invariant
            0 <= y <= ls.len(),
            views == pieces_view(ls@),
            views == lines(input@),
            grid@.len() == y,
            forall|j: int| 0 <= j < y ==> row_of(#[trigger] views[j]) == Some(grid@[j]@),
        decreases ls.len() - y,
    {
        match parse_row(&ls[y]) {
            Some(row) => {
                grid.push(row);
            },
            None => {
                assert(row_of(views[y as int]).is_none());
                return None;
            },
        }
        y += 1;
    }
    proof {
        assert forall|j: int| 0 <= j < views.len() implies row_of(#[trigger] views[j]) is Some by {
            assert(row_of(views[j]) == Some(grid@[j]@));
        }
        assert forall|j: int| 0 <= j < views.len() implies field_view(grid@)[j] == row_of(
            views[j],
        ).unwrap() by {
            assert(row_of(views[j]) == Some(grid@[j]@));
        }
        assert(field_view(grid@) =~= Seq::new(views.len(), |y: int| row_of(views[y]).unwrap()));
    }
    Some(grid)
}

} // verus!
