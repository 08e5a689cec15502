//! Temples built layer on layer: a layer reaches one block further out on
//! each side than the layer above it.

use vstd::prelude::*;

verus! {

/// `layers` is the least number of layers whose blocks, `layers` squared,
/// are at least `blocks`.
pub open spec fn is_layers_for(blocks: usize, layers: int) -> bool {
    layers >= 0 && layers * layers >= blocks && (layers == 0 || (layers - 1) * (layers - 1)
        < blocks)
}

/// The least number of layers that take at least `blocks` blocks.
pub fn layers_for(blocks: usize) -> (layers: u64)
    ensures
        is_layers_for(blocks, layers as int),
        layers <= 0x1_0000_0000,
{
    let wanted: u128 = blocks as u128;
    let mut low: u64 = 0;
    let mut high: u64 = 0x1_0000_0000;
    assert(0x1_0000_0000u128 * 0x1_0000_0000u128 >= wanted) by (nonlinear_arith)
        requires
            wanted <= 0xffff_ffff_ffff_ffff,
    ;
    while low < high
        invariant
            0 <= low <= high <= 0x1_0000_0000,
            wanted == blocks,
            high * high >= wanted,
            low == 0 || (low - 1) * (low - 1) < wanted,
        decreases high - low,
    {
        let mid: u64 = low + (high - low) / 2;
        assert(mid * mid <= 0x1_0000_0000 * 0x1_0000_0000) by (nonlinear_arith)
            requires
                0 <= mid <= 0x1_0000_0000,
        ;
        let square: u128 = mid as u128 * mid as u128;
        if square >= wanted {
            high = mid;
        } else {
            low = mid + 1;
        }
    }
    low
}

/// The blocks that are missing for the temple begun with
/// `available_blocks`, times the width of its lowest layer.
pub open spec fn missing_times_width(available_blocks: usize, layers: int) -> int {
    (layers * layers - available_blocks) * (2 * layers - 1)
}

/// The blocks that are missing to end the layer that the last of
/// `available_blocks` blocks goes into, times the width of that layer;
/// `None` when the number leaves the machine word.
pub fn blocks_to_buy(available_blocks: usize) -> (answer: Option<usize>)
    requires
        available_blocks >= 1,
    ensures
        exists|layers: int|
            is_layers_for(available_blocks, layers) && answer == (if missing_times_width(
                available_blocks,
                layers,
            ) <= usize::MAX {
                Some(missing_times_width(available_blocks, layers) as usize)
            } else {
                None
            }),
{
    let layers = layers_for(available_blocks);
    assert(layers >= 1) by (nonlinear_arith)
        requires
            layers * layers >= available_blocks,
            available_blocks >= 1,
            layers >= 0,
    ;
    assert(layers * layers <= 0x1_0000_0000 * 0x1_0000_0000) by (nonlinear_arith)
        requires
            0 <= layers <= 0x1_0000_0000,
    ;
    let blocks_needed: u128 = layers as u128 * layers as u128;
    let base_width: u128 = 2 * layers as u128 - 1;
    let additional: u128 = blocks_needed - available_blocks as u128;
    assert(additional * base_width <= 0x1_0000_0000_0000_0000 * 0x2_0000_0000) by (nonlinear_arith)
        requires
            0 <= additional <= 0x1_0000_0000_0000_0000,
            0 <= base_width <= 0x2_0000_0000,
    ;
    let answer: u128 = additional * base_width;
    assert(answer == missing_times_width(available_blocks, layers as int));
    if answer <= usize::MAX as u128 {
        Some(answer as usize)
    } else {
        None
    }
}

/// A shrine as far as it is built: the thickness of its lowest layer,
/// the width of that layer, and the blocks used.
pub struct Shrine {
    pub thickness: nat,
    pub width: nat,
    pub used: nat,
}

/// The shrine with one more layer below: the thickness of the layer is
/// that of the layer above times the number of priests, less whole
/// numbers of acolytes; the layer is two wider than the one above.
/// `None` when a number of the layer leaves the machine word.
pub open spec fn with_layer(shrine: Shrine, priests: nat, acolytes: nat) -> Option<Shrine> {
    let thickness = (shrine.thickness * priests) % acolytes;
    let width = shrine.width + 2;
    let used = shrine.used + width * thickness;
    if shrine.thickness * priests <= usize::MAX && width <= usize::MAX && width * thickness
        <= usize::MAX && used <= usize::MAX {
        Some(Shrine { thickness, width, used })
    } else {
        None
    }
}

/// The shrine built on until `supply` blocks are used, with at most
/// `fuel` more layers; `None` when the layers do not suffice or a
/// number leaves the machine word.
pub open spec fn built(shrine: Shrine, priests: nat, acolytes: nat, supply: nat, fuel: nat) -> Option<
    Shrine,
>
    decreases fuel,
{
    if shrine.used >= supply {
        Some(shrine)
    } else if fuel == 0 {
        None
    } else {
        match with_layer(shrine, priests, acolytes) {
            Some(next) => built(next, priests, acolytes, supply, (fuel - 1) as nat),
            None => None,
        }
    }
}

/// The blocks to buy for a shrine that begins with one block: what is
/// missing to end the layer that the last of `supply` blocks goes into,
/// times the width of that layer.
pub open spec fn shrine_blocks(priests: nat, acolytes: nat, supply: nat, limit: nat) -> Option<
    usize,
> {
    match built(Shrine { thickness: 1, width: 1, used: 1 }, priests, acolytes, supply, limit) {
        Some(shrine) => if (shrine.used - supply) * shrine.width <= usize::MAX {
            Some(((shrine.used - supply) * shrine.width) as usize)
        } else {
            None
        },
        None => None,
    }
}

/// The blocks that are missing to end the layer that the last of
/// `supply` blocks goes into, times the width of that layer, for a shrine
/// that begins with one block. `None` when `limit` layers do not
/// suffice or a number leaves the machine word.
pub fn shrine_blocks_to_buy(priests: usize, acolytes: usize, supply: usize, limit: usize) -> (answer:
    Option<usize>)
    requires
        acolytes > 0,
    ensures
        answer == shrine_blocks(priests as nat, acolytes as nat, supply as nat, limit as nat),
{
    let mut thickness: usize = 1;
    let mut used: usize = 1;
    let mut width: usize = 1;
    let mut left: usize = limit;
    while used < supply
        invariant
            acolytes > 0,
            width >= 1,
            built(
                Shrine { thickness: 1, width: 1, used: 1 },
                priests as nat,
                acolytes as nat,
                supply as nat,
                limit as nat,
            ) == built(
                Shrine { thickness: thickness as nat, width: width as nat, used: used as nat },
                priests as nat,
                acolytes as nat,
                supply as nat,
                left as nat,
            ),
        decreases left,
    {
        if left == 0 {
            return None;
        }
        let product = match thickness.checked_mul(priests) {
            Some(p) => p,
            None => {
                return None;
            },
        };
        thickness = product % acolytes;
        width = match width.checked_add(2) {
            Some(w) => w,
            None => {
                return None;
            },
        };
        let layer = match width.checked_mul(thickness) {
            Some(l) => l,
            None => {
                return None;
            },
        };
        used = match used.checked_add(layer) {
            Some(u) => u,
            None => {
                return None;
            },
        };
        left -= 1;
    }
    (used - supply).checked_mul(width)
}

/// The heights of the columns of a temple from the middle outwards, after
/// a layer of the given thickness was put under it: every column is
/// higher by the thickness, and a new column of that height stands outside.
pub open spec fn raised(columns: Seq<nat>, thickness: nat) -> Seq<nat> {
    Seq::new(columns.len() as nat, |i: int| columns[i] + thickness).push(thickness)
}

/// The sum of the heights of the columns from `from` up to `upto`.
pub open spec fn heights(columns: Seq<nat>, from: int, upto: int) -> nat
    decreases upto - from,
{
    if upto <= from {
        0
    } else {
        heights(columns, from, upto - 1) + columns[upto - 1]
    }
}

/// The blocks taken out of the columns from `from` up to `upto`: of
/// each, what the width times the priests times its height leaves on
/// division by the acolytes.
pub open spec fn hollow(columns: Seq<nat>, width: nat, priests: nat, acolytes: nat, from: int, upto: int) -> nat
    decreases upto - from,
{
    if upto <= from {
        0
    } else {
        hollow(columns, width, priests, acolytes, from, upto - 1) + (width * priests
            * columns[upto - 1]) % acolytes
    }
}

/// The blocks that a temple with these columns needs: the middle column
/// once and the others twice, less what is taken out of every column but
/// the outermost on both sides.
pub open spec fn blocks_needed(columns: Seq<nat>, priests: nat, acolytes: nat) -> int {
    let width = (2 * columns.len() - 1) as nat;
    let all = columns[0] + 2 * heights(columns, 1, columns.len() as int);
    let removed = hollow(columns, width, priests, acolytes, 0, 1) + 2 * hollow(
        columns,
        width,
        priests,
        acolytes,
        1,
        columns.len() - 1,
    );
    all - removed
}

/// Every number on the way to the blocks that a temple needs fits the
/// machine word, and no more is taken out of the temple than it has.
pub open spec fn can_tell(columns: Seq<nat>, priests: nat, acolytes: nat) -> bool {
    let n = columns.len();
    let width = (2 * n - 1) as nat;
    &&& 2 * n <= usize::MAX
    &&& width * priests <= usize::MAX
    &&& heights(columns, 1, n as int) <= usize::MAX
    &&& 2 * heights(columns, 1, n as int) + columns[0] <= usize::MAX
    &&& forall|k: int|
        0 <= k < n && (k == 0 || k < n - 1) ==> width * priests * #[trigger] columns[k] <= usize::MAX
    &&& hollow(columns, width, priests, acolytes, 1, n - 1) <= usize::MAX
    &&& 2 * hollow(columns, width, priests, acolytes, 1, n - 1) + hollow(
        columns,
        width,
        priests,
        acolytes,
        0,
        1,
    ) <= usize::MAX
    &&& blocks_needed(columns, priests, acolytes) >= 0
}

/// The blocks that a temple with these columns needs, where they can
/// be told.
pub open spec fn needed_word(columns: Seq<nat>, priests: nat, acolytes: nat) -> Option<usize> {
    if can_tell(columns, priests, acolytes) {
        Some(blocks_needed(columns, priests, acolytes) as usize)
    } else {
        None
    }
}

/// The sum of the heights grows with the columns counted.
pub proof fn lemma_heights_grow(columns: Seq<nat>, from: int, a: int, b: int)
    requires
        a <= b,
    ensures
        heights(columns, from, a) <= heights(columns, from, b),
    decreases b - a,
{
    if a < b {
        lemma_heights_grow(columns, from, a, b - 1);
    }
}

/// The blocks taken out grow with the columns counted.
pub proof fn lemma_hollow_grows(
    columns: Seq<nat>,
    width: nat,
    priests: nat,
    acolytes: nat,
    from: int,
    a: int,
    b: int,
)
    requires
        a <= b,
        acolytes > 0,
    ensures
        hollow(columns, width, priests, acolytes, from, a) <= hollow(
            columns,
            width,
            priests,
            acolytes,
            from,
            b,
        ),
    decreases b - a,
{
    if a < b {
        lemma_hollow_grows(columns, width, priests, acolytes, from, a, b - 1);
    }
}

/// The thickness of the layer under a layer of thickness `thickness`.
pub open spec fn next_thickness(thickness: nat, priests: nat, acolytes: nat) -> nat {
    (thickness * priests) % acolytes + acolytes
}

/// A layer can be put under the columns below a layer of thickness
/// `thickness`: no number on the way leaves the machine word.
pub open spec fn can_raise(columns: Seq<nat>, thickness: nat, priests: nat, acolytes: nat) -> bool {
    &&& thickness * priests <= usize::MAX
    &&& next_thickness(thickness, priests, acolytes) <= usize::MAX
    &&& forall|j: int|
        0 <= j < columns.len() ==> #[trigger] columns[j] + next_thickness(
            thickness,
            priests,
            acolytes,
        ) <= usize::MAX
}

/// The blocks needed by the first temple that needs at least `supply`,
/// when layers keep being put under a temple with these columns, at
/// most `fuel` of them; `None` when the layers do not suffice, when a
/// number leaves the machine word, or when more is taken out of a
/// temple than it has.
pub open spec fn grown(
    columns: Seq<nat>,
    thickness: nat,
    needed: int,
    priests: nat,
    acolytes: nat,
    supply: nat,
    fuel: nat,
) -> Option<int>
    decreases fuel,
{
    if needed >= supply {
        Some(needed)
    } else if fuel == 0 || !can_raise(columns, thickness, priests, acolytes) {
        None
    } else {
        let t = next_thickness(thickness, priests, acolytes);
        let taller = raised(columns, t);
        match needed_word(taller, priests, acolytes) {
            Some(n) => grown(taller, t, n as int, priests, acolytes, supply, (fuel - 1) as nat),
            None => None,
        }
    }
}

/// The blocks to buy for a temple that begins with one block: what the
/// first temple that needs at least `supply` blocks needs beyond them.
pub open spec fn temple_blocks(priests: nat, acolytes: nat, supply: nat, limit: nat) -> Option<
    usize,
> {
    match grown(seq![1nat], 1, 1, priests, acolytes, supply, limit) {
        Some(needed) => Some((needed - supply) as usize),
        None => None,
    }
}

/// The heights as numbers without bound.
pub open spec fn heights_view(columns: Seq<usize>) -> Seq<nat> {
    Seq::new(columns.len(), |i: int| columns[i] as nat)
}

/// The blocks that a temple with these columns needs; `None` when a
/// number leaves the machine word or more is taken out than there is.
pub fn needed_for(columns: &Vec<usize>, priests: usize, acolytes: usize) -> (needed: Option<usize>)
    requires
        acolytes > 0,
        columns@.len() >= 1,
    ensures
        needed == needed_word(heights_view(columns@), priests as nat, acolytes as nat),
{
    let ghost view = heights_view(columns@);
    let ghost p = priests as nat;
    let ghost a = acolytes as nat;
    let n = columns.len();
    let doubled = match n.checked_mul(2) {
        Some(d) => d,
        None => {
            return None;
        },
    };
    let base_width = doubled - 1;
    let ghost w = base_width as nat;
    let factor = match base_width.checked_mul(priests) {
        Some(f) => f,
        None => {
            return None;
        },
    };
    let mut outer: usize = 0;
    let mut i: usize = 1;
    while i < n
        invariant
            1 <= i <= n,
            n == columns@.len(),
            view == heights_view(columns@),
            outer == heights(view, 1, i as int),
        decreases n - i,
    {
        outer = match outer.checked_add(columns[i]) {
            Some(o) => o,
            None => {
                proof {
                    lemma_heights_grow(view, 1, i + 1, n as int);
                }
                return None;
            },
        };
        i += 1;
    }
    let all = match outer.checked_mul(2) {
        Some(twice) => match twice.checked_add(columns[0]) {
            Some(a) => a,
            None => {
                return None;
            },
        },
        None => {
            return None;
        },
    };
    let middle = match factor.checked_mul(columns[0]) {
        Some(m) => m % acolytes,
        None => {
            assert(w * p * view[0] > usize::MAX);
            return None;
        },
    };
    assert(middle == hollow(view, w, p, a, 0, 1)) by {
        assert(hollow(view, w, p, a, 0, 0) == 0);
    }
    let last = n - 1;
    let mut inner: usize = 0;
    let mut k: usize = 1;
    while k < last
        invariant
            1 <= k,
            k <= last || last == 0,
            last == 0 ==> k == 1,
            last == n - 1,
            n == columns@.len(),
            view == heights_view(columns@),
            factor == base_width * priests,
            w == base_width,
            w == 2 * n - 1,
            p == priests,
            a == acolytes,
            acolytes > 0,
            w * p * view[0] <= usize::MAX,
            forall|j: int| 1 <= j < k ==> w * p * #[trigger] view[j] <= usize::MAX,
            inner == hollow(view, w, p, a, 1, k as int),
        decreases last - k,
    {
        let out = match factor.checked_mul(columns[k]) {
            Some(m) => m % acolytes,
            None => {
                assert(w * p * view[k as int] > usize::MAX);
                return None;
            },
        };
        inner = match inner.checked_add(out) {
            Some(s) => s,
            None => {
                proof {
                    lemma_hollow_grows(view, w, p, a, 1, k + 1, n - 1);
                }
                return None;
            },
        };
        k += 1;
    }
    assert(inner == hollow(view, w, p, a, 1, n - 1)) by {
        assert(hollow(view, w, p, a, 1, 0) == 0);
        assert(hollow(view, w, p, a, 1, 1) == 0);
    }
    let removed = match inner.checked_mul(2) {
        Some(twice) => match twice.checked_add(middle) {
            Some(r) => r,
            None => {
                return None;
            },
        },
        None => {
            return None;
        },
    };
    assert(all - removed == blocks_needed(view, p, a));
    assert(forall|j: int|
        0 <= j < n && (j == 0 || j < n - 1) ==> w * p * #[trigger] view[j] <= usize::MAX);
    all.checked_sub(removed)
}

/// The blocks that are missing for the first temple that needs at least
/// `supply` blocks, when layers are put under a temple of one block.
/// `None` when `limit` layers do not suffice, a number leaves the machine
/// word, or more is taken out of a temple than there is.
pub fn temple_blocks_to_buy(priests: usize, acolytes: usize, supply: usize, limit: usize) -> (answer:
    Option<usize>)
    requires
        acolytes > 0,
    ensures
        answer == temple_blocks(priests as nat, acolytes as nat, supply as nat, limit as nat),
{
    let mut columns: Vec<usize> = Vec::new();
    columns.push(1);
    assert(heights_view(columns@) =~= seq![1nat]);
    let mut thickness: usize = 1;
    let mut needed: usize = 1;
    let mut left: usize = limit;
    while needed < supply
        invariant
            acolytes > 0,
            columns@.len() >= 1,
            grown(
                seq![1nat],
                1,
                1,
                priests as nat,
                acolytes as nat,
                supply as nat,
                limit as nat,
            ) == grown(
                heights_view(columns@),
                thickness as nat,
                needed as int,
                priests as nat,
                acolytes as nat,
                supply as nat,
                left as nat,
            ),
        decreases left,
    {
        if left == 0 {
            return None;
        }
        let ghost before = heights_view(columns@);
        let ghost above = thickness as nat;
        let ghost so_far = needed as int;
        let ghost whole = grown(
            seq![1nat],
            1,
            1,
            priests as nat,
            acolytes as nat,
            supply as nat,
            limit as nat,
        );
        let product = match thickness.checked_mul(priests) {
            Some(p) => p,
            None => {
                assert(!can_raise(before, above, priests as nat, acolytes as nat));
                return None;
            },
        };
        thickness = match (product % acolytes).checked_add(acolytes) {
            Some(t) => t,
            None => {
                assert(!can_raise(before, above, priests as nat, acolytes as nat));
                return None;
            },
        };
        assert(thickness == next_thickness(above, priests as nat, acolytes as nat));
        let mut i: usize = 0;
        while i < columns.len()
            invariant
                0 <= i <= columns.len(),
                columns@.len() == before.len(),
                left > 0,
                so_far < supply,
                above * priests <= usize::MAX,
                thickness == next_thickness(above, priests as nat, acolytes as nat),
                whole == grown(
                    seq![1nat],
                    1,
                    1,
                    priests as nat,
                    acolytes as nat,
                    supply as nat,
                    limit as nat,
                ),
                whole == grown(
                    before,
                    above,
                    so_far,
                    priests as nat,
                    acolytes as nat,
                    supply as nat,
                    left as nat,
                ),
                forall|j: int| 0 <= j < i ==> columns@[j] == before[j] + thickness,
                forall|j: int| i <= j < columns@.len() ==> columns@[j] == before[j],
            decreases columns.len() - i,
        {
            let higher = match columns[i].checked_add(thickness) {
                Some(h) => h,
                None => {
                    proof {
                        assert(before[i as int] + thickness > usize::MAX);
                        assert(!can_raise(before, above, priests as nat, acolytes as nat));
                    }
                    return None;
                },
            };
            columns.set(i, higher);
            i += 1;
        }
        proof {
            assert forall|j: int| 0 <= j < before.len() implies #[trigger] before[j]
                + next_thickness(above, priests as nat, acolytes as nat) <= usize::MAX by {
                assert(columns@[j] == before[j] + thickness);
            }
            assert(can_raise(before, above, priests as nat, acolytes as nat));
        }
        columns.push(thickness);
        assert(heights_view(columns@) =~= raised(before, thickness as nat));
        needed = match needed_for(&columns, priests, acolytes) {
            Some(n) => n,
            None => {
                return None;
            },
        };
        left -= 1;
    }
    Some(needed - supply)
}

} // verus!
