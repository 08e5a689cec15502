//! Walls built by spells: every number of a spell puts a block on each
//! column that the number divides.

use vstd::prelude::*;

verus! {

/// The blocks that the spell puts on a wall of `wall_length` columns.
pub open spec fn blocks(wall_length: nat, spell: Seq<usize>) -> nat
    decreases spell.len(),
{
    if spell.len() == 0 {
        0
    } else {
        blocks(wall_length, spell.drop_last()) + (if spell.last() == 0 {
            0
        } else {
            wall_length / (spell.last() as nat)
        })
    }
}

/// A longer spell puts no fewer blocks.
pub proof fn lemma_blocks_prefix(wall_length: nat, spell: Seq<usize>, n: int)
    requires
        0 <= n <= spell.len(),
    ensures
        blocks(wall_length, spell.take(n)) <= blocks(wall_length, spell),
    decreases spell.len(),
{
    if n < spell.len() {
        lemma_blocks_prefix(wall_length, spell.drop_last(), n);
        assert(spell.drop_last().take(n) =~= spell.take(n));
    } else {
        assert(spell.take(n) =~= spell);
    }
}

/// The number of blocks that the spell puts on a wall of `wall_length` columns.
pub fn count_blocks(wall_length: usize, spell_numbers: &[usize]) -> (total: usize)
    requires
        forall|k: int| 0 <= k < spell_numbers@.len() ==> spell_numbers@[k] > 0,
        blocks(wall_length as nat, spell_numbers@) <= usize::MAX,
    ensures
        total == blocks(wall_length as nat, spell_numbers@),
{
    let mut total: usize = 0;
    let mut i: usize = 0;
    while i < spell_numbers.len()
        invariant
            0 <= i <= spell_numbers.len(),
            forall|k: int| 0 <= k < spell_numbers@.len() ==> spell_numbers@[k] > 0,
            blocks(wall_length as nat, spell_numbers@) <= usize::MAX,
            total == blocks(wall_length as nat, spell_numbers@.take(i as int)),
        decreases spell_numbers.len() - i,
    {
        proof {
            let next = spell_numbers@.take(i + 1);
            assert(next.drop_last() =~= spell_numbers@.take(i as int));
            assert(next.last() == spell_numbers@[i as int]);
            lemma_blocks_prefix(wall_length as nat, spell_numbers@, i + 1);
        }
        total = total + wall_length / spell_numbers[i];
        i += 1;
    }
    assert(spell_numbers@.take(i as int) =~= spell_numbers@);
    total
}

/// The wall after one block was taken from every column that
/// `candidate` divides.
pub open spec fn stripped(wall: Seq<usize>, candidate: int) -> Seq<usize> {
    Seq::new(
        wall.len(),
        |i: int|
            if candidate > 0 && (i + 1) % candidate == 0 {
                (wall[i] - 1) as usize
            } else {
                wall[i]
            },
    )
}

/// Every column that `candidate` divides has a block to give.
pub open spec fn strippable(wall: Seq<usize>, candidate: int) -> bool {
    forall|i: int|
        0 <= i < wall.len() && candidate > 0 && (i + 1) % candidate == 0 ==> #[trigger] wall[i]
            > 0
}

/// The numbers of the spell that built the wall, from `candidate` on: a
/// number belongs to the spell when its own column still has a block once
/// the smaller numbers have taken theirs. `None` when a number of the
/// spell would have to take a block from an empty column.
pub open spec fn spell_from(wall: Seq<usize>, candidate: int) -> Option<Seq<usize>>
    decreases wall.len() - candidate + 1,
{
    if candidate < 1 || candidate > wall.len() {
        Some(Seq::empty())
    } else if wall[candidate - 1] > 0 {
        if strippable(wall, candidate) {
            match spell_from(stripped(wall, candidate), candidate + 1) {
                Some(rest) => Some(seq![candidate as usize] + rest),
                None => None,
            }
        } else {
            None
        }
    } else {
        spell_from(wall, candidate + 1)
    }
}

/// The wall after one block was taken from every column up to `upto`
/// that `candidate` divides.
pub open spec fn stripped_upto(wall: Seq<usize>, candidate: int, upto: int) -> Seq<usize> {
    Seq::new(
        wall.len(),
        |i: int|
            if candidate > 0 && (i + 1) % candidate == 0 && i + 1 <= upto {
                (wall[i] - 1) as usize
            } else {
                wall[i]
            },
    )
}

/// Between a multiple of `c` and the next there is no multiple.
pub proof fn lemma_next_multiple(j: int, c: int)
    requires
        c > 0,
        j >= 0,
        j % c == 0,
    ensures
        (j + c) % c == 0,
        forall|i: int| j < i < j + c ==> #[trigger] (i % c) != 0,
{
    vstd::arithmetic::div_mod::lemma_fundamental_div_mod(j, c);
    let q = j / c;
    assert((q + 1) * c == c * q + c) by (nonlinear_arith);
    assert(q * c == c * q) by (nonlinear_arith);
    vstd::arithmetic::div_mod::lemma_fundamental_div_mod_converse(j + c, c, q + 1, 0);
    assert forall|i: int| j < i < j + c implies #[trigger] (i % c) != 0 by {
        vstd::arithmetic::div_mod::lemma_fundamental_div_mod_converse(i, c, q, i - j);
    }
}

/// The wall after every number of the spell, one after the other, has
/// taken one block from every column that it divides.
pub open spec fn stripped_by(wall: Seq<usize>, spell: Seq<usize>) -> Seq<usize>
    decreases spell.len(),
{
    if spell.len() == 0 {
        wall
    } else {
        stripped(stripped_by(wall, spell.drop_last()), spell.last() as int)
    }
}

/// Column `m`, counted from 1, is the first column that `candidate`
/// divides and that has no block to give.
pub open spec fn is_first_gap(wall: Seq<usize>, candidate: int, m: int) -> bool {
    &&& candidate > 0
    &&& 1 <= m <= wall.len()
    &&& m % candidate == 0
    &&& wall[m - 1] == 0
    &&& forall|i: int| 0 <= i < m - 1 && (i + 1) % candidate == 0 ==> #[trigger] wall[i] > 0
}

/// The first column that `candidate` divides and that has no block to give.
pub open spec fn first_gap(wall: Seq<usize>, candidate: int) -> int {
    choose|m: int| is_first_gap(wall, candidate, m)
}

/// There is one first gap at most.
pub proof fn lemma_first_gap(wall: Seq<usize>, candidate: int, m: int)
    requires
        is_first_gap(wall, candidate, m),
    ensures
        first_gap(wall, candidate) == m,
{
    let other = first_gap(wall, candidate);
    assert(is_first_gap(wall, candidate, other));
    if other < m {
        assert(wall[other - 1] > 0);
    }
    if m < other {
        assert(wall[m - 1] > 0);
    }
}

/// The wall as the search for its spell leaves it, from `candidate` on:
/// every number found has taken its blocks; a number that meets a
/// column without a block has taken the blocks of the columns before
/// that one, and the search has ended there.
pub open spec fn searched_from(wall: Seq<usize>, candidate: int) -> Seq<usize>
    decreases wall.len() - candidate + 1,
{
    if candidate < 1 || candidate > wall.len() {
        wall
    } else if wall[candidate - 1] > 0 {
        if strippable(wall, candidate) {
            searched_from(stripped(wall, candidate), candidate + 1)
        } else {
            stripped_upto(wall, candidate, first_gap(wall, candidate) - 1)
        }
    } else {
        searched_from(wall, candidate + 1)
    }
}

/// How many numbers of the spell, from place `from` on, divide `col`.
pub open spec fn hits(spell: Seq<usize>, from: int, col: int) -> nat
    decreases spell.len() - from,
{
    if from < 0 || from >= spell.len() {
        0
    } else {
        (if spell[from] > 0 && col % (spell[from] as int) == 0 {
            1nat
        } else {
            0nat
        }) + hits(spell, from + 1, col)
    }
}

/// The numbers of the spell rise and lie between 1 and `len`.
pub open spec fn rising(spell: Seq<usize>, len: int) -> bool {
    &&& forall|k: int| 0 <= k < spell.len() ==> 1 <= #[trigger] spell[k] <= len
    &&& forall|i: int, j: int| 0 <= i < j < spell.len() ==> spell[i] < spell[j]
}

/// The numbers of the spell from place `from` on, `wall` is what they
/// build: every column holds a block for each number that divides it.
pub open spec fn built_from(wall: Seq<usize>, spell: Seq<usize>, from: int) -> bool {
    forall|i: int| 0 <= i < wall.len() ==> #[trigger] wall[i] == hits(spell, from, i + 1)
}

/// Numbers greater than a column do not divide it.
proof fn lemma_no_hits(spell: Seq<usize>, from: int, col: int)
    requires
        0 <= from,
        col >= 1,
        forall|j: int| from <= j < spell.len() ==> #[trigger] spell[j] > col,
    ensures
        hits(spell, from, col) == 0,
    decreases spell.len() - from,
{
    if from < spell.len() {
        vstd::arithmetic::div_mod::lemma_small_mod(col as nat, spell[from] as nat);
        lemma_no_hits(spell, from + 1, col);
    }
}

/// The search finds the rest of a spell again on what that rest built,
/// and leaves no block.
proof fn lemma_found_from(wall: Seq<usize>, spell: Seq<usize>, k: int, c: int)
    requires
        rising(spell, wall.len() as int),
        0 <= k <= spell.len(),
        1 <= c <= wall.len() + 1,
        k < spell.len() ==> c <= spell[k],
        built_from(wall, spell, k),
    ensures
        spell_from(wall, c) == Some(spell.skip(k)),
        searched_from(wall, c).len() == wall.len(),
        forall|i: int| 0 <= i < wall.len() ==> searched_from(wall, c)[i] == 0,
    decreases wall.len() - c + 1,
{
    if c > wall.len() {
        assert(k == spell.len()) by {
            if k < spell.len() {
                assert(spell[k] <= wall.len());
            }
        }
        assert(spell.skip(k) =~= Seq::<usize>::empty());
        assert forall|i: int| 0 <= i < wall.len() implies wall[i] == 0 by {
            assert(wall[i] == hits(spell, k, i + 1));
        }
    } else if k < spell.len() && spell[k] == c {
        assert(wall[c - 1] == hits(spell, k, (c - 1) + 1));
        vstd::arithmetic::div_mod::lemma_mod_self_0(c);
        assert forall|i: int| 0 <= i < wall.len() && (i + 1) % c == 0 implies #[trigger] wall[i]
            > 0 by {
            assert(wall[i] == hits(spell, k, i + 1));
        }
        assert(strippable(wall, c));
        let next = stripped(wall, c);
        assert forall|i: int| 0 <= i < next.len() implies #[trigger] next[i] == hits(
            spell,
            k + 1,
            i + 1,
        ) by {
            assert(wall[i] == hits(spell, k, i + 1));
        }
        lemma_found_from(next, spell, k + 1, c + 1);
        assert(seq![c as usize] + spell.skip(k + 1) =~= spell.skip(k));
    } else {
        assert(hits(spell, k, c) == 0) by {
            assert forall|j: int| k <= j < spell.len() implies #[trigger] spell[j] > c by {
                if j > k {
                    assert(spell[k] < spell[j]);
                }
            }
            lemma_no_hits(spell, k, c);
        }
        assert(wall[c - 1] == hits(spell, k, (c - 1) + 1));
        lemma_found_from(wall, spell, k, c + 1);
    }
}

/// A wall that a rising spell built gives that spell back, and the
/// search for it takes the wall down to the last block.
pub proof fn lemma_spell_found_again(wall: Seq<usize>, spell: Seq<usize>)
    requires
        rising(spell, wall.len() as int),
        built_from(wall, spell, 0),
    ensures
        spell_from(wall, 1) == Some(spell),
        searched_from(wall, 1).len() == wall.len(),
        forall|i: int| 0 <= i < wall.len() ==> searched_from(wall, 1)[i] == 0,
{
    lemma_found_from(wall, spell, 0, 1);
    assert(spell.skip(0) =~= spell);
}

/// Finds the spell that built the wall and takes the wall down as it
/// goes: every number found takes one block from every column that it
/// divides. `None` when no spell built the wall: a number found met a
/// column without a block, and the wall is left as it was at that
/// point.
pub fn reconstruct_spell(wall: &mut Vec<usize>) -> (spell: Option<Vec<usize>>)
    ensures
        final(wall)@ == searched_from(old(wall)@, 1),
        match spell {
            Some(v) => spell_from(old(wall)@, 1) == Some(v@) && final(wall)@ == stripped_by(
                old(wall)@,
                v@,
            ),
            None => spell_from(old(wall)@, 1).is_none(),
        },
{
    let ghost given = wall@;
    let len = wall.len();
    let mut spell_nums: Vec<usize> = Vec::new();
    let mut index: usize = 0;
    proof {
        match spell_from(given, 1) {
            Some(rest) => {
                assert(spell_nums@ + rest =~= rest);
            },
            None => {},
        }
    }
    while index < len
        invariant
            0 <= index <= len,
            wall@.len() == len,
            given == old(wall)@,
            len == given.len(),
            wall@ == stripped_by(given, spell_nums@),
            searched_from(given, 1) == searched_from(wall@, index + 1),
            match spell_from(wall@, index + 1) {
                Some(rest) => spell_from(given, 1) == Some(spell_nums@ + rest),
                None => spell_from(given, 1).is_none(),
            },
        decreases len - index,
    {
        let candidate = index + 1;
        if wall[index] > 0 {
            let ghost before = wall@;
            let ghost nums_before = spell_nums@;
            let ghost mut done: int = 0;
            let mut at: usize = index;
            let mut more = true;
            proof {
                vstd::arithmetic::div_mod::lemma_small_mod(0, candidate as nat);
                assert(wall@ =~= stripped_upto(before, candidate as int, 0));
            }
            while more
                invariant
                    0 <= index < len,
                    candidate == index + 1,
                    index <= at < len,
                    done >= 0,
                    done % (candidate as int) == 0,
                    more ==> at + 1 == done + candidate,
                    wall@.len() == len,
                    before.len() == len,
                    given == old(wall)@,
                    before == stripped_by(given, nums_before),
                    searched_from(given, 1) == searched_from(before, candidate as int),
                    more ==> wall@ == stripped_upto(before, candidate as int, done),
                    more ==> forall|i: int|
                        0 <= i < done && (i + 1) % (candidate as int) == 0 ==> #[trigger] before[i]
                            > 0,
                    !more ==> wall@ == stripped(before, candidate as int) && strippable(
                        before,
                        candidate as int,
                    ),
                    before[index as int] > 0,
                    match spell_from(before, candidate as int) {
                        Some(rest) => spell_from(given, 1) == Some(nums_before + rest),
                        None => spell_from(given, 1).is_none(),
                    },
                decreases len - at + (if more {
                    1int
                } else {
                    0int
                }),
            {
                proof {
                    lemma_next_multiple(done, candidate as int);
                }
                if wall[at] == 0 {
                    proof {
                        assert(before[at as int] == 0);
                        assert(!strippable(before, candidate as int));
                        assert(is_first_gap(before, candidate as int, at + 1)) by {
                            assert forall|i: int|
                                0 <= i < at && (i + 1) % (candidate as int) == 0 implies #[trigger] before[i]
                                > 0 by {
                                if i >= done {
                                    assert(done < i + 1 < done + candidate);
                                }
                            }
                        }
                        lemma_first_gap(before, candidate as int, at + 1);
                        assert(wall@ =~= stripped_upto(before, candidate as int, at as int)) by {
                            assert forall|i: int| 0 <= i < len implies wall@[i] == stripped_upto(
                                before,
                                candidate as int,
                                at as int,
                            )[i] by {
                                if done < i + 1 <= at {
                                    assert(done < i + 1 < done + candidate);
                                }
                            }
                        }
                    }
                    return None;
                }
                let lowered = wall[at] - 1;
                wall.set(at, lowered);
                proof {
                    done = done + candidate;
                    lemma_next_multiple(done, candidate as int);
                }
                assert(wall@ =~= stripped_upto(before, candidate as int, done));
                if len - 1 - at < candidate {
                    more = false;
                    assert(wall@ =~= stripped(before, candidate as int));
                    assert(strippable(before, candidate as int));
                } else {
                    at += candidate;
                }
            }
            spell_nums.push(candidate);
            proof {
                assert(spell_nums@.drop_last() =~= nums_before);
                assert(spell_nums@.last() == candidate);
                match spell_from(wall@, candidate + 1) {
                    Some(rest) => {
                        assert(nums_before + (seq![candidate] + rest) =~= spell_nums@ + rest);
                    },
                    None => {},
                }
            }
        }
        index += 1;
    }
    assert(spell_nums@ + Seq::<usize>::empty() =~= spell_nums@);
    Some(spell_nums)
}

/// The wall length grows, the blocks do not shrink.
pub proof fn lemma_blocks_grow(shorter: nat, longer: nat, spell: Seq<usize>)
    requires
        shorter <= longer,
    ensures
        blocks(shorter, spell) <= blocks(longer, spell),
    decreases spell.len(),
{
    if spell.len() > 0 {
        lemma_blocks_grow(shorter, longer, spell.drop_last());
        if spell.last() > 0 {
            vstd::arithmetic::div_mod::lemma_div_is_ordered(
                shorter as int,
                longer as int,
                spell.last() as int,
            );
        }
    }
}

/// Whether the spell puts at most `limit` blocks on a wall of
/// `wall_length` columns.
pub fn blocks_within(wall_length: usize, spell_numbers: &Vec<usize>, limit: usize) -> (fits: bool)
    requires
        forall|k: int| 0 <= k < spell_numbers@.len() ==> spell_numbers@[k] > 0,
    ensures
        fits == (blocks(wall_length as nat, spell_numbers@) <= limit),
{
    let mut total: usize = 0;
    let mut i: usize = 0;
    while i < spell_numbers.len()
        invariant
            0 <= i <= spell_numbers.len(),
            forall|k: int| 0 <= k < spell_numbers@.len() ==> spell_numbers@[k] > 0,
            total == blocks(wall_length as nat, spell_numbers@.take(i as int)),
            total <= limit,
        decreases spell_numbers.len() - i,
    {
        proof {
            let next = spell_numbers@.take(i + 1);
            assert(next.drop_last() =~= spell_numbers@.take(i as int));
            assert(next.last() == spell_numbers@[i as int]);
            lemma_blocks_prefix(wall_length as nat, spell_numbers@, i + 1);
        }
        let more = wall_length / spell_numbers[i];
        if more > limit - total {
            return false;
        }
        total = total + more;
        i += 1;
    }
    assert(spell_numbers@.take(i as int) =~= spell_numbers@);
    true
}

/// The longest wall, of at most `blocks_available` columns, that the
/// spell builds from `blocks_available` blocks.
pub fn longest_wall(spell_numbers: &Vec<usize>, blocks_available: usize) -> (length: usize)
    requires
        forall|k: int| 0 <= k < spell_numbers@.len() ==> spell_numbers@[k] > 0,
    ensures
        length <= blocks_available,
        blocks(length as nat, spell_numbers@) <= blocks_available,
        forall|longer: nat|
            length < longer <= blocks_available ==> #[trigger] blocks(longer, spell_numbers@)
                > blocks_available,
{
    let mut low: usize = 0;
    let mut high: usize = blocks_available;
    proof {
        lemma_blocks_nothing(spell_numbers@);
    }
    while low < high
        invariant
            0 <= low <= high <= blocks_available,
            forall|k: int| 0 <= k < spell_numbers@.len() ==> spell_numbers@[k] > 0,
            blocks(low as nat, spell_numbers@) <= blocks_available,
            forall|longer: nat|
                high < longer <= blocks_available ==> #[trigger] blocks(longer, spell_numbers@)
                    > blocks_available,
        decreases high - low,
    {
        let mid = low + (high - low) / 2 + (high - low) % 2;
        if blocks_within(mid, spell_numbers, blocks_available) {
            low = mid;
        } else {
            proof {
                assert forall|longer: nat| mid - 1 < longer <= blocks_available implies #[trigger] blocks(
                    longer,
                    spell_numbers@,
                ) > blocks_available by {
                    lemma_blocks_grow(mid as nat, longer, spell_numbers@);
                }
            }
            high = mid - 1;
        }
    }
    low
}

/// A wall without columns takes no blocks.
pub proof fn lemma_blocks_nothing(spell: Seq<usize>)
    ensures
        blocks(0, spell) == 0,
    decreases spell.len(),
{
    if spell.len() > 0 {
        lemma_blocks_nothing(spell.drop_last());
    }
}

} // verus!
