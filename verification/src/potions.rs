//! Potions for a battle: every creature needs its own, and creatures that
//! attack together need one more each for every companion.

use crate::text::chars_of;
use vstd::prelude::*;

verus! {

/// The potions that one creature needs when it comes alone.
pub open spec fn own_potions(c: char) -> nat {
    if c == 'B' {
        1
    } else if c == 'C' {
        3
    } else if c == 'D' {
        5
    } else {
        0
    }
}

/// The potions that the creatures of a group need each for itself.
pub open spec fn own_total(group: Seq<char>) -> nat
    decreases group.len(),
{
    if group.len() == 0 {
        0
    } else {
        own_total(group.drop_last()) + own_potions(group.last())
    }
}

/// How many places of the group hold a creature: every place but the
/// empty ones, marked `x`.
pub open spec fn creatures(group: Seq<char>) -> nat
    decreases group.len(),
{
    if group.len() == 0 {
        0
    } else {
        creatures(group.drop_last()) + (if group.last() != 'x' {
            1nat
        } else {
            0nat
        })
    }
}

/// The potions for one group.
pub open spec fn group_potions(group: Seq<char>) -> nat {
    own_total(group) + creatures(group) * (if creatures(group) > 0 {
        (creatures(group) - 1) as nat
    } else {
        0nat
    })
}

/// The potions for a line of creatures that attack in groups of
/// `group_size`, the last group possibly smaller.
pub open spec fn potions(enemies: Seq<char>, group_size: nat) -> nat
    decreases enemies.len(),
{
    if enemies.len() == 0 || group_size == 0 {
        0
    } else if enemies.len() <= group_size {
        group_potions(enemies)
    } else {
        group_potions(enemies.take(group_size as int)) + potions(
            enemies.skip(group_size as int),
            group_size,
        )
    }
}

/// A group never holds more creatures than places, and the potions its
/// creatures need for themselves are at most five each.
pub proof fn lemma_group_bounds(group: Seq<char>)
    ensures
        creatures(group) <= group.len(),
        own_total(group) <= 5 * group.len(),
    decreases group.len(),
{
    if group.len() > 0 {
        lemma_group_bounds(group.drop_last());
    }
}

/// The potions for one group.
pub fn potions_for_group(enemies: &Vec<char>, from: usize, to: usize) -> (total: usize)
    requires
        from <= to <= enemies.len(),
        group_potions(enemies@.subrange(from as int, to as int)) <= usize::MAX,
    ensures
        total == group_potions(enemies@.subrange(from as int, to as int)),
{
    let ghost group = enemies@.subrange(from as int, to as int);
    let mut own: usize = 0;
    let mut count: usize = 0;
    let mut i: usize = from;
    proof {
        lemma_group_bounds(group);
    }
    while i < to
        invariant
            from <= i <= to <= enemies.len(),
            group == enemies@.subrange(from as int, to as int),
            own == own_total(group.take(i - from)),
            count == creatures(group.take(i - from)),
            own <= 5 * (i - from),
            count <= i - from,
            own_total(group) <= usize::MAX,
        decreases to - i,
    {
        let c = enemies[i];
        proof {
            let next = group.take(i - from + 1);
            assert(next.drop_last() =~= group.take(i - from));
            assert(next.last() == c);
            lemma_own_prefix(group, i - from + 1);
        }
        let potion: usize = if c == 'B' {
            1
        } else if c == 'C' {
            3
        } else if c == 'D' {
            5
        } else {
            0
        };
        own = own + potion;
        if c != 'x' {
            count = count + 1;
        }
        i += 1;
    }
    assert(group.take(to - from) =~= group);
    let companions = if count > 0 {
        count - 1
    } else {
        0
    };
    assert(count * companions <= group_potions(group)) by (nonlinear_arith)
        requires
            group_potions(group) == own + count * companions,
            own >= 0,
    ;
    own + count * companions
}

/// The potions that the first creatures need for themselves are no more
/// than what all need.
pub proof fn lemma_own_prefix(group: Seq<char>, n: int)
    requires
        0 <= n <= group.len(),
    ensures
        own_total(group.take(n)) <= own_total(group),
    decreases group.len(),
{
    if n < group.len() {
        lemma_own_prefix(group.drop_last(), n);
        assert(group.drop_last().take(n) =~= group.take(n));
    } else {
        assert(group.take(n) =~= group);
    }
}

/// The potions for a line of creatures that attack in groups of
/// `group_size`.
pub fn count_potions(enemies: &str, group_size: usize) -> (total: usize)
    requires
        group_size > 0,
        potions(enemies@, group_size as nat) <= usize::MAX,
    ensures
        total == potions(enemies@, group_size as nat),
{
    let chars = chars_of(enemies);
    let mut total: usize = 0;
    let mut from: usize = 0;
    assert(chars@.skip(0) =~= chars@);
    while from < chars.len()
        invariant
            0 <= from <= chars.len(),
            group_size > 0,
            total + potions(chars@.skip(from as int), group_size as nat) == potions(
                chars@,
                group_size as nat,
            ),
            potions(chars@, group_size as nat) <= usize::MAX,
        decreases chars.len() - from,
    {
        let ghost rest = chars@.skip(from as int);
        let to = if chars.len() - from <= group_size {
            chars.len()
        } else {
            from + group_size
        };
        proof {
            if chars.len() - from <= group_size {
                assert(chars@.subrange(from as int, to as int) =~= rest);
                assert(potions(chars@.skip(to as int), group_size as nat) == 0);
            } else {
                assert(chars@.subrange(from as int, to as int) =~= rest.take(group_size as int));
                assert(chars@.skip(to as int) =~= rest.skip(group_size as int));
            }
        }
        let cost = potions_for_group(&chars, from, to);
        total = total + cost;
        from = to;
    }
    total
}

} // verus!
