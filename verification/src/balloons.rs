//! Bolts shot at balloons: a bolt of one colour flies on through
//! balloons of its colour and bursts, together with the balloon, on the
//! first balloon of another colour. The colours of the bolts come in
//! turn: red, green, blue.

use std::collections::VecDeque;
use vstd::prelude::*;

verus! {

/// The colour of bolt number `index`, counted from 0.
pub open spec fn colour(index: nat) -> char {
    if index % 3 == 0 {
        'R'
    } else if index % 3 == 1 {
        'G'
    } else {
        'B'
    }
}

/// The colour of bolt number `index`.
pub fn colour_of(index: usize) -> (c: char)
    ensures
        c == colour(index as nat),
{
    if index % 3 == 0 {
        'R'
    } else if index % 3 == 1 {
        'G'
    } else {
        'B'
    }
}

/// The bolts used on a line of balloons when bolt `index` is in the air
/// (`flying`) or has burst: a bolt in the air bursts the first balloon and
/// flies on if that has its colour; after a bolt has burst the next is shot.
pub open spec fn bolts_for_line(balloons: Seq<char>, index: nat, flying: bool) -> nat
    decreases balloons.len(), (if flying {
        0nat
    } else {
        1nat
    }),
{
    if balloons.len() == 0 {
        index + 1
    } else if !flying {
        bolts_for_line(balloons, index + 1, true)
    } else {
        bolts_for_line(balloons.drop_first(), index, balloons[0] == colour(index))
    }
}

/// The number of bolts that burst a line of balloons.
pub fn shoot_line(balloons: &Vec<char>) -> (bolts: usize)
    requires
        balloons@.len() < usize::MAX,
    ensures
        bolts == bolts_for_line(balloons@, 0, true),
{
    let mut index: usize = 0;
    let mut flying = true;
    let mut at: usize = 0;
    assert(balloons@.skip(0) =~= balloons@);
    while at < balloons.len()
        invariant
            0 <= at <= balloons.len(),
            balloons@.len() < usize::MAX,
            index <= at,
            flying || index < at,
            bolts_for_line(balloons@, 0, true) == bolts_for_line(
                balloons@.skip(at as int),
                index as nat,
                flying,
            ),
        decreases balloons.len() - at, (if flying {
            0int
        } else {
            1int
        }),
    {
        if !flying {
            index += 1;
            flying = true;
        } else {
            assert(balloons@.skip(at as int).drop_first() =~= balloons@.skip(at + 1));
            let leader = balloons[at];
            flying = leader == colour_of(index);
            at += 1;
        }
    }
    index + 1
}

/// The place of the balloon opposite the first in a ring of `len` balloons.
pub open spec fn opposite(len: int) -> int {
    if len / 2 >= 1 {
        len / 2 - 1
    } else {
        0
    }
}

/// The bolts used on a ring of balloons: every bolt bursts the first
/// balloon; if that has its colour and the ring has an even number of
/// balloons, it flies on through the middle and bursts the balloon
/// opposite too.
pub open spec fn bolts_for_ring(balloons: Seq<char>, index: nat, flying: bool) -> nat
    decreases balloons.len(), (if flying {
        0nat
    } else {
        1nat
    }),
{
    if balloons.len() == 0 {
        index + 1
    } else if !flying {
        bolts_for_ring(balloons, index + 1, true)
    } else {
        let rest = balloons.drop_first();
        if balloons[0] == colour(index) && balloons.len() % 2 == 0 {
            bolts_for_ring(rest.remove(opposite(balloons.len() as int)), index, false)
        } else {
            bolts_for_ring(rest, index, false)
        }
    }
}

/// The number of bolts that burst a ring of balloons.
pub fn shoot_ring(balloons: VecDeque<char>) -> (bolts: usize)
    requires
        balloons@.len() < usize::MAX,
    ensures
        bolts == bolts_for_ring(balloons@, 0, true),
{
    let mut ballons = balloons;
    let mut index: usize = 0;
    let mut flying = true;
    while ballons.len() > 0
        invariant
            index + ballons@.len() <= balloons@.len(),
            flying || index + ballons@.len() < balloons@.len(),
            balloons@.len() < usize::MAX,
            bolts_for_ring(balloons@, 0, true) == bolts_for_ring(ballons@, index as nat, flying),
        decreases ballons@.len(), (if flying {
            0int
        } else {
            1int
        }),
    {
        if !flying {
            index += 1;
            flying = true;
            continue ;
        }
        let ghost before = ballons@;
        let is_even_ring = ballons.len() % 2 == 0;
        let middle_index = if ballons.len() / 2 >= 1 {
            ballons.len() / 2 - 1
        } else {
            0
        };
        let leader = ballons.pop_front().unwrap();
        assert(ballons@ =~= before.drop_first());
        if leader == colour_of(index) && is_even_ring {
            let _ = ballons.remove(middle_index);
        }
        flying = false;
    }
    index + 1
}

/// The bolts used on a ring of balloons kept as two halves, the near and
/// the far: every bolt bursts the first balloon of the near half. While
/// the halves are as long as each other the bolt meets the first balloon
/// of the far half too: it bursts it if the first balloon had its colour,
/// and else that balloon moves over to the near half.
pub open spec fn bolts_for_halves(near: Seq<char>, far: Seq<char>, index: nat, flying: bool) -> nat
    decreases near.len() + far.len(), (if flying {
        0nat
    } else {
        1nat
    }),
{
    if near.len() == 0 {
        index + 1
    } else if !flying {
        bolts_for_halves(near, far, index + 1, true)
    } else {
        let rest = near.drop_first();
        if near.len() == far.len() {
            if near[0] == colour(index) {
                bolts_for_halves(rest, far.drop_first(), index, false)
            } else {
                bolts_for_halves(rest.push(far[0]), far.drop_first(), index, false)
            }
        } else {
            bolts_for_halves(rest, far, index, false)
        }
    }
}

/// The number of bolts that burst a ring of balloons kept as two halves.
pub fn shoot_halves(near: VecDeque<char>, far: VecDeque<char>) -> (bolts: usize)
    requires
        near@.len() + far@.len() < usize::MAX,
    ensures
        bolts == bolts_for_halves(near@, far@, 0, true),
{
    let mut front_half = near;
    let mut back_half = far;
    let mut index: usize = 0;
    let mut flying = true;
    while front_half.len() > 0
        invariant
            index + front_half@.len() + back_half@.len() <= near@.len() + far@.len(),
            flying || index + front_half@.len() + back_half@.len() < near@.len() + far@.len(),
            near@.len() + far@.len() < usize::MAX,
            bolts_for_halves(near@, far@, 0, true) == bolts_for_halves(
                front_half@,
                back_half@,
                index as nat,
                flying,
            ),
        decreases front_half@.len() + back_half@.len(), (if flying {
            0int
        } else {
            1int
        }),
    {
        if !flying {
            index += 1;
            flying = true;
            continue ;
        }
        let ghost before = front_half@;
        let ghost behind = back_half@;
        let is_even_length_ring = front_half.len() == back_half.len();
        let leader = front_half.pop_front().unwrap();
        assert(front_half@ =~= before.drop_first());
        if is_even_length_ring {
            let middle = back_half.pop_front().unwrap();
            assert(back_half@ =~= behind.drop_first());
            if leader != colour_of(index) {
                front_half.push_back(middle);
            }
        }
        flying = false;
    }
    index + 1
}

} // verus!
