//! A circle of names and a list of steps to the left and to the right:
//! whose name the steps end at.

use crate::text::{
    chars_of, cut_at_gap, integer, parse_integer, pieces_view, rem_euclid, slice_of, split,
    split_at_each, split_at_gap, trim, trimmed,
};
use vstd::prelude::*;

verus! {

/// One instruction: so many names on, to the left when negative.
#[derive(Clone, Copy, Debug, PartialEq, Eq, Structural)]
pub struct Step {
    pub delta: i32,
}

/// The step that a text such as `L5` spells.
pub open spec fn step_of(piece: Seq<char>) -> Option<Step> {
    if piece.len() == 0 || !(piece[0] == 'L' || piece[0] == 'R') {
        None
    } else {
        match integer(piece.drop_first()) {
            Some(count) => {
                let delta = if piece[0] == 'L' {
                    -count
                } else {
                    count
                };
                if i32::MIN <= count <= i32::MAX && i32::MIN <= delta <= i32::MAX {
                    Some(Step { delta: delta as i32 })
                } else {
                    None
                }
            },
            None => None,
        }
    }
}

/// The steps that a list such as `L5,R3` spells.
pub open spec fn steps_of(list: Seq<char>) -> Option<Seq<Step>> {
    let pieces = split(list, ',');
    if forall|k: int| 0 <= k < pieces.len() ==> step_of(#[trigger] pieces[k]) is Some {
        Some(Seq::new(pieces.len(), |k: int| step_of(pieces[k]).unwrap()))
    } else {
        None
    }
}

/// What a text spells: names separated by commas, an empty line, and steps.
pub open spec fn whispers_of(text: Seq<char>) -> Option<(Seq<Seq<char>>, Seq<Step>)> {
    match split_at_gap(trim(text)) {
        Some((names, moves)) => match steps_of(moves) {
            Some(steps) => Some((split(names, ','), steps)),
            None => None,
        },
        None => None,
    }
}

/// Reads one step.
pub fn parse_step(piece: &Vec<char>) -> (step: Option<Step>)
    ensures
        step == step_of(piece@),
{
    if piece.len() == 0 {
        return None;
    }
    let left = piece[0] == 'L';
    if !left && piece[0] != 'R' {
        return None;
    }
    let rest = slice_of(piece, 1, piece.len());
    assert(rest@ =~= piece@.drop_first());
    match parse_integer(&rest) {
        Some(count) => {
            if count < -0x8000_0000 || count > 0x7fff_ffff {
                return None;
            }
            let delta = if left {
                -count
            } else {
                count
            };
            if delta < -0x8000_0000 || delta > 0x7fff_ffff {
                return None;
            }
            Some(Step { delta: delta as i32 })
        },
        None => None,
    }
}

/// Reads the names and the steps of a text. The text has to spell
/// both; `read` tells whether it does.
pub fn parse(s: &str) -> (both: (Vec<Vec<char>>, Vec<Step>))
    requires
        whispers_of(s@) is Some,
    ensures
        whispers_of(s@) == Some((pieces_view(both.0@), both.1@)),
{
    read(s).unwrap()
}

/// Reads the names and the steps of a text.
pub fn read(s: &str) -> (read: Option<(Vec<Vec<char>>, Vec<Step>)>)
    ensures
        match read {
            Some((names, steps)) => whispers_of(s@) == Some((pieces_view(names@), steps@)),
            None => whispers_of(s@).is_none(),
        },
{
    let chars = chars_of(s);
    let body = trimmed(&chars);
    let (names_text, moves_text) = match cut_at_gap(&body) {
        Some(parts) => parts,
        None => {
            return None;
        },
    };
    let names = split_at_each(&names_text, ',');
    let pieces = split_at_each(&moves_text, ',');
    let ghost views = pieces_view(pieces@);
    let mut steps: Vec<Step> = Vec::new();
    let mut k: usize = 0;
    while k < pieces.len()
        invariant
            0 <= k <= pieces.len(),
            views == pieces_view(pieces@),
            views == split(moves_text@, ','),
            split_at_gap(trim(s@)) == Some((names_text@, moves_text@)),
            steps@.len() == k,
            forall|j: int| 0 <= j < k ==> step_of(#[trigger] views[j]) == Some(steps@[j]),
        decreases pieces.len() - k,
    {
        match parse_step(&pieces[k]) {
            Some(step) => {
                steps.push(step);
            },
            None => {
                assert(step_of(views[k as int]).is_none());
                return None;
            },
        }
        k += 1;
    }
    assert(steps@ =~= Seq::new(views.len(), |k: int| step_of(views[k]).unwrap()));
    Some((names, steps))
}

/// A place kept between the first name and the last.
pub open spec fn clamped(at: int, len: int) -> int {
    if at < 0 {
        0
    } else if at > len - 1 {
        len - 1
    } else {
        at
    }
}

/// The place after the first `upto` steps along a row of `len` names,
/// where a step that would leave the row stops at its end.
pub open spec fn walked(len: int, steps: Seq<Step>, upto: nat) -> int
    decreases upto,
{
    if upto == 0 {
        0
    } else {
        clamped(walked(len, steps, (upto - 1) as nat) + steps[upto - 1].delta, len)
    }
}

/// The place after the first `upto` steps round a circle of `len` names.
pub open spec fn circled(len: int, steps: Seq<Step>, upto: nat) -> int
    decreases upto,
{
    if upto == 0 {
        0
    } else {
        (circled(len, steps, (upto - 1) as nat) + steps[upto - 1].delta) % len
    }
}

/// The place where the steps along a row of `len` names end; `None`
/// when there is no name.
pub fn walk_row(len: usize, steps: &Vec<Step>) -> (at: Option<usize>)
    ensures
        at == (if len == 0 {
            None
        } else {
            Some(walked(len as int, steps@, steps@.len()) as usize)
        }),
        at is Some ==> at.unwrap() < len,
{
    if len == 0 {
        return None;
    }
    let mut current: usize = 0;
    let mut k: usize = 0;
    while k < steps.len()
        invariant
            0 <= k <= steps.len(),
            0 <= current < len,
            current == walked(len as int, steps@, k as nat),
        decreases steps.len() - k,
    {
        let delta = steps[k].delta;
        if delta >= 0 {
            let up = delta as usize;
            current = if up > len - 1 - current {
                len - 1
            } else {
                current + up
            };
        } else {
            let down: usize = if delta == i32::MIN {
                0x8000_0000
            } else {
                (-delta) as usize
            };
            current = if down > current {
                0
            } else {
                current - down
            };
        }
        k += 1;
    }
    Some(current)
}

/// The place where the steps round a circle of `len` names end; `None`
/// when there is no name or more names than fit in 63 bits.
pub fn walk_circle(len: usize, steps: &Vec<Step>) -> (at: Option<usize>)
    ensures
        at == (if len == 0 || len > i64::MAX {
            None
        } else {
            Some(circled(len as int, steps@, steps@.len()) as usize)
        }),
        at is Some ==> at.unwrap() < len,
{
    if len == 0 || len as u64 > 0x7fff_ffff_ffff_ffff {
        return None;
    }
    let span: i64 = len as i64;
    let mut current: i64 = 0;
    let mut k: usize = 0;
    while k < steps.len()
        invariant
            0 <= k <= steps.len(),
            span == len,
            0 <= current < span,
            current == circled(len as int, steps@, k as nat),
        decreases steps.len() - k,
    {
        let delta = steps[k].delta as i64;
        let small = rem_euclid(delta, span);
        proof {
            vstd::arithmetic::div_mod::lemma_add_mod_noop(
                current as int,
                delta as int,
                span as int,
            );
            vstd::arithmetic::div_mod::lemma_small_mod(current as nat, span as nat);
        }
        let sum: i64 = if small >= span - current {
            small - (span - current)
        } else {
            current + small
        };
        proof {
            if small >= span - current {
                vstd::arithmetic::div_mod::lemma_fundamental_div_mod_converse(
                    current + small,
                    span as int,
                    1,
                    sum as int,
                );
            } else {
                vstd::arithmetic::div_mod::lemma_small_mod((current + small) as nat, span as nat);
            }
        }
        current = sum;
        k += 1;
    }
    Some(current as usize)
}

/// The order of `len` names after the first `upto` steps, when every
/// step swaps the first name with the one so many places round the circle.
pub open spec fn shuffled(len: int, steps: Seq<Step>, upto: nat) -> Seq<int>
    decreases upto,
{
    if upto == 0 {
        Seq::new(len as nat, |i: int| i)
    } else {
        let before = shuffled(len, steps, (upto - 1) as nat);
        let j = steps[upto - 1].delta as int % len;
        before.update(0, before[j]).update(j, before[0])
    }
}

/// Which name stands first after all the swaps; `None` when there is no
/// name or more names than fit in 63 bits.
pub fn first_after_swaps(len: usize, steps: &Vec<Step>) -> (first: Option<usize>)
    ensures
        first == (if len == 0 || len > i64::MAX {
            None
        } else {
            Some(shuffled(len as int, steps@, steps@.len())[0] as usize)
        }),
        first is Some ==> first.unwrap() < len,
{
    if len == 0 || len as u64 > 0x7fff_ffff_ffff_ffff {
        return None;
    }
    let mut order: Vec<usize> = Vec::new();
    let mut i: usize = 0;
    while i < len
        invariant
            0 <= i <= len,
            order@.len() == i,
            forall|j: int| 0 <= j < i ==> order@[j] == j,
        decreases len - i,
    {
        order.push(i);
        i += 1;
    }
    let mut k: usize = 0;
    while k < steps.len()
        invariant
            0 <= k <= steps.len(),
            0 < len <= i64::MAX,
            order@.len() == len,
            forall|j: int| 0 <= j < len ==> 0 <= #[trigger] order@[j] < len,
            forall|j: int|
                0 <= j < len ==> #[trigger] order@[j] == shuffled(len as int, steps@, k as nat)[j],
            shuffled(len as int, steps@, k as nat).len() == len,
        decreases steps.len() - k,
    {
        let j = rem_euclid(steps[k].delta as i64, len as i64) as usize;
        let head = order[0];
        let other = order[j];
        order.set(0, other);
        order.set(j, head);
        k += 1;
    }
    Some(order[0])
}

} // verus!
