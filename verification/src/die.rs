//! Dice that roll by rule: every roll spins the die by an amount that
//! follows from its seed and from the rolls before.

use crate::text::{
    chars_of, integer, lines, lines_of, parse_integer, parse_word, pieces_view, split,
    split_at_each, strip_prefix, strip_suffix, without_prefix, without_suffix, word,
};
use vstd::prelude::*;

verus! {

/// A die with its faces and the state of its spinning.
pub struct Die {
    pub id: usize,
    pub seed: usize,
    pub roll_number: usize,
    pub faces: Vec<i32>,
    pub index: usize,
    pub pulse: usize,
}

impl Die {
    /// How far the next roll spins the die.
    pub open spec fn spin(&self) -> int {
        (self.roll_number + 1) * self.pulse
    }

    /// The pulse after the next roll.
    pub open spec fn next_pulse(&self) -> int {
        (self.pulse + self.spin()) % (self.seed as int) + 1 + (self.roll_number + 1) + self.seed
    }

    /// The face index after the next roll.
    pub open spec fn next_index(&self) -> int {
        (self.index + self.spin()) % (self.faces@.len() as int)
    }

    /// The die can be rolled: it has a face and a seed, and no number of the
    /// next roll leaves the machine's range.
    pub open spec fn can_roll(&self) -> bool {
        &&& self.seed > 0
        &&& self.faces@.len() > 0
        &&& self.roll_number < usize::MAX
        &&& self.pulse + self.spin() <= usize::MAX
        &&& self.index + self.spin() <= usize::MAX
        &&& self.seed + 1 + (self.roll_number + 1) + self.seed <= usize::MAX
    }

    /// A die that has not been rolled: its pulse is its seed and it shows
    /// its first face.
    pub fn new(id: usize, faces: Vec<i32>, seed: usize) -> (die: Die)
        ensures
            die.id == id,
            die.seed == seed,
            die.roll_number == 0,
            die.faces == faces,
            die.index == 0,
            die.pulse == seed,
    {
        Die { id, seed, roll_number: 0, faces, index: 0, pulse: seed }
    }

    /// Decides whether the die can be rolled.
    pub fn check_roll(&self) -> (ok: bool)
        ensures
            ok == self.can_roll(),
    {
        if self.seed == 0 || self.faces.len() == 0 || self.roll_number == usize::MAX {
            return false;
        }
        let spin = match (self.roll_number + 1).checked_mul(self.pulse) {
            Some(s) => s,
            None => {
                return false;
            },
        };
        if self.pulse.checked_add(spin).is_none() || self.index.checked_add(spin).is_none() {
            return false;
        }
        match self.seed.checked_add(self.seed) {
            Some(twice) => match twice.checked_add(self.roll_number + 1) {
                Some(most) => most.checked_add(1).is_some(),
                None => false,
            },
            None => false,
        }
    }

    /// Rolls the die and returns the face it shows.
    pub fn roll(&mut self) -> (face: i32)
        requires
            old(self).can_roll(),
        ensures
            final(self).id == old(self).id,
            final(self).seed == old(self).seed,
            final(self).faces == old(self).faces,
            final(self).roll_number == old(self).roll_number + 1,
            final(self).pulse == old(self).next_pulse(),
            final(self).index == old(self).next_index(),
            face == final(self).faces@[final(self).index as int],
    {
        self.roll_number += 1;
        let spin = self.roll_number * self.pulse;
        self.pulse += spin;
        self.pulse %= self.seed;
        self.pulse += 1 + self.roll_number + self.seed;
        self.index = (self.index + spin) % self.faces.len();
        self.faces[self.index]
    }
}

/// A face that a text spells, if it fits in 32 bits.
pub open spec fn face_of(s: Seq<char>) -> Option<i32> {
    match integer(s) {
        Some(v) => if i32::MIN <= v <= i32::MAX {
            Some(v as i32)
        } else {
            None
        },
        None => None,
    }
}

/// The faces that a list such as `1,2,-3` spells.
pub open spec fn faces_of(list: Seq<char>) -> Option<Seq<i32>> {
    let pieces = split(list, ',');
    if forall|k: int| 0 <= k < pieces.len() ==> face_of(#[trigger] pieces[k]) is Some {
        Some(Seq::new(pieces.len(), |k: int| face_of(pieces[k]).unwrap()))
    } else {
        None
    }
}

/// What a description such as `1: faces=[1,2,3] seed=7` spells: the
/// number of the die, its faces and its seed.
pub open spec fn described(text: Seq<char>) -> Option<(usize, Seq<i32>, usize)> {
    let parts = split(text, ' ');
    if parts.len() < 3 {
        None
    } else {
        match (
            strip_suffix(parts[0], ":"@),
            strip_prefix(parts[1], "faces=["@),
            strip_prefix(parts[2], "seed="@),
        ) {
            (Some(id), Some(opened), Some(seed)) => match strip_suffix(opened, "]"@) {
                Some(list) => match (word(id), faces_of(list), word(seed)) {
                    (Some(i), Some(f), Some(s)) => Some((i, f, s)),
                    _ => None,
                },
                None => None,
            },
            _ => None,
        }
    }
}

/// Reads a list of faces.
pub fn read_faces(list: &Vec<char>) -> (read: Option<Vec<i32>>)
    ensures
        match read {
            Some(v) => faces_of(list@) == Some(v@),
            None => faces_of(list@).is_none(),
        },
{
    let pieces = split_at_each(list, ',');
    let ghost views = pieces_view(pieces@);
    let mut out: Vec<i32> = Vec::new();
    let mut k: usize = 0;
    while k < pieces.len()
        invariant
            0 <= k <= pieces.len(),
            views == pieces_view(pieces@),
            views == split(list@, ','),
            out@.len() == k,
            forall|j: int| 0 <= j < k ==> face_of(#[trigger] views[j]) == Some(out@[j]),
        decreases pieces.len() - k,
    {
        let face = match parse_integer(&pieces[k]) {
            Some(v) => {
                if -0x8000_0000 <= v && v <= 0x7fff_ffff {
                    Some(v as i32)
                } else {
                    None
                }
            },
            None => None,
        };
        match face {
            Some(f) => {
                out.push(f);
            },
            None => {
                assert(face_of(views[k as int]).is_none());
                return None;
            },
        }
        k += 1;
    }
    assert(out@ =~= Seq::new(views.len(), |k: int| face_of(views[k]).unwrap()));
    Some(out)
}

impl Die {
    /// Reads a die from its description, not yet rolled.
    pub fn read(text: &Vec<char>) -> (die: Option<Die>)
        ensures
            match die {
                Some(d) => described(text@) == Some((d.id, d.faces@, d.seed)) && d.roll_number == 0
                    && d.index == 0 && d.pulse == d.seed,
                None => described(text@).is_none(),
            },
    {
        let parts = split_at_each(text, ' ');
        if parts.len() < 3 {
            return None;
        }
        let ghost views = pieces_view(parts@);
        assert(views[0] == parts@[0]@ && views[1] == parts@[1]@ && views[2] == parts@[2]@);
        let id_text = without_suffix(&parts[0], ":");
        let opened = without_prefix(&parts[1], "faces=[");
        let seed_text = without_prefix(&parts[2], "seed=");
        match (id_text, opened, seed_text) {
            (Some(id_text), Some(opened), Some(seed_text)) => {
                match without_suffix(&opened, "]") {
                    Some(list) => {
                        match (parse_word(&id_text), read_faces(&list), parse_word(&seed_text)) {
                            (Some(id), Some(faces), Some(seed)) => Some(
                                Die { id, seed, roll_number: 0, faces, index: 0, pulse: seed },
                            ),
                            _ => None,
                        }
                    },
                    None => None,
                }
            },
            _ => None,
        }
    }

    /// Reads a die from a description such as `1: faces=[1,2,3] seed=7`.
    /// The text has to describe a die; `read_str` tells whether it does.
    pub fn from_str(description: &str) -> (die: Die)
        requires
            described(description@) is Some,
        ensures
            described(description@) == Some((die.id, die.faces@, die.seed)),
            die.roll_number == 0,
            die.index == 0,
            die.pulse == die.seed,
    {
        Die::read_str(description).unwrap()
    }

    /// Reads a die from a description such as `1: faces=[1,2,3] seed=7`.
    pub fn read_str(description: &str) -> (die: Option<Die>)
        ensures
            match die {
                Some(d) => described(description@) == Some((d.id, d.faces@, d.seed))
                    && d.roll_number == 0 && d.index == 0 && d.pulse == d.seed,
                None => described(description@).is_none(),
            },
    {
        let chars = chars_of(description);
        Die::read(&chars)
    }
}

/// Reads the dice of a text, one to a line. Every line has to describe
/// a die; `read_dice` tells whether each does.
pub fn parse_dice(input: &str) -> (dice: Vec<Die>)
    requires
        forall|k: int| 0 <= k < lines(input@).len() ==> described(#[trigger] lines(input@)[k]) is Some,
    ensures
        dice@.len() == lines(input@).len(),
        forall|k: int|
            0 <= k < dice@.len() ==> described(lines(input@)[k]) == Some(
                ((#[trigger] dice@[k]).id, dice@[k].faces@, dice@[k].seed),
            ) && dice@[k].roll_number == 0 && dice@[k].index == 0 && dice@[k].pulse == dice@[k].seed,
{
    read_dice(input).unwrap()
}

/// Reads the dice of a text, one to a line; `None` when a line describes none.
pub fn read_dice(input: &str) -> (dice: Option<Vec<Die>>)
    ensures
        match dice {
            Some(v) => v@.len() == lines(input@).len() && forall|k: int|
                0 <= k < v@.len() ==> described(lines(input@)[k]) == Some(
                    ((#[trigger] v@[k]).id, v@[k].faces@, v@[k].seed),
                ) && v@[k].roll_number == 0 && v@[k].index == 0 && v@[k].pulse == v@[k].seed,
            None => exists|k: int|
                0 <= k < lines(input@).len() && described(#[trigger] lines(input@)[k]).is_none(),
        },
{
    let chars = chars_of(input);
    let ls = lines_of(&chars);
    let ghost views = pieces_view(ls@);
    let mut out: Vec<Die> = Vec::new();
    let mut k: usize = 0;
    while k < ls.len()
        invariant
            0 <= k <= ls.len(),
            views == pieces_view(ls@),
            views == lines(input@),
            out@.len() == k,
            forall|j: int|
                0 <= j < k ==> described(views[j]) == Some(
                    ((#[trigger] out@[j]).id, out@[j].faces@, out@[j].seed),
                ) && out@[j].roll_number == 0 && out@[j].index == 0 && out@[j].pulse
                    == out@[j].seed,
        decreases ls.len() - k,
    {
        match Die::read(&ls[k]) {
            Some(die) => {
                out.push(die);
            },
            None => {
                assert(described(views[k as int]).is_none());
                return None;
            },
        }
        k += 1;
    }
    Some(out)
}

impl Die {
    /// The die after one more roll.
    pub open spec fn rolled(&self) -> Die {
        Die {
            id: self.id,
            seed: self.seed,
            roll_number: (self.roll_number + 1) as usize,
            faces: self.faces,
            index: self.next_index() as usize,
            pulse: self.next_pulse() as usize,
        }
    }
}

/// How a race along the rest of the track goes with at most `limit`
/// rolls: the number of rolls that bring the die past the last number of
/// the track, a roll serving when it shows the number the die stands
/// before; and the die as it is left. The number is missing when the
/// rolls do not suffice or the die cannot be rolled.
pub open spec fn race(track: Seq<i32>, die: Die, at: nat, limit: nat) -> (Option<nat>, Die)
    decreases limit,
{
    if at >= track.len() {
        (Some(0nat), die)
    } else if limit == 0 || !die.can_roll() {
        (None, die)
    } else {
        let next = die.rolled();
        let on = if next.faces@[next.index as int] == track[at as int] {
            at + 1
        } else {
            at
        };
        let (rest, left) = race(track, next, on, (limit - 1) as nat);
        (
            match rest {
                Some(n) => Some(n + 1),
                None => None,
            },
            left,
        )
    }
}

/// The number of rolls that take the die along the track, a roll
/// serving when it shows the number the die stands before; `None` when
/// `limit` rolls do not suffice or the die cannot be rolled.
pub fn rolls_in_race(track: &Vec<i32>, die: &mut Die, limit: usize) -> (rolls: Option<usize>)
    ensures
        rolls == (match race(track@, *old(die), 0, limit as nat).0 {
            Some(n) => Some(n as usize),
            None => None,
        }),
        *final(die) == race(track@, *old(die), 0, limit as nat).1,
{
    let mut rolls: usize = 0;
    let mut at: usize = 0;
    while at < track.len()
        invariant
            0 <= at <= track.len(),
            0 <= rolls <= limit,
            race(track@, *old(die), 0, limit as nat).1 == race(
                track@,
                *die,
                at as nat,
                (limit - rolls) as nat,
            ).1,
            race(track@, *old(die), 0, limit as nat).0 == (match race(
                track@,
                *die,
                at as nat,
                (limit - rolls) as nat,
            ).0 {
                Some(n) => Some((n + rolls) as nat),
                None => None,
            }),
        decreases limit - rolls,
    {
        if rolls == limit || !die.check_roll() {
            return None;
        }
        let face = die.roll();
        rolls += 1;
        if face == track[at] {
            at += 1;
        }
    }
    Some(rolls)
}

} // verus!
