//! Novices and mentors in a line: a novice, written in lower case, may
//! learn from every mentor of her kind, written in upper case, who stands
//! no more than a thousand places away.

use vstd::prelude::*;

verus! {

/// How far a novice reaches in either direction.
pub const REACH: usize = 1000;

/// The code of `A`.
pub const FIRST_UPPER: u32 = 65;

/// The code of `a`.
pub const FIRST_LOWER: u32 = 97;

/// The character is one of the 26 small letters.
pub open spec fn is_lower(c: char) -> bool {
    97 <= c as u32 <= 122
}

/// How many of the places from `lo` up to `hi` hold the letter with `code`.
pub open spec fn mentors_in(chars: Seq<char>, lo: int, hi: int, code: int) -> nat
    decreases hi - lo,
{
    if hi <= lo {
        0
    } else {
        mentors_in(chars, lo, hi - 1, code) + (if chars[hi - 1] as u32 == code {
            1nat
        } else {
            0nat
        })
    }
}

/// The first place that the novice at place `i` reaches.
pub open spec fn reach_from(i: int) -> int {
    if i >= REACH {
        i - REACH
    } else {
        0
    }
}

/// The place behind the last that the novice at place `i` reaches.
pub open spec fn reach_to(len: int, i: int) -> int {
    if i + REACH + 1 <= len {
        i + REACH + 1
    } else {
        len
    }
}

/// The mentors that the novice at place `i` may learn from; none when no
/// novice stands there.
pub open spec fn mentors_near(chars: Seq<char>, i: int) -> nat {
    if is_lower(chars[i]) {
        mentors_in(
            chars,
            reach_from(i),
            reach_to(chars.len() as int, i),
            chars[i] as u32 - 32,
        )
    } else {
        0
    }
}

/// The pairs of a novice among the first `upto` places and a mentor she
/// may learn from.
pub open spec fn relationships(chars: Seq<char>, upto: nat) -> nat
    decreases upto,
{
    if upto == 0 {
        0
    } else {
        relationships(chars, (upto - 1) as nat) + mentors_near(chars, upto - 1)
    }
}

/// Counting from one place further on leaves out what the first place holds.
pub proof fn lemma_mentors_without_first(chars: Seq<char>, lo: int, hi: int, code: int)
    requires
        lo < hi,
    ensures
        mentors_in(chars, lo, hi, code) == mentors_in(chars, lo + 1, hi, code) + (if chars[lo] as u32
            == code {
            1nat
        } else {
            0nat
        }),
    decreases hi - lo,
{
    let last = if chars[hi - 1] as u32 == code {
        1nat
    } else {
        0nat
    };
    assert(mentors_in(chars, lo, hi, code) == mentors_in(chars, lo, hi - 1, code) + last);
    if lo + 1 < hi {
        lemma_mentors_without_first(chars, lo, hi - 1, code);
        assert(mentors_in(chars, lo + 1, hi, code) == mentors_in(chars, lo + 1, hi - 1, code)
            + last);
    } else {
        assert(mentors_in(chars, lo, lo, code) == 0);
        assert(mentors_in(chars, lo + 1, hi, code) == 0);
    }
}

/// The pairs found grow with the places looked at.
pub proof fn lemma_relationships_grow(chars: Seq<char>, a: nat, b: nat)
    requires
        a <= b,
    ensures
        relationships(chars, a) <= relationships(chars, b),
    decreases b,
{
    if a < b {
        lemma_relationships_grow(chars, a, (b - 1) as nat);
    }
}

/// The counters hold, for every capital letter, how often it stands in
/// the places from `lo` up to `hi`.
pub open spec fn counted(counts: Seq<usize>, chars: Seq<char>, lo: int, hi: int) -> bool {
    &&& counts.len() == 26
    &&& forall|k: int| 0 <= k < 26 ==> #[trigger] counts[k] == mentors_in(chars, lo, hi, 65 + k)
}

/// The number of pairs of a novice and a mentor she may learn from.
pub fn count_relationships(chars: &[char]) -> (sum: usize)
    requires
        relationships(chars@, chars@.len()) <= usize::MAX,
    ensures
        sum == relationships(chars@, chars@.len()),
{
    let len = chars.len();
    let mut mentors: Vec<usize> = vec![0usize; 26];
    let mut hi: usize = 0;
    let first = if len < REACH + 1 {
        len
    } else {
        REACH + 1
    };
    while hi < first
        invariant
            0 <= hi <= first <= len,
            len == chars@.len(),
            counted(mentors@, chars@, 0, hi as int),
            forall|k: int| 0 <= k < 26 ==> #[trigger] mentors@[k] <= hi,
        decreases first - hi,
    {
        let code = chars[hi] as u32;
        if 65 <= code && code <= 90 {
            let k = (code - 65) as usize;
            let bumped = mentors[k] + 1;
            mentors.set(k, bumped);
        }
        hi += 1;
    }
    let mut sum: usize = 0;
    let mut i: usize = 0;
    while i < len
        invariant
            0 <= i <= len,
            len == chars@.len(),
            relationships(chars@, len as nat) <= usize::MAX,
            sum == relationships(chars@, i as nat),
            i < len ==> counted(mentors@, chars@, reach_from(i as int), reach_to(len as int, i as int)),
        decreases len - i,
    {
        let code = chars[i] as u32;
        proof {
            lemma_relationships_grow(chars@, (i + 1) as nat, len as nat);
        }
        if 97 <= code && code <= 122 {
            let k = (code - 97) as usize;
            assert(mentors@[k as int] == mentors_near(chars@, i as int));
            sum = sum + mentors[k];
        }
        let ghost lo = reach_from(i as int);
        let ghost to = reach_to(len as int, i as int);
        if i >= REACH {
            let left = chars[i - REACH] as u32;
            proof {
                assert forall|k: int| 0 <= k < 26 implies #[trigger] mentors_in(
                    chars@,
                    lo,
                    to,
                    65 + k,
                ) == mentors_in(chars@, lo + 1, to, 65 + k) + (if chars@[lo] as u32 == 65 + k {
                    1nat
                } else {
                    0nat
                }) by {
                    lemma_mentors_without_first(chars@, lo, to, 65 + k);
                }
            }
            if 65 <= left && left <= 90 {
                let k = (left - 65) as usize;
                assert(mentors@[k as int] >= 1);
                let lowered = mentors[k] - 1;
                mentors.set(k, lowered);
            }
            assert(counted(mentors@, chars@, lo + 1, to));
        }
        if len - i > REACH + 1 {
            let right = chars[i + REACH + 1] as u32;
            if 65 <= right && right <= 90 {
                let k = (right - 65) as usize;
                proof {
                    lemma_count_bounded(chars@, reach_from(i + 1), to, 65 + k);
                }
                let bumped = mentors[k] + 1;
                mentors.set(k, bumped);
            }
        }
        i += 1;
    }
    sum
}

/// No more places hold a letter than there are places.
pub proof fn lemma_count_bounded(chars: Seq<char>, lo: int, hi: int, code: int)
    requires
        lo <= hi,
    ensures
        mentors_in(chars, lo, hi, code) <= hi - lo,
    decreases hi - lo,
{
    if lo < hi {
        lemma_count_bounded(chars, lo, hi - 1, code);
    }
}

/// The pairs of a novice written `novice` among the first `upto` places
/// and a mentor of her kind who stands before her.
pub open spec fn pairs_before(chars: Seq<char>, novice: char, upto: nat) -> nat
    decreases upto,
{
    if upto == 0 {
        0
    } else {
        pairs_before(chars, novice, (upto - 1) as nat) + (if chars[upto - 1] == novice {
            mentors_in(chars, 0, upto - 1, novice as u32 - 32)
        } else {
            0nat
        })
    }
}

/// The pairs found grow with the places looked at.
pub proof fn lemma_pairs_grow(chars: Seq<char>, novice: char, a: nat, b: nat)
    requires
        a <= b,
    ensures
        pairs_before(chars, novice, a) <= pairs_before(chars, novice, b),
    decreases b,
{
    if a < b {
        lemma_pairs_grow(chars, novice, a, (b - 1) as nat);
    }
}

/// The number of pairs of a novice written with the small letter
/// `novice` and a mentor of her kind who stands before her; `None` when
/// the number leaves the machine word.
pub fn count_pairs_before(chars: &Vec<char>, novice: char) -> (sum: Option<usize>)
    requires
        is_lower(novice),
    ensures
        sum == (if pairs_before(chars@, novice, chars@.len()) <= usize::MAX {
            Some(pairs_before(chars@, novice, chars@.len()) as usize)
        } else {
            None
        }),
{
    let mentor = novice as u32 - 32;
    let mut mentors: usize = 0;
    let mut sum: usize = 0;
    let mut i: usize = 0;
    while i < chars.len()
        invariant
            0 <= i <= chars.len(),
            mentor == novice as u32 - 32,
            mentors == mentors_in(chars@, 0, i as int, mentor as int),
            mentors <= i,
            sum == pairs_before(chars@, novice, i as nat),
        decreases chars.len() - i,
    {
        let c = chars[i];
        if c as u32 == mentor {
            mentors += 1;
        } else if c == novice {
            sum = match sum.checked_add(mentors) {
                Some(s) => s,
                None => {
                    proof {
                        lemma_pairs_grow(chars@, novice, (i + 1) as nat, chars@.len());
                    }
                    return None;
                },
            };
        }
        i += 1;
    }
    Some(sum)
}

} // verus!
