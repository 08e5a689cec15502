//! Runic words hidden in inscriptions: how often they occur and how many
//! symbols they cover.

use crate::text::{
    chars_of, pieces_view, split, split_at_each, strip_prefix, without_prefix,
};
use vstd::prelude::*;

verus! {

/// The words that a line such as `WORDS:THE,OWE` lists.
pub open spec fn words_of(line: Seq<char>) -> Option<Seq<Seq<char>>> {
    match strip_prefix(line, "WORDS:"@) {
        Some(list) => Some(split(list, ',')),
        None => None,
    }
}

/// Reads the words of a line such as `WORDS:THE,OWE`. The line has to
/// begin with `WORDS:`; `read_words` tells whether it does.
pub fn parse_words(input: &str) -> (listed: Vec<Vec<char>>)
    requires
        words_of(input@) is Some,
    ensures
        words_of(input@) == Some(pieces_view(listed@)),
{
    read_words(input).unwrap()
}

/// Reads the words of a line such as `WORDS:THE,OWE`.
pub fn read_words(input: &str) -> (listed: Option<Vec<Vec<char>>>)
    ensures
        match listed {
            Some(v) => words_of(input@) == Some(pieces_view(v@)),
            None => words_of(input@).is_none(),
        },
{
    let chars = chars_of(input);
    match without_prefix(&chars, "WORDS:") {
        Some(list) => Some(split_at_each(&list, ',')),
        None => None,
    }
}

/// The word stands in the text from place `i` on.
pub open spec fn starts_at(text: Seq<char>, i: int, word: Seq<char>) -> bool {
    0 <= i && i + word.len() <= text.len() && text.subrange(i, i + word.len()) == word
}

/// Whether the word stands in the text from place `i` on.
pub fn stands_at(text: &Vec<char>, i: usize, word: &Vec<char>) -> (yes: bool)
    ensures
        yes == starts_at(text@, i as int, word@),
{
    if i > text.len() || word.len() > text.len() - i {
        return false;
    }
    let mut k: usize = 0;
    while k < word.len()
        invariant
            0 <= k <= word.len(),
            i + word.len() <= text.len(),
            forall|j: int| 0 <= j < k ==> text@[i + j] == word@[j],
        decreases word.len() - k,
    {
        if text[i + k] != word[k] {
            assert(text@.subrange(i as int, i + word.len())[k as int] != word@[k as int]);
            return false;
        }
        k += 1;
    }
    assert(text@.subrange(i as int, i + word.len()) =~= word@);
    true
}

/// How many of the first `upto` words stand in the text from place `i` on.
pub open spec fn words_at(text: Seq<char>, words: Seq<Seq<char>>, i: int, upto: nat) -> nat
    decreases upto,
{
    if upto == 0 {
        0
    } else {
        words_at(text, words, i, (upto - 1) as nat) + (if starts_at(text, i, words[upto - 1]) {
            1nat
        } else {
            0nat
        })
    }
}

/// How often the words occur in the text, beginning at one of the first
/// `upto` places.
pub open spec fn occurrences(text: Seq<char>, words: Seq<Seq<char>>, upto: nat) -> nat
    decreases upto,
{
    if upto == 0 {
        0
    } else {
        occurrences(text, words, (upto - 1) as nat) + words_at(text, words, upto - 1, words.len())
    }
}

/// The occurrences grow with the places looked at.
pub proof fn lemma_occurrences_grow(text: Seq<char>, words: Seq<Seq<char>>, a: nat, b: nat)
    requires
        a <= b,
    ensures
        occurrences(text, words, a) <= occurrences(text, words, b),
    decreases b,
{
    if a < b {
        lemma_occurrences_grow(text, words, a, (b - 1) as nat);
    }
}

/// How often the words occur in the text; `None` when the number leaves
/// the machine word.
pub fn count_words(words: &Vec<Vec<char>>, text: &Vec<char>) -> (count: Option<usize>)
    ensures
        count == (if occurrences(text@, pieces_view(words@), text@.len()) <= usize::MAX {
            Some(occurrences(text@, pieces_view(words@), text@.len()) as usize)
        } else {
            None
        }),
{
    let ghost listed = pieces_view(words@);
    let mut count: usize = 0;
    let mut i: usize = 0;
    while i < text.len()
        invariant
            0 <= i <= text.len(),
            listed == pieces_view(words@),
            count == occurrences(text@, listed, i as nat),
        decreases text.len() - i,
    {
        let mut here: usize = 0;
        let mut k: usize = 0;
        while k < words.len()
            invariant
                0 <= k <= words.len(),
                listed == pieces_view(words@),
                here == words_at(text@, listed, i as int, k as nat),
                here <= k,
            decreases words.len() - k,
        {
            assert(listed[k as int] == words@[k as int]@);
            if stands_at(text, i, &words[k]) {
                here += 1;
            }
            k += 1;
        }
        count = match count.checked_add(here) {
            Some(c) => c,
            None => {
                proof {
                    lemma_occurrences_grow(text@, listed, (i + 1) as nat, text@.len());
                }
                return None;
            },
        };
        i += 1;
    }
    Some(count)
}

/// The words and, behind them, the same words read backwards.
pub fn with_reversed(words: &Vec<Vec<char>>) -> (all: Vec<Vec<char>>)
    ensures
        all@.len() == 2 * words@.len(),
        forall|k: int| 0 <= k < words@.len() ==> (#[trigger] all@[k])@ == words@[k]@,
        forall|k: int|
            0 <= k < words@.len() ==> (#[trigger] all@[words@.len() + k])@ == words@[k]@.reverse(),
{
    let mut all: Vec<Vec<char>> = Vec::new();
    let mut k: usize = 0;
    while k < words.len()
        invariant
            0 <= k <= words.len(),
            all@.len() == k,
            forall|j: int| 0 <= j < k ==> (#[trigger] all@[j])@ == words@[j]@,
        decreases words.len() - k,
    {
        let word = &words[k];
        let mut copy: Vec<char> = Vec::new();
        let mut j: usize = 0;
        while j < word.len()
            invariant
                0 <= j <= word.len(),
                copy@ == word@.take(j as int),
            decreases word.len() - j,
        {
            copy.push(word[j]);
            assert(copy@ =~= word@.take(j + 1));
            j += 1;
        }
        assert(word@.take(j as int) =~= word@);
        all.push(copy);
        k += 1;
    }
    let mut k: usize = 0;
    while k < words.len()
        invariant
            0 <= k <= words.len(),
            all@.len() == words@.len() + k,
            forall|j: int| 0 <= j < words@.len() ==> (#[trigger] all@[j])@ == words@[j]@,
            forall|j: int|
                0 <= j < k ==> (#[trigger] all@[words@.len() + j])@ == words@[j]@.reverse(),
        decreases words.len() - k,
    {
        let word = &words[k];
        let mut back: Vec<char> = Vec::new();
        let mut j: usize = 0;
        while j < word.len()
            invariant
                0 <= j <= word.len(),
                back@.len() == j,
                forall|t: int| 0 <= t < j ==> back@[t] == word@[word@.len() - 1 - t],
            decreases word.len() - j,
        {
            back.push(word[word.len() - 1 - j]);
            j += 1;
        }
        assert(back@ =~= word@.reverse());
        all.push(back);
        k += 1;
    }
    all
}

/// The occurrence of word `k` from place `i` on covers place `p`.
pub open spec fn covers(text: Seq<char>, words: Seq<Seq<char>>, i: int, k: int, p: int) -> bool {
    0 <= k < words.len() && starts_at(text, i, words[k]) && i <= p < i + words[k].len()
}

/// Some occurrence of a word covers place `p`.
pub open spec fn covered(text: Seq<char>, words: Seq<Seq<char>>, p: int) -> bool {
    exists|i: int, k: int| covers(text, words, i, k, p)
}

/// Some occurrence that comes before word `at_k` at place `at_i` covers
/// place `p`: one that begins earlier, or there with an earlier word.
pub open spec fn covered_before(
    text: Seq<char>,
    words: Seq<Seq<char>>,
    p: int,
    at_i: int,
    at_k: int,
) -> bool {
    exists|i: int, k: int|
        #[trigger] covers(text, words, i, k, p) && (i < at_i || (i == at_i && k < at_k))
}

/// How many of the first `upto` places some occurrence covers.
pub open spec fn covered_count(text: Seq<char>, words: Seq<Seq<char>>, upto: nat) -> nat
    decreases upto,
{
    if upto == 0 {
        0
    } else {
        covered_count(text, words, (upto - 1) as nat) + (if covered(text, words, upto - 1) {
            1nat
        } else {
            0nat
        })
    }
}

/// How many symbols of the text belong to an occurrence of a word.
pub fn count_symbols(words: &Vec<Vec<char>>, text: &Vec<char>) -> (count: usize)
    ensures
        count == covered_count(text@, pieces_view(words@), text@.len()),
{
    let ghost listed = pieces_view(words@);
    let len = text.len();
    let mut used: Vec<bool> = vec![false; len];
    let mut i: usize = 0;
    while i < len
        invariant
            0 <= i <= len,
            len == text@.len(),
            listed == pieces_view(words@),
            used@.len() == len,
            forall|p: int| 0 <= p < len ==> #[trigger] used@[p] == covered_before(text@, listed, p, i as int, 0),
        decreases len - i,
    {
        let mut k: usize = 0;
        while k < words.len()
            invariant
                0 <= k <= words.len(),
                0 <= i < len,
                len == text@.len(),
                listed == pieces_view(words@),
                used@.len() == len,
                forall|p: int|
                    0 <= p < len ==> #[trigger] used@[p] == covered_before(
                        text@,
                        listed,
                        p,
                        i as int,
                        k as int,
                    ),
            decreases words.len() - k,
        {
            let word = &words[k];
            assert(listed[k as int] == word@);
            let stands = stands_at(text, i, word);
            let ghost before = used@;
            if stands {
                let mut pos: usize = i;
                while pos < i + word.len()
                    invariant
                        i <= pos <= i + word.len() <= len,
                        used@.len() == len,
                        before.len() == len,
                        forall|p: int|
                            0 <= p < len ==> #[trigger] used@[p] == (before[p] || (i <= p < pos)),
                    decreases i + word.len() - pos,
                {
                    used.set(pos, true);
                    pos += 1;
                }
            }
            proof {
                assert forall|p: int| 0 <= p < len implies #[trigger] used@[p] == covered_before(
                    text@,
                    listed,
                    p,
                    i as int,
                    k + 1,
                ) by {
                    let now = covers(text@, listed, i as int, k as int, p);
                    assert(used@[p] == (before[p] || now));
                    if covered_before(text@, listed, p, i as int, k + 1) {
                        let (ci, ck) = choose|ci: int, ck: int|
                            #[trigger] covers(text@, listed, ci, ck, p) && (ci < i || (ci == i
                                && ck < k + 1));
                        if !(ci == i && ck == k) {
                            assert(covers(text@, listed, ci, ck, p) && (ci < i || (ci == i && ck
                                < k)));
                        }
                    }
                    if before[p] {
                        let (ci, ck) = choose|ci: int, ck: int|
                            #[trigger] covers(text@, listed, ci, ck, p) && (ci < i || (ci == i
                                && ck < k));
                        assert(covers(text@, listed, ci, ck, p) && (ci < i || (ci == i && ck < k
                            + 1)));
                    }
                    if now {
                        assert(covers(text@, listed, i as int, k as int, p) && (i < i || (i == i
                            && k < k + 1)));
                    }
                }
            }
            k += 1;
        }
        proof {
            assert forall|p: int| 0 <= p < len implies #[trigger] used@[p] == covered_before(
                text@,
                listed,
                p,
                i + 1,
                0,
            ) by {
                if covered_before(text@, listed, p, i + 1, 0) {
                    let (ci, ck) = choose|ci: int, ck: int|
                        #[trigger] covers(text@, listed, ci, ck, p) && (ci < i + 1 || (ci == i + 1
                            && ck < 0));
                    assert(covers(text@, listed, ci, ck, p) && (ci < i || (ci == i && ck
                        < words@.len())));
                }
                if covered_before(text@, listed, p, i as int, words@.len() as int) {
                    let (ci, ck) = choose|ci: int, ck: int|
                        #[trigger] covers(text@, listed, ci, ck, p) && (ci < i || (ci == i && ck
                            < words@.len()));
                    assert(covers(text@, listed, ci, ck, p) && (ci < i + 1 || (ci == i + 1 && ck
                        < 0)));
                }
            }
        }
        i += 1;
    }
    proof {
        assert forall|p: int| 0 <= p < len implies #[trigger] used@[p] == covered(
            text@,
            listed,
            p,
        ) by {
            if covered(text@, listed, p) {
                let (ci, ck) = choose|ci: int, ck: int| covers(text@, listed, ci, ck, p);
                assert(covers(text@, listed, ci, ck, p) && (ci < len || (ci == len && ck < 0)));
            }
            if covered_before(text@, listed, p, len as int, 0) {
                let (ci, ck) = choose|ci: int, ck: int|
                    #[trigger] covers(text@, listed, ci, ck, p) && (ci < len || (ci == len && ck
                        < 0));
                assert(covers(text@, listed, ci, ck, p));
            }
        }
    }
    let mut count: usize = 0;
    let mut p: usize = 0;
    while p < len
        invariant
            0 <= p <= len,
            len == text@.len(),
            used@.len() == len,
            count == covered_count(text@, listed, p as nat),
            count <= p,
            forall|q: int| 0 <= q < len ==> #[trigger] used@[q] == covered(text@, listed, q),
        decreases len - p,
    {
        if used[p] {
            count += 1;
        }
        p += 1;
    }
    count
}

/// A wall of symbols, row by row.
pub type Wall = Seq<Seq<char>>;

/// The rows of a wall, as sequences.
pub open spec fn wall_view(wall: Seq<Vec<char>>) -> Wall {
    Seq::new(wall.len(), |y: int| wall[y]@)
}

/// The wall has `h` rows of `w` symbols each, and at least one symbol.
pub open spec fn framed(wall: Wall, h: int, w: int) -> bool {
    wall.len() == h && h > 0 && w > 0 && forall|y: int| 0 <= y < h ==> (#[trigger] wall[y]).len() == w
}

/// Direction number `d` of four as steps down and to the right: up,
/// down, to the left, to the right.
pub open spec fn heading(d: int) -> (int, int) {
    if d == 0 {
        (-1, 0)
    } else if d == 1 {
        (1, 0)
    } else if d == 2 {
        (0, -1)
    } else {
        (0, 1)
    }
}

/// The place of letter `i` of a word that is written from `(sy, sx)` on
/// in direction `d` on a wall rolled into a cylinder of `w` columns.
pub open spec fn letter_at(d: int, sy: int, sx: int, i: int, w: int) -> (int, int) {
    (sy + heading(d).0 * i, (sx + heading(d).1 * i) % w)
}

/// The word stands on the wall from `(sy, sx)` on in direction `d`.
pub open spec fn written_at(wall: Wall, word: Seq<char>, d: int, sy: int, sx: int, h: int, w: int) -> bool {
    forall|i: int|
        0 <= i < word.len() ==> 0 <= (#[trigger] letter_at(d, sy, sx, i, w)).0 < h && wall[letter_at(
            d,
            sy,
            sx,
            i,
            w,
        ).0][letter_at(d, sy, sx, i, w).1] == word[i]
}

/// The word, standing from `(sy, sx)` on in direction `d`, covers `(y, x)`.
pub open spec fn placed_over(
    wall: Wall,
    word: Seq<char>,
    d: int,
    sy: int,
    sx: int,
    h: int,
    w: int,
    y: int,
    x: int,
) -> bool {
    written_at(wall, word, d, sy, sx, h, w) && exists|i: int|
        0 <= i < word.len() && #[trigger] letter_at(d, sy, sx, i, w) == (y, x)
}

/// The word, standing in direction `d` from row `sy` and one of the
/// first `upto` columns on, covers `(y, x)`.
pub open spec fn row_over(
    wall: Wall,
    word: Seq<char>,
    d: int,
    sy: int,
    upto: int,
    h: int,
    w: int,
    y: int,
    x: int,
) -> bool {
    exists|sx: int| 0 <= sx < upto && #[trigger] placed_over(wall, word, d, sy, sx, h, w, y, x)
}

/// The word, standing in direction `d` from one of the first `upto`
/// rows on, covers `(y, x)`.
pub open spec fn dir_over(
    wall: Wall,
    word: Seq<char>,
    d: int,
    upto: int,
    h: int,
    w: int,
    y: int,
    x: int,
) -> bool {
    exists|sy: int| 0 <= sy < upto && #[trigger] row_over(wall, word, d, sy, w, h, w, y, x)
}

/// The word, standing in one of the first `upto` directions, covers `(y, x)`.
pub open spec fn word_over(wall: Wall, word: Seq<char>, upto: int, h: int, w: int, y: int, x: int) -> bool {
    exists|d: int| 0 <= d < upto && #[trigger] dir_over(wall, word, d, h, h, w, y, x)
}

/// One of the first `upto` words covers `(y, x)`.
pub open spec fn scale_under(wall: Wall, words: Seq<Seq<char>>, upto: int, h: int, w: int, y: int, x: int) -> bool {
    exists|k: int| 0 <= k < upto && #[trigger] word_over(wall, words[k], 4, h, w, y, x)
}

/// The marks hold what was marked before and what `now` adds.
pub open spec fn marked_more(
    before: Seq<Seq<bool>>,
    after: Seq<Seq<bool>>,
    h: int,
    w: int,
    now: spec_fn(int, int) -> bool,
) -> bool {
    &&& after.len() == h
    &&& forall|y: int| 0 <= y < h ==> (#[trigger] after[y]).len() == w
    &&& forall|y: int, x: int|
        0 <= y < h && 0 <= x < w ==> #[trigger] after[y][x] == (before[y][x] || now(y, x))
}

/// The marks of a wall, as sequences.
pub open spec fn marks_view(marks: Seq<Vec<bool>>) -> Seq<Seq<bool>> {
    Seq::new(marks.len(), |y: int| marks[y]@)
}

/// The marks have the frame of the wall.
pub open spec fn marks_framed(marks: Seq<Seq<bool>>, h: int, w: int) -> bool {
    marks.len() == h && forall|y: int| 0 <= y < h ==> (#[trigger] marks[y]).len() == w
}

/// The column that lies `steps` columns from `sx` round the cylinder, to
/// the right or to the left.
fn wrapped(sx: usize, right: bool, steps: usize, width: usize) -> (x: usize)
    requires
        width > 0,
        sx < width,
    ensures
        x == (sx + (if right {
            steps as int
        } else {
            -(steps as int)
        })) % (width as int),
        x < width,
{
    let by = steps % width;
    proof {
        vstd::arithmetic::div_mod::lemma_fundamental_div_mod(steps as int, width as int);
        let q = steps as int / width as int;
        assert(q * width == width * q) by (nonlinear_arith);
        assert((q + 1) * width == width * q + width) by (nonlinear_arith);
        assert((-q) * width == -(width * q)) by (nonlinear_arith);
        assert((-q - 1) * width == -(width * q) - width) by (nonlinear_arith);
        if right {
            if sx + by < width {
                vstd::arithmetic::div_mod::lemma_fundamental_div_mod_converse(
                    sx + steps,
                    width as int,
                    q,
                    (sx + by) as int,
                );
            } else {
                vstd::arithmetic::div_mod::lemma_fundamental_div_mod_converse(
                    sx + steps,
                    width as int,
                    q + 1,
                    sx + by - width,
                );
            }
        } else {
            if sx >= by {
                vstd::arithmetic::div_mod::lemma_fundamental_div_mod_converse(
                    sx - steps,
                    width as int,
                    -q,
                    (sx - by) as int,
                );
            } else {
                vstd::arithmetic::div_mod::lemma_fundamental_div_mod_converse(
                    sx - steps,
                    width as int,
                    -q - 1,
                    sx - by + width,
                );
            }
        }
    }
    if right {
        if by < width - sx {
            sx + by
        } else {
            by - (width - sx)
        }
    } else {
        if sx >= by {
            sx - by
        } else {
            width - (by - sx)
        }
    }
}

/// The place of letter `i`, if its row is one of the wall.
fn place_of(d: usize, sy: usize, sx: usize, i: usize, h: usize, w: usize) -> (at: Option<
    (usize, usize),
>)
    requires
        d < 4,
        sy < h,
        sx < w,
    ensures
        match at {
            Some((y, x)) => letter_at(d as int, sy as int, sx as int, i as int, w as int) == (
                y as int,
                x as int,
            ) && y < h && x < w,
            None => !(0 <= letter_at(d as int, sy as int, sx as int, i as int, w as int).0 < h),
        },
{
    proof {
        vstd::arithmetic::div_mod::lemma_small_mod(sx as nat, w as nat);
        assert(0 * i == 0) by (nonlinear_arith);
        assert(1 * i == i) by (nonlinear_arith);
        assert((-1) * i == -i) by (nonlinear_arith);
    }
    if d == 0 {
        if i > sy {
            None
        } else {
            Some((sy - i, sx))
        }
    } else if d == 1 {
        if i >= h - sy {
            None
        } else {
            Some((sy + i, sx))
        }
    } else if d == 2 {
        Some((sy, wrapped(sx, false, i, w)))
    } else {
        Some((sy, wrapped(sx, true, i, w)))
    }
}

/// Whether the word stands on the wall from `(sy, sx)` on in direction `d`.
fn stands_on(wall: &Vec<Vec<char>>, word: &Vec<char>, d: usize, sy: usize, sx: usize, h: usize, w: usize) -> (yes:
    bool)
    requires
        framed(wall_view(wall@), h as int, w as int),
        d < 4,
        sy < h,
        sx < w,
    ensures
        yes == written_at(wall_view(wall@), word@, d as int, sy as int, sx as int, h as int, w as int),
{
    let ghost view = wall_view(wall@);
    let mut i: usize = 0;
    while i < word.len()
        invariant
            0 <= i <= word.len(),
            view == wall_view(wall@),
            framed(view, h as int, w as int),
            d < 4,
            sy < h,
            sx < w,
            forall|j: int|
                0 <= j < i ==> 0 <= (#[trigger] letter_at(d as int, sy as int, sx as int, j, w as int)).0
                    < h && view[letter_at(d as int, sy as int, sx as int, j, w as int).0][letter_at(
                    d as int,
                    sy as int,
                    sx as int,
                    j,
                    w as int,
                ).1] == word@[j],
        decreases word.len() - i,
    {
        match place_of(d, sy, sx, i, h, w) {
            Some((y, x)) => {
                assert(view[y as int] == wall@[y as int]@);
                if wall[y][x] != word[i] {
                    assert(letter_at(d as int, sy as int, sx as int, i as int, w as int) == (
                        y as int,
                        x as int,
                    ));
                    return false;
                }
            },
            None => {
                assert(!(0 <= letter_at(d as int, sy as int, sx as int, i as int, w as int).0 < h));
                return false;
            },
        }
        i += 1;
    }
    true
}

/// Marks the place `(y, x)`.
fn mark(marks: &mut Vec<Vec<bool>>, y: usize, x: usize, Ghost(h): Ghost<int>, Ghost(w): Ghost<int>)
    requires
        marks_framed(marks_view(old(marks)@), h, w),
        y < h,
        x < w,
    ensures
        marks_framed(marks_view(final(marks)@), h, w),
        forall|a: int, b: int|
            0 <= a < h && 0 <= b < w ==> #[trigger] marks_view(final(marks)@)[a][b] == (marks_view(
                old(marks)@,
            )[a][b] || (a == y && b == x)),
{
    let ghost before = marks_view(marks@);
    assert(before[y as int] == marks@[y as int]@);
    let mut row: Vec<bool> = Vec::new();
    let mut i: usize = 0;
    let width = marks[y].len();
    while i < width
        invariant
            0 <= i <= width,
            y < marks@.len(),
            width == marks@[y as int]@.len(),
            row@ == marks@[y as int]@.take(i as int),
        decreases width - i,
    {
        row.push(marks[y][i]);
        assert(row@ =~= marks@[y as int]@.take(i + 1));
        i += 1;
    }
    assert(row@ =~= before[y as int]);
    row.set(x, true);
    marks.set(y, row);
    proof {
        let after = marks_view(marks@);
        assert forall|a: int| 0 <= a < h implies (#[trigger] after[a]).len() == w by {
            if a != y {
                assert(after[a] == before[a]);
            }
        }
        assert forall|a: int, b: int| 0 <= a < h && 0 <= b < w implies #[trigger] after[a][b] == (
        before[a][b] || (a == y && b == x)) by {
            if a != y {
                assert(after[a] == before[a]);
            }
        }
    }
}

/// Marks the places of the word standing from `(sy, sx)` on in direction `d`.
fn mark_placement(
    wall: &Vec<Vec<char>>,
    word: &Vec<char>,
    d: usize,
    sy: usize,
    sx: usize,
    h: usize,
    w: usize,
    marks: &mut Vec<Vec<bool>>,
)
    requires
        framed(wall_view(wall@), h as int, w as int),
        marks_framed(marks_view(old(marks)@), h as int, w as int),
        d < 4,
        sy < h,
        sx < w,
    ensures
        marked_more(
            marks_view(old(marks)@),
            marks_view(final(marks)@),
            h as int,
            w as int,
            |y: int, x: int|
                placed_over(
                    wall_view(wall@),
                    word@,
                    d as int,
                    sy as int,
                    sx as int,
                    h as int,
                    w as int,
                    y,
                    x,
                ),
        ),
{
    let ghost view = wall_view(wall@);
    let ghost before = marks_view(marks@);
    if !stands_on(wall, word, d, sy, sx, h, w) {
        return;
    }
    let mut i: usize = 0;
    while i < word.len()
        invariant
            0 <= i <= word.len(),
            view == wall_view(wall@),
            framed(view, h as int, w as int),
            written_at(view, word@, d as int, sy as int, sx as int, h as int, w as int),
            marks_framed(marks_view(marks@), h as int, w as int),
            d < 4,
            sy < h,
            sx < w,
            forall|y: int, x: int|
                0 <= y < h && 0 <= x < w ==> #[trigger] marks_view(marks@)[y][x] == (before[y][x]
                    || exists|j: int|
                    0 <= j < i && #[trigger] letter_at(d as int, sy as int, sx as int, j, w as int)
                        == (y, x)),
        decreases word.len() - i,
    {
        let ghost so_far = marks_view(marks@);
        let at = place_of(d, sy, sx, i, h, w);
        assert(0 <= letter_at(d as int, sy as int, sx as int, i as int, w as int).0 < h);
        let (y, x) = at.unwrap();
        mark(marks, y, x, Ghost(h as int), Ghost(w as int));
        proof {
            assert forall|a: int, b: int| 0 <= a < h && 0 <= b < w implies #[trigger] marks_view(
                marks@,
            )[a][b] == (before[a][b] || exists|j: int|
                0 <= j < i + 1 && #[trigger] letter_at(d as int, sy as int, sx as int, j, w as int) == (
                    a,
                    b,
                )) by {
                let there = a == y && b == x;
                assert(marks_view(marks@)[a][b] == (so_far[a][b] || there));
                if there {
                    assert(letter_at(d as int, sy as int, sx as int, i as int, w as int) == (a, b));
                }
                if exists|j: int|
                    0 <= j < i + 1 && #[trigger] letter_at(d as int, sy as int, sx as int, j, w as int)
                        == (a, b) {
                    let j = choose|j: int|
                        0 <= j < i + 1 && #[trigger] letter_at(
                            d as int,
                            sy as int,
                            sx as int,
                            j,
                            w as int,
                        ) == (a, b);
                    if j < i {
                        assert(so_far[a][b]);
                    }
                }
            }
        }
        i += 1;
    }
}

/// How many of the first `upto_x` places of row `upto_y`, and of all
/// places of the rows before it, are marked.
pub open spec fn marked_count(marks: Seq<Seq<bool>>, w: int, upto_y: nat, upto_x: nat) -> nat
    decreases upto_y, upto_x,
{
    if upto_x > 0 {
        marked_count(marks, w, upto_y, (upto_x - 1) as nat) + (if marks[upto_y as int][upto_x - 1] {
            1nat
        } else {
            0nat
        })
    } else if upto_y > 0 {
        marked_count(marks, w, (upto_y - 1) as nat, w as nat)
    } else {
        0
    }
}

/// The marks of a wall on which the places under the words are marked.
pub open spec fn scales_marked(marks: Seq<Seq<bool>>, wall: Wall, words: Seq<Seq<char>>, h: int, w: int) -> bool {
    &&& marks_framed(marks, h, w)
    &&& forall|y: int, x: int|
        0 <= y < h && 0 <= x < w ==> #[trigger] marks[y][x] == scale_under(
            wall,
            words,
            words.len() as int,
            h,
            w,
            y,
            x,
        )
}

/// Marks every place of the wall that lies under one of the words. The
/// words are looked for upwards, downwards, to the left and to the
/// right; sideways they go on round the wall, which is rolled into a
/// cylinder. `None` when the wall has no symbol or rows of different lengths.
pub fn mark_scales(words: &Vec<Vec<char>>, wall: &Vec<Vec<char>>) -> (marks: Option<Vec<Vec<bool>>>)
    ensures
        match marks {
            Some(m) => exists|w: int|
                framed(wall_view(wall@), wall@.len() as int, w) && scales_marked(
                    marks_view(m@),
                    wall_view(wall@),
                    pieces_view(words@),
                    wall@.len() as int,
                    w,
                ),
            None => !exists|w: int| framed(wall_view(wall@), wall@.len() as int, w),
        },
{
    let ghost view = wall_view(wall@);
    let ghost listed = pieces_view(words@);
    let h = wall.len();
    if h == 0 {
        return None;
    }
    let w = wall[0].len();
    if w == 0 {
        proof {
            assert(view[0].len() == 0);
            assert forall|v: int| !framed(view, h as int, v) by {
                if framed(view, h as int, v) {
                    assert(view[0].len() == v);
                }
            }
        }
        return None;
    }
    let mut marks: Vec<Vec<bool>> = Vec::new();
    let mut y: usize = 0;
    while y < h
        invariant
            0 <= y <= h,
            h == wall@.len(),
            view == wall_view(wall@),
            w == view[0].len(),
            w > 0,
            forall|a: int| 0 <= a < y ==> (#[trigger] view[a]).len() == w,
            marks@.len() == y,
            forall|a: int| 0 <= a < y ==> (#[trigger] marks@[a])@.len() == w,
            forall|a: int, b: int| 0 <= a < y && 0 <= b < w ==> !#[trigger] marks@[a]@[b],
        decreases h - y,
    {
        if wall[y].len() != w {
            proof {
                assert(view[y as int].len() != view[0].len());
                assert forall|v: int| !framed(view, h as int, v) by {
                    if framed(view, h as int, v) {
                        assert(view[0].len() == v);
                        assert(view[y as int].len() == v);
                    }
                }
            }
            return None;
        }
        marks.push(vec![false; w]);
        y += 1;
    }
    assert(framed(view, h as int, w as int));
    let mut k: usize = 0;
    while k < words.len()
        invariant
            0 <= k <= words.len(),
            h == wall@.len(),
            view == wall_view(wall@),
            listed == pieces_view(words@),
            framed(view, h as int, w as int),
            marks_framed(marks_view(marks@), h as int, w as int),
            forall|a: int, b: int|
                0 <= a < h && 0 <= b < w ==> #[trigger] marks_view(marks@)[a][b] == scale_under(
                    view,
                    listed,
                    k as int,
                    h as int,
                    w as int,
                    a,
                    b,
                ),
        decreases words.len() - k,
    {
        let word = &words[k];
        let ghost at_word = marks_view(marks@);
        assert(listed[k as int] == word@);
        let mut d: usize = 0;
        while d < 4
            invariant
                0 <= d <= 4,
                0 <= k < words.len(),
                h == wall@.len(),
                view == wall_view(wall@),
                framed(view, h as int, w as int),
                marks_framed(marks_view(marks@), h as int, w as int),
                forall|a: int, b: int|
                    0 <= a < h && 0 <= b < w ==> #[trigger] marks_view(marks@)[a][b] == (
                    at_word[a][b] || word_over(view, word@, d as int, h as int, w as int, a, b)),
            decreases 4 - d,
        {
            let ghost at_dir = marks_view(marks@);
            let mut sy: usize = 0;
            while sy < h
                invariant
                    0 <= sy <= h,
                    0 <= d < 4,
                    h == wall@.len(),
                    view == wall_view(wall@),
                    framed(view, h as int, w as int),
                    marks_framed(marks_view(marks@), h as int, w as int),
                    forall|a: int, b: int|
                        0 <= a < h && 0 <= b < w ==> #[trigger] marks_view(marks@)[a][b] == (
                        at_dir[a][b] || dir_over(
                            view,
                            word@,
                            d as int,
                            sy as int,
                            h as int,
                            w as int,
                            a,
                            b,
                        )),
                decreases h - sy,
            {
                let ghost at_row = marks_view(marks@);
                let mut sx: usize = 0;
                while sx < w
                    invariant
                        0 <= sx <= w,
                        0 <= sy < h,
                        0 <= d < 4,
                        h == wall@.len(),
                        view == wall_view(wall@),
                        framed(view, h as int, w as int),
                        marks_framed(marks_view(marks@), h as int, w as int),
                        forall|a: int, b: int|
                            0 <= a < h && 0 <= b < w ==> #[trigger] marks_view(marks@)[a][b] == (
                            at_row[a][b] || row_over(
                                view,
                                word@,
                                d as int,
                                sy as int,
                                sx as int,
                                h as int,
                                w as int,
                                a,
                                b,
                            )),
                    decreases w - sx,
                {
                    let ghost at_place = marks_view(marks@);
                    mark_placement(wall, word, d, sy, sx, h, w, &mut marks);
                    proof {
                        assert forall|a: int, b: int| 0 <= a < h && 0 <= b < w implies #[trigger] marks_view(
                            marks@,
                        )[a][b] == (at_row[a][b] || row_over(
                            view,
                            word@,
                            d as int,
                            sy as int,
                            sx + 1,
                            h as int,
                            w as int,
                            a,
                            b,
                        )) by {
                            let now = placed_over(
                                view,
                                word@,
                                d as int,
                                sy as int,
                                sx as int,
                                h as int,
                                w as int,
                                a,
                                b,
                            );
                            assert(marks_view(marks@)[a][b] == (at_place[a][b] || now));
                            if row_over(view, word@, d as int, sy as int, sx + 1, h as int, w as int, a, b) {
                                let c = choose|c: int|
                                    0 <= c < sx + 1 && #[trigger] placed_over(
                                        view,
                                        word@,
                                        d as int,
                                        sy as int,
                                        c,
                                        h as int,
                                        w as int,
                                        a,
                                        b,
                                    );
                                if c < sx {
                                    assert(row_over(view, word@, d as int, sy as int, sx as int, h as int, w as int, a, b));
                                }
                            }
                            if row_over(view, word@, d as int, sy as int, sx as int, h as int, w as int, a, b) {
                                let c = choose|c: int|
                                    0 <= c < sx && #[trigger] placed_over(
                                        view,
                                        word@,
                                        d as int,
                                        sy as int,
                                        c,
                                        h as int,
                                        w as int,
                                        a,
                                        b,
                                    );
                                assert(0 <= c < sx + 1);
                            }
                        }
                    }
                    sx += 1;
                }
                proof {
                    assert forall|a: int, b: int| 0 <= a < h && 0 <= b < w implies #[trigger] marks_view(
                        marks@,
                    )[a][b] == (at_dir[a][b] || dir_over(
                        view,
                        word@,
                        d as int,
                        sy + 1,
                        h as int,
                        w as int,
                        a,
                        b,
                    )) by {
                        let now = row_over(view, word@, d as int, sy as int, w as int, h as int, w as int, a, b);
                        assert(marks_view(marks@)[a][b] == (at_row[a][b] || now));
                        if dir_over(view, word@, d as int, sy + 1, h as int, w as int, a, b) {
                            let c = choose|c: int|
                                0 <= c < sy + 1 && #[trigger] row_over(
                                    view,
                                    word@,
                                    d as int,
                                    c,
                                    w as int,
                                    h as int,
                                    w as int,
                                    a,
                                    b,
                                );
                            if c < sy {
                                assert(dir_over(view, word@, d as int, sy as int, h as int, w as int, a, b));
                            }
                        }
                        if dir_over(view, word@, d as int, sy as int, h as int, w as int, a, b) {
                            let c = choose|c: int|
                                0 <= c < sy && #[trigger] row_over(
                                    view,
                                    word@,
                                    d as int,
                                    c,
                                    w as int,
                                    h as int,
                                    w as int,
                                    a,
                                    b,
                                );
                            assert(0 <= c < sy + 1);
                        }
                    }
                }
                sy += 1;
            }
            proof {
                assert forall|a: int, b: int| 0 <= a < h && 0 <= b < w implies #[trigger] marks_view(
                    marks@,
                )[a][b] == (at_word[a][b] || word_over(view, word@, d + 1, h as int, w as int, a, b)) by {
                    let now = dir_over(view, word@, d as int, h as int, h as int, w as int, a, b);
                    assert(marks_view(marks@)[a][b] == (at_dir[a][b] || now));
                    if word_over(view, word@, d + 1, h as int, w as int, a, b) {
                        let c = choose|c: int|
                            0 <= c < d + 1 && #[trigger] dir_over(view, word@, c, h as int, h as int, w as int, a, b);
                        if c < d {
                            assert(word_over(view, word@, d as int, h as int, w as int, a, b));
                        }
                    }
                    if word_over(view, word@, d as int, h as int, w as int, a, b) {
                        let c = choose|c: int|
                            0 <= c < d && #[trigger] dir_over(view, word@, c, h as int, h as int, w as int, a, b);
                        assert(0 <= c < d + 1);
                    }
                }
            }
            d += 1;
        }
        proof {
            assert forall|a: int, b: int| 0 <= a < h && 0 <= b < w implies #[trigger] marks_view(
                marks@,
            )[a][b] == scale_under(view, listed, k + 1, h as int, w as int, a, b) by {
                let now = word_over(view, word@, 4, h as int, w as int, a, b);
                assert(marks_view(marks@)[a][b] == (at_word[a][b] || now));
                if scale_under(view, listed, k + 1, h as int, w as int, a, b) {
                    let c = choose|c: int|
                        0 <= c < k + 1 && #[trigger] word_over(view, listed[c], 4, h as int, w as int, a, b);
                    if c < k {
                        assert(scale_under(view, listed, k as int, h as int, w as int, a, b));
                    }
                }
                if scale_under(view, listed, k as int, h as int, w as int, a, b) {
                    let c = choose|c: int|
                        0 <= c < k && #[trigger] word_over(view, listed[c], 4, h as int, w as int, a, b);
                    assert(0 <= c < k + 1);
                }
                if now {
                    assert(word_over(view, listed[k as int], 4, h as int, w as int, a, b));
                }
            }
        }
        k += 1;
    }
    Some(marks)
}

/// The marks counted grow with the places counted.
pub proof fn lemma_marked_count_grows(marks: Seq<Seq<bool>>, w: int, y: nat, x: nat, upto_y: nat)
    requires
        y < upto_y || (y == upto_y && x == 0),
        x <= w,
        w >= 0,
    ensures
        marked_count(marks, w, y, x) <= marked_count(marks, w, upto_y, 0),
    decreases upto_y - y, w - x,
{
    if y < upto_y {
        if x < w {
            lemma_marked_count_grows(marks, w, y, x + 1, upto_y);
        } else {
            lemma_marked_count_grows(marks, w, y + 1, 0, upto_y);
        }
    }
}

/// The number of marked places; `None` when it leaves the machine word.
pub fn count_marks(marks: &Vec<Vec<bool>>, w: usize) -> (count: Option<usize>)
    requires
        marks_framed(marks_view(marks@), marks@.len() as int, w as int),
    ensures
        count == (if marked_count(marks_view(marks@), w as int, marks@.len(), 0) <= usize::MAX {
            Some(marked_count(marks_view(marks@), w as int, marks@.len(), 0) as usize)
        } else {
            None
        }),
{
    let ghost view = marks_view(marks@);
    let mut count: usize = 0;
    let mut y: usize = 0;
    while y < marks.len()
        invariant
            0 <= y <= marks.len(),
            view == marks_view(marks@),
            marks_framed(view, marks@.len() as int, w as int),
            count == marked_count(view, w as int, y as nat, 0),
        decreases marks.len() - y,
    {
        let row = &marks[y];
        assert(view[y as int] == row@);
        let mut x: usize = 0;
        while x < w
            invariant
                0 <= x <= w,
                0 <= y < marks.len(),
                view == marks_view(marks@),
                marks_framed(view, marks@.len() as int, w as int),
                view[y as int] == row@,
                count == marked_count(view, w as int, y as nat, x as nat),
            decreases w - x,
        {
            if row[x] {
                count = match count.checked_add(1) {
                    Some(c) => c,
                    None => {
                        proof {
                            lemma_marked_count_grows(
                                view,
                                w as int,
                                y as nat,
                                (x + 1) as nat,
                                view.len(),
                            );
                        }
                        return None;
                    },
                };
            }
            x += 1;
        }
        y += 1;
    }
    Some(count)
}

} // verus!
