//! Reading text: characters, pieces between separators, lines, numbers.

use vstd::prelude::*;

verus! {

broadcast use vstd::string::group_string_axioms;

/// `String::from_iter` on the characters of a vector: the text that is
/// made of exactly these characters.
#[verifier::external_body]
pub(crate) fn text_of(chars: &Vec<char>) -> (text: String)
    ensures
        text@ == chars@,
{
    String::from_iter(chars.iter())
}

/// A copy of a list.
pub fn copy_of<T: Copy>(items: &Vec<T>) -> (copy: Vec<T>)
    ensures
        copy@ == items@,
{
    let mut copy: Vec<T> = Vec::new();
    let mut i: usize = 0;
    while i < items.len()
        invariant
            0 <= i <= items.len(),
            copy@ == items@.take(i as int),
        decreases items.len() - i,
    {
        copy.push(items[i]);
        assert(copy@ =~= items@.take(i + 1));
        i += 1;
    }
    assert(copy@ =~= items@);
    copy
}

/// The characters of a text.
pub fn chars_of(s: &str) -> (out: Vec<char>)
    ensures
        out@ == s@,
{
    let mut out: Vec<char> = Vec::new();
    for c in it: s.chars()
        invariant
            it.seq() == s@,
            out@ == it.seq().take(it.index() as int),
    {
        out.push(c);
        assert(out@ =~= it.seq().take(it.index() + 1));
    }
    assert(out@ =~= s@);
    out
}

/// The pieces of `s` between the separators: one more than there are
/// separators, some of them possibly empty.
pub open spec fn split(s: Seq<char>, sep: char) -> Seq<Seq<char>>
    decreases s.len(),
{
    if s.len() == 0 {
        seq![Seq::<char>::empty()]
    } else {
        let before = split(s.drop_last(), sep);
        if s.last() == sep {
            before.push(Seq::<char>::empty())
        } else {
            before.update(before.len() - 1, before.last().push(s.last()))
        }
    }
}

/// There is always at least one piece.
pub proof fn lemma_split_some(s: Seq<char>, sep: char)
    ensures
        split(s, sep).len() >= 1,
    decreases s.len(),
{
    if s.len() > 0 {
        lemma_split_some(s.drop_last(), sep);
    }
}

/// The views of a list of pieces.
pub open spec fn pieces_view(pieces: Seq<Vec<char>>) -> Seq<Seq<char>> {
    Seq::new(pieces.len(), |k: int| pieces[k]@)
}

/// Cuts `chars` at every `sep`.
pub fn split_at_each(chars: &Vec<char>, sep: char) -> (pieces: Vec<Vec<char>>)
    ensures
        pieces_view(pieces@) == split(chars@, sep),
        pieces@.len() >= 1,
{
    let mut pieces: Vec<Vec<char>> = Vec::new();
    let mut current: Vec<char> = Vec::new();
    let mut i: usize = 0;
    while i < chars.len()
        invariant
            0 <= i <= chars.len(),
            pieces_view(pieces@).push(current@) == split(chars@.take(i as int), sep),
        decreases chars.len() - i,
    {
        let c = chars[i];
        proof {
            let next = chars@.take(i + 1);
            assert(next.drop_last() =~= chars@.take(i as int));
            assert(next.last() == c);
        }
        let ghost before = pieces_view(pieces@).push(current@);
        if c == sep {
            pieces.push(current);
            current = Vec::new();
            assert(pieces_view(pieces@).push(current@) =~= before.push(Seq::<char>::empty()));
        } else {
            current.push(c);
            assert(pieces_view(pieces@).push(current@) =~= before.update(
                before.len() - 1,
                before.last().push(c),
            ));
        }
        i += 1;
    }
    assert(chars@.take(i as int) =~= chars@);
    let ghost before = pieces_view(pieces@).push(current@);
    pieces.push(current);
    assert(pieces_view(pieces@) =~= before);
    pieces
}

/// A line without the carriage return that may end it.
pub open spec fn without_return(line: Seq<char>) -> Seq<char> {
    if line.len() > 0 && line.last() == '\r' {
        line.drop_last()
    } else {
        line
    }
}

/// The lines of a text: the pieces between line feeds, without a last
/// piece that is empty, and each without a carriage return at its end.
pub open spec fn lines(s: Seq<char>) -> Seq<Seq<char>> {
    let pieces = split(s, '\n');
    let kept = if pieces.last().len() == 0 {
        pieces.drop_last()
    } else {
        pieces
    };
    Seq::new(kept.len(), |k: int| without_return(kept[k]))
}

/// Cuts `chars` into lines.
pub fn lines_of(chars: &Vec<char>) -> (out: Vec<Vec<char>>)
    ensures
        pieces_view(out@) == lines(chars@),
{
    let mut pieces = split_at_each(chars, '\n');
    let ghost all = pieces_view(pieces@);
    if pieces[pieces.len() - 1].len() == 0 {
        pieces.pop();
    }
    let ghost kept = pieces_view(pieces@);
    assert(kept =~= (if all.last().len() == 0 {
        all.drop_last()
    } else {
        all
    }));
    let mut out: Vec<Vec<char>> = Vec::new();
    let mut k: usize = 0;
    while k < pieces.len()
        invariant
            0 <= k <= pieces.len(),
            kept == pieces_view(pieces@),
            out@.len() == k,
            forall|j: int| 0 <= j < k ==> (#[trigger] out@[j])@ == without_return(kept[j]),
        decreases pieces.len() - k,
    {
        let piece = &pieces[k];
        let mut line: Vec<char> = Vec::new();
        let keep = if piece.len() > 0 && piece[piece.len() - 1] == '\r' {
            piece.len() - 1
        } else {
            piece.len()
        };
        let mut j: usize = 0;
        while j < keep
            invariant
                0 <= j <= keep <= piece.len(),
                line@ == piece@.take(j as int),
            decreases keep - j,
        {
            line.push(piece[j]);
            assert(line@ =~= piece@.take(j + 1));
            j += 1;
        }
        assert(line@ =~= without_return(kept[k as int])) by {
            assert(kept[k as int] == piece@);
            assert(piece@.take(piece@.len() as int) =~= piece@);
            assert(piece@.take(piece@.len() - 1) =~= piece@.drop_last());
        }
        out.push(line);
        k += 1;
    }
    assert(pieces_view(out@) =~= lines(chars@));
    out
}

/// The character is one of the ten digits.
pub open spec fn is_digit(c: char) -> bool {
    48 <= c as u32 <= 57
}

/// Every character is a digit.
pub open spec fn all_digits(s: Seq<char>) -> bool {
    forall|k: int| 0 <= k < s.len() ==> is_digit(#[trigger] s[k])
}

/// The number that a run of digits spells.
pub open spec fn digits_value(s: Seq<char>) -> nat
    decreases s.len(),
{
    if s.len() == 0 {
        0
    } else {
        digits_value(s.drop_last()) * 10 + (s.last() as u32 - 48) as nat
    }
}

/// The number that `s` spells: digits, at least one, with a plus sign in
/// front if wanted.
pub open spec fn number(s: Seq<char>) -> Option<nat> {
    let body = if s.len() > 0 && s[0] == '+' {
        s.drop_first()
    } else {
        s
    };
    if body.len() > 0 && all_digits(body) {
        Some(digits_value(body))
    } else {
        None
    }
}

/// More digits behind never spell a smaller number.
pub proof fn lemma_digits_prefix(s: Seq<char>, n: int)
    requires
        0 <= n <= s.len(),
        all_digits(s),
    ensures
        digits_value(s.take(n)) <= digits_value(s),
    decreases s.len(),
{
    if n < s.len() {
        let head = s.drop_last();
        assert(all_digits(head)) by {
            assert forall|k: int| 0 <= k < head.len() implies is_digit(#[trigger] head[k]) by {
                assert(head[k] == s[k]);
            }
        }
        lemma_digits_prefix(head, n);
        assert(head.take(n) =~= s.take(n));
        assert(is_digit(s[s.len() - 1]));
    } else {
        assert(s.take(n) =~= s);
    }
}

/// Reads the number that `chars` spells; `None` when it spells none or the
/// number does not fit in 64 bits.
pub fn parse_number(chars: &Vec<char>) -> (read: Option<u64>)
    ensures
        read == (match number(chars@) {
            Some(v) => if v <= u64::MAX {
                Some(v as u64)
            } else {
                None
            },
            None => None,
        }),
{
    let start: usize = if chars.len() > 0 && chars[0] == '+' {
        1
    } else {
        0
    };
    let ghost body = if start == 1 {
        chars@.drop_first()
    } else {
        chars@
    };
    if start == chars.len() {
        return None;
    }
    assert(body =~= chars@.skip(start as int));
    let mut acc: u64 = 0;
    let mut i: usize = start;
    while i < chars.len()
        invariant
            start <= i <= chars.len(),
            body == chars@.skip(start as int),
            body.len() > 0,
            body == (if chars@.len() > 0 && chars@[0] == '+' {
                chars@.drop_first()
            } else {
                chars@
            }),
            all_digits(body.take(i - start)),
            acc == digits_value(body.take(i - start)),
        decreases chars.len() - i,
    {
        let c = chars[i];
        let code = c as u32;
        let ghost next = body.take(i - start + 1);
        proof {
            assert(next.drop_last() =~= body.take(i - start));
            assert(next.last() == c);
        }
        if code < 48 || code > 57 {
            assert(!is_digit(body[i - start]));
            return None;
        }
        assert(all_digits(next)) by {
            assert forall|k: int| 0 <= k < next.len() implies is_digit(#[trigger] next[k]) by {
                if k < i - start {
                    assert(next[k] == body.take(i - start)[k]);
                }
            }
        }
        let digit = (code - 48) as u64;
        let grown = match acc.checked_mul(10) {
            Some(t) => t.checked_add(digit),
            None => None,
        };
        match grown {
            Some(t) => {
                acc = t;
            },
            None => {
                proof {
                    if all_digits(body) {
                        lemma_digits_prefix(body, i - start + 1);
                    }
                }
                return None;
            },
        }
        i += 1;
    }
    assert(body.take(i - start) =~= body);
    Some(acc)
}

/// The number that `s` spells, if it fits in a machine word.
pub open spec fn word(s: Seq<char>) -> Option<usize> {
    match number(s) {
        Some(v) => if v <= usize::MAX {
            Some(v as usize)
        } else {
            None
        },
        None => None,
    }
}

/// Reads the number that `chars` spells; `None` when it spells none or the
/// number does not fit in a machine word.
pub fn parse_word(chars: &Vec<char>) -> (read: Option<usize>)
    ensures
        read == word(chars@),
{
    match parse_number(chars) {
        Some(v) => {
            if v <= usize::MAX as u64 {
                Some(v as usize)
            } else {
                None
            }
        },
        None => None,
    }
}

/// The numbers that the rows spell, if every row spells one.
pub open spec fn words(rows: Seq<Seq<char>>) -> Option<Seq<usize>> {
    if forall|k: int| 0 <= k < rows.len() ==> word(#[trigger] rows[k]) is Some {
        Some(Seq::new(rows.len(), |k: int| word(rows[k]).unwrap()))
    } else {
        None
    }
}

/// Reads one number from every row; `None` when some row spells none.
pub fn parse_words_of(rows: &Vec<Vec<char>>) -> (read: Option<Vec<usize>>)
    ensures
        match read {
            Some(v) => words(pieces_view(rows@)) == Some(v@),
            None => words(pieces_view(rows@)).is_none(),
        },
{
    let mut out: Vec<usize> = Vec::new();
    let ghost views = pieces_view(rows@);
    let mut k: usize = 0;
    while k < rows.len()
        invariant
            0 <= k <= rows.len(),
            views == pieces_view(rows@),
            out@.len() == k,
            forall|j: int| 0 <= j < k ==> word(#[trigger] views[j]) == Some(out@[j]),
        decreases rows.len() - k,
    {
        match parse_word(&rows[k]) {
            Some(v) => {
                out.push(v);
            },
            None => {
                assert(word(views[k as int]).is_none());
                return None;
            },
        }
        k += 1;
    }
    assert(out@ =~= Seq::new(views.len(), |k: int| word(views[k]).unwrap()));
    Some(out)
}

/// The whole number that `s` spells: a number, with a minus sign in front
/// if wanted.
pub open spec fn integer(s: Seq<char>) -> Option<int> {
    if s.len() > 0 && s[0] == '-' {
        let body = s.drop_first();
        if body.len() > 0 && all_digits(body) {
            Some(-(digits_value(body) as int))
        } else {
            None
        }
    } else {
        match number(s) {
            Some(v) => Some(v as int),
            None => None,
        }
    }
}

/// Reads the whole number that `chars` spells; `None` when it spells none
/// or the number does not fit in 64 bits.
pub fn parse_integer(chars: &Vec<char>) -> (read: Option<i64>)
    ensures
        read == (match integer(chars@) {
            Some(v) => if i64::MIN <= v <= i64::MAX {
                Some(v as i64)
            } else {
                None
            },
            None => None,
        }),
{
    if chars.len() > 0 && chars[0] == '-' {
        if chars.len() > 1 && chars[1] == '+' {
            assert(!is_digit(chars@.drop_first()[0]));
            return None;
        }
        let mut body: Vec<char> = Vec::new();
        let mut i: usize = 1;
        while i < chars.len()
            invariant
                1 <= i <= chars.len(),
                body@ == chars@.subrange(1, i as int),
            decreases chars.len() - i,
        {
            body.push(chars[i]);
            assert(body@ =~= chars@.subrange(1, i + 1));
            i += 1;
        }
        assert(body@ =~= chars@.drop_first());
        match parse_number(&body) {
            Some(size) => {
                if size <= 0x7fff_ffff_ffff_ffff {
                    Some(-(size as i64))
                } else if size == 0x8000_0000_0000_0000 {
                    Some(i64::MIN)
                } else {
                    None
                }
            },
            None => None,
        }
    } else {
        match parse_number(chars) {
            Some(size) => {
                if size <= 0x7fff_ffff_ffff_ffff {
                    Some(size as i64)
                } else {
                    None
                }
            },
            None => None,
        }
    }
}

/// The character is blank: a space, a tab, a line feed or a carriage return.
pub open spec fn is_blank(c: char) -> bool {
    c == ' ' || c == '\t' || c == '\n' || c == '\r'
}

/// The text without the blanks at its end.
pub open spec fn trim_end(s: Seq<char>) -> Seq<char>
    decreases s.len(),
{
    if s.len() > 0 && is_blank(s.last()) {
        trim_end(s.drop_last())
    } else {
        s
    }
}

/// The text without the blanks at its start.
pub open spec fn trim_start(s: Seq<char>) -> Seq<char>
    decreases s.len(),
{
    if s.len() > 0 && is_blank(s[0]) {
        trim_start(s.drop_first())
    } else {
        s
    }
}

/// The text without the blanks at its start and at its end.
pub open spec fn trim(s: Seq<char>) -> Seq<char> {
    trim_start(trim_end(s))
}

/// Whether the character is blank.
pub fn blank(c: char) -> (yes: bool)
    ensures
        yes == is_blank(c),
{
    c == ' ' || c == '\t' || c == '\n' || c == '\r'
}

/// The characters without the blanks at their start and at their end.
pub fn trimmed(chars: &Vec<char>) -> (out: Vec<char>)
    ensures
        out@ == trim(chars@),
{
    let mut end: usize = chars.len();
    assert(chars@.take(end as int) =~= chars@);
    while end > 0 && blank(chars[end - 1])
        invariant
            0 <= end <= chars.len(),
            trim_end(chars@) == trim_end(chars@.take(end as int)),
        decreases end,
    {
        assert(chars@.take(end as int).drop_last() =~= chars@.take(end - 1));
        end -= 1;
    }
    let ghost kept = chars@.take(end as int);
    assert(trim_end(chars@) == kept);
    assert(kept.skip(0) =~= kept);
    let mut start: usize = 0;
    while start < end && blank(chars[start])
        invariant
            0 <= start <= end <= chars.len(),
            kept == chars@.take(end as int),
            trim_start(kept) == trim_start(kept.skip(start as int)),
        decreases end - start,
    {
        assert(kept.skip(start as int).drop_first() =~= kept.skip(start + 1));
        start += 1;
    }
    assert(kept.skip(0) =~= kept);
    let mut out: Vec<char> = Vec::new();
    let mut i: usize = start;
    while i < end
        invariant
            start <= i <= end <= chars.len(),
            out@ == chars@.subrange(start as int, i as int),
        decreases end - i,
    {
        out.push(chars[i]);
        assert(out@ =~= chars@.subrange(start as int, i + 1));
        i += 1;
    }
    assert(out@ =~= kept.skip(start as int));
    out
}

/// The text from place `from` up to place `to`.
pub fn slice_of(chars: &Vec<char>, from: usize, to: usize) -> (out: Vec<char>)
    requires
        from <= to <= chars.len(),
    ensures
        out@ == chars@.subrange(from as int, to as int),
{
    let mut out: Vec<char> = Vec::new();
    let mut i: usize = from;
    while i < to
        invariant
            from <= i <= to <= chars.len(),
            out@ == chars@.subrange(from as int, i as int),
        decreases to - i,
    {
        out.push(chars[i]);
        assert(out@ =~= chars@.subrange(from as int, i + 1));
        i += 1;
    }
    out
}

/// The first place of `s` that holds `sep`.
pub open spec fn first_place(s: Seq<char>, sep: char) -> Option<int>
    decreases s.len(),
{
    if s.len() == 0 {
        None
    } else {
        match first_place(s.drop_last(), sep) {
            Some(i) => Some(i),
            None => if s.last() == sep {
                Some(s.len() - 1)
            } else {
                None
            },
        }
    }
}

/// Once a place is found it stays the first.
pub proof fn lemma_first_place_stays(s: Seq<char>, sep: char, n: int)
    requires
        0 <= n <= s.len(),
        first_place(s.take(n), sep) is Some,
    ensures
        first_place(s, sep) == first_place(s.take(n), sep),
    decreases s.len(),
{
    if n < s.len() {
        assert(s.drop_last().take(n) =~= s.take(n));
        lemma_first_place_stays(s.drop_last(), sep, n);
    } else {
        assert(s.take(n) =~= s);
    }
}

/// The text before and the text after the first `sep`, if there is one.
pub open spec fn split_once(s: Seq<char>, sep: char) -> Option<(Seq<char>, Seq<char>)> {
    match first_place(s, sep) {
        Some(i) => Some((s.take(i), s.skip(i + 1))),
        None => None,
    }
}

/// Cuts the text at the first `sep`.
pub fn split_once_at(chars: &Vec<char>, sep: char) -> (parts: Option<(Vec<char>, Vec<char>)>)
    ensures
        match parts {
            Some((before, after)) => split_once(chars@, sep) == Some((before@, after@)),
            None => split_once(chars@, sep).is_none(),
        },
{
    let mut i: usize = 0;
    while i < chars.len()
        invariant
            0 <= i <= chars.len(),
            first_place(chars@.take(i as int), sep).is_none(),
        decreases chars.len() - i,
    {
        proof {
            assert(chars@.take(i + 1).drop_last() =~= chars@.take(i as int));
        }
        if chars[i] == sep {
            proof {
                lemma_first_place_stays(chars@, sep, i + 1);
            }
            let before = slice_of(chars, 0, i);
            let after = slice_of(chars, i + 1, chars.len());
            assert(before@ =~= chars@.take(i as int));
            assert(after@ =~= chars@.skip(i + 1));
            return Some((before, after));
        }
        i += 1;
    }
    assert(chars@.take(i as int) =~= chars@);
    None
}

/// The text without `prefix` in front, if it begins with it.
pub open spec fn strip_prefix(s: Seq<char>, prefix: Seq<char>) -> Option<Seq<char>> {
    if prefix.len() <= s.len() && s.take(prefix.len() as int) == prefix {
        Some(s.skip(prefix.len() as int))
    } else {
        None
    }
}

/// The text without `suffix` at its end, if it ends with it.
pub open spec fn strip_suffix(s: Seq<char>, suffix: Seq<char>) -> Option<Seq<char>> {
    if suffix.len() <= s.len() && s.skip(s.len() - suffix.len()) == suffix {
        Some(s.take(s.len() - suffix.len()))
    } else {
        None
    }
}

/// Whether two texts are the same.
pub fn same_text(a: &Vec<char>, b: &Vec<char>) -> (same: bool)
    ensures
        same == (a@ == b@),
{
    if a.len() != b.len() {
        return false;
    }
    let same = same_run(a, 0, b, 0, a.len());
    assert(a@.subrange(0, a@.len() as int) =~= a@);
    assert(b@.subrange(0, b@.len() as int) =~= b@);
    same
}

/// Whether two texts are the same from given places on, for `len` places.
fn same_run(a: &Vec<char>, from_a: usize, b: &Vec<char>, from_b: usize, len: usize) -> (same: bool)
    requires
        from_a + len <= a.len(),
        from_b + len <= b.len(),
    ensures
        same == (a@.subrange(from_a as int, from_a + len) == b@.subrange(
            from_b as int,
            from_b + len,
        )),
{
    let mut i: usize = 0;
    while i < len
        invariant
            0 <= i <= len,
            from_a + len <= a.len(),
            from_b + len <= b.len(),
            forall|j: int|
                0 <= j < i ==> #[trigger] a@.subrange(from_a as int, from_a + len)[j]
                    == b@.subrange(from_b as int, from_b + len)[j],
        decreases len - i,
    {
        if a[from_a + i] != b[from_b + i] {
            assert(a@.subrange(from_a as int, from_a + len)[i as int] != b@.subrange(
                from_b as int,
                from_b + len,
            )[i as int]);
            return false;
        }
        i += 1;
    }
    assert(a@.subrange(from_a as int, from_a + len) =~= b@.subrange(from_b as int, from_b + len));
    true
}

/// Takes `prefix` off the front of the text.
pub fn without_prefix(chars: &Vec<char>, prefix: &str) -> (rest: Option<Vec<char>>)
    ensures
        match rest {
            Some(r) => strip_prefix(chars@, prefix@) == Some(r@),
            None => strip_prefix(chars@, prefix@).is_none(),
        },
{
    let pre = chars_of(prefix);
    if pre.len() > chars.len() {
        return None;
    }
    if same_run(chars, 0, &pre, 0, pre.len()) {
        assert(pre@.subrange(0, pre@.len() as int) =~= pre@);
        assert(chars@.subrange(0, pre@.len() as int) =~= chars@.take(pre@.len() as int));
        let rest = slice_of(chars, pre.len(), chars.len());
        assert(rest@ =~= chars@.skip(pre@.len() as int));
        Some(rest)
    } else {
        assert(pre@.subrange(0, pre@.len() as int) =~= pre@);
        assert(chars@.subrange(0, pre@.len() as int) =~= chars@.take(pre@.len() as int));
        None
    }
}

/// Takes `suffix` off the end of the text.
pub fn without_suffix(chars: &Vec<char>, suffix: &str) -> (rest: Option<Vec<char>>)
    ensures
        match rest {
            Some(r) => strip_suffix(chars@, suffix@) == Some(r@),
            None => strip_suffix(chars@, suffix@).is_none(),
        },
{
    let suf = chars_of(suffix);
    if suf.len() > chars.len() {
        return None;
    }
    let from = chars.len() - suf.len();
    assert(suf@.subrange(0, suf@.len() as int) =~= suf@);
    assert(chars@.subrange(from as int, from + suf@.len()) =~= chars@.skip(from as int));
    if same_run(chars, from, &suf, 0, suf.len()) {
        let rest = slice_of(chars, 0, from);
        assert(rest@ =~= chars@.take(from as int));
        Some(rest)
    } else {
        None
    }
}

/// The fields found so far and the field being read, after the text `s`.
pub open spec fn field_scan(s: Seq<char>) -> (Seq<Seq<char>>, Seq<char>)
    decreases s.len(),
{
    if s.len() == 0 {
        (Seq::empty(), Seq::empty())
    } else {
        let (done, current) = field_scan(s.drop_last());
        if is_blank(s.last()) {
            if current.len() > 0 {
                (done.push(current), Seq::empty())
            } else {
                (done, Seq::empty())
            }
        } else {
            (done, current.push(s.last()))
        }
    }
}

/// The fields of a text: the runs of characters between blanks.
pub open spec fn fields(s: Seq<char>) -> Seq<Seq<char>> {
    let (done, current) = field_scan(s);
    if current.len() > 0 {
        done.push(current)
    } else {
        done
    }
}

/// Cuts the text into its fields.
pub fn fields_of(chars: &Vec<char>) -> (out: Vec<Vec<char>>)
    ensures
        pieces_view(out@) == fields(chars@),
{
    let mut out: Vec<Vec<char>> = Vec::new();
    let mut current: Vec<char> = Vec::new();
    let mut i: usize = 0;
    assert(pieces_view(out@) =~= Seq::<Seq<char>>::empty());
    while i < chars.len()
        invariant
            0 <= i <= chars.len(),
            field_scan(chars@.take(i as int)) == (pieces_view(out@), current@),
        decreases chars.len() - i,
    {
        let c = chars[i];
        proof {
            let next = chars@.take(i + 1);
            assert(next.drop_last() =~= chars@.take(i as int));
            assert(next.last() == c);
        }
        let ghost done = pieces_view(out@);
        let ghost field = current@;
        if blank(c) {
            if current.len() > 0 {
                out.push(current);
                current = Vec::new();
                assert(pieces_view(out@) =~= done.push(field));
            }
        } else {
            current.push(c);
        }
        i += 1;
    }
    assert(chars@.take(i as int) =~= chars@);
    let ghost done = pieces_view(out@);
    let ghost field = current@;
    if current.len() > 0 {
        out.push(current);
        assert(pieces_view(out@) =~= done.push(field));
    }
    out
}

/// The first place among the first `upto` where an empty line begins:
/// a line feed with a line feed behind it.
pub open spec fn first_gap(s: Seq<char>, upto: nat) -> Option<int>
    decreases upto,
{
    if upto == 0 {
        None
    } else {
        match first_gap(s, (upto - 1) as nat) {
            Some(i) => Some(i),
            None => if upto < s.len() && s[upto - 1] == '\n' && s[upto as int] == '\n' {
                Some(upto - 1)
            } else {
                None
            },
        }
    }
}

/// Once a gap is found it stays the first.
pub proof fn lemma_first_gap_stays(s: Seq<char>, from: nat, upto: nat)
    requires
        from <= upto,
        first_gap(s, from) is Some,
    ensures
        first_gap(s, upto) == first_gap(s, from),
    decreases upto,
{
    if from < upto {
        lemma_first_gap_stays(s, from, (upto - 1) as nat);
    }
}

/// The text before and the text after the first empty line.
pub open spec fn split_at_gap(s: Seq<char>) -> Option<(Seq<char>, Seq<char>)> {
    match first_gap(s, s.len()) {
        Some(i) => Some((s.take(i), s.skip(i + 2))),
        None => None,
    }
}

/// Cuts the text at its first empty line.
pub fn cut_at_gap(chars: &Vec<char>) -> (parts: Option<(Vec<char>, Vec<char>)>)
    ensures
        match parts {
            Some((before, after)) => split_at_gap(chars@) == Some((before@, after@)),
            None => split_at_gap(chars@).is_none(),
        },
{
    let mut i: usize = 0;
    while i < chars.len()
        invariant
            0 <= i <= chars.len(),
            first_gap(chars@, i as nat).is_none(),
        decreases chars.len() - i,
    {
        if chars.len() - i > 1 && chars[i] == '\n' && chars[i + 1] == '\n' {
            proof {
                assert(first_gap(chars@, (i + 1) as nat) == Some(i as int));
                lemma_first_gap_stays(chars@, (i + 1) as nat, chars@.len());
            }
            let before = slice_of(chars, 0, i);
            let after = slice_of(chars, i + 2, chars.len());
            assert(before@ =~= chars@.take(i as int));
            assert(after@ =~= chars@.skip(i + 2));
            return Some((before, after));
        }
        i += 1;
    }
    None
}

/// What is left of `a` on division by `m`, never negative.
pub fn rem_euclid(a: i64, m: i64) -> (r: i64)
    requires
        m > 0,
    ensures
        r == a as int % m as int,
        0 <= r < m,
{
    if a >= 0 {
        a % m
    } else {
        let size: u64 = if a == i64::MIN {
            0x8000_0000_0000_0000
        } else {
            (-a) as u64
        };
        let t: u64 = size % (m as u64);
        proof {
            vstd::arithmetic::div_mod::lemma_fundamental_div_mod(size as int, m as int);
            let q = size as int / m as int;
            if t == 0 {
                assert(a as int == (-q) * m + 0) by (nonlinear_arith)
                    requires
                        size as int == m * q + 0,
                        a as int == -(size as int),
                ;
                vstd::arithmetic::div_mod::lemma_fundamental_div_mod_converse(
                    a as int,
                    m as int,
                    -q,
                    0,
                );
            } else {
                assert(a as int == (-q - 1) * m + (m - t)) by (nonlinear_arith)
                    requires
                        size as int == m * q + t,
                        a as int == -(size as int),
                ;
                vstd::arithmetic::div_mod::lemma_fundamental_div_mod_converse(
                    a as int,
                    m as int,
                    -q - 1,
                    m - t,
                );
            }
        }
        if t == 0 {
            0
        } else {
            m - t as i64
        }
    }
}

/// The pattern stands in the text from place `i` on.
pub open spec fn holds_at(s: Seq<char>, i: int, pattern: Seq<char>) -> bool {
    0 <= i && i + pattern.len() <= s.len() && s.subrange(i, i + pattern.len()) == pattern
}

/// The first of the first `upto` places from which on the pattern stands.
pub open spec fn first_match(s: Seq<char>, pattern: Seq<char>, upto: nat) -> Option<int>
    decreases upto,
{
    if upto == 0 {
        None
    } else {
        match first_match(s, pattern, (upto - 1) as nat) {
            Some(i) => Some(i),
            None => if holds_at(s, upto - 1, pattern) {
                Some(upto - 1)
            } else {
                None
            },
        }
    }
}

/// Once a match is found it stays the first.
pub proof fn lemma_first_match_stays(s: Seq<char>, pattern: Seq<char>, from: nat, upto: nat)
    requires
        from <= upto,
        first_match(s, pattern, from) is Some,
    ensures
        first_match(s, pattern, upto) == first_match(s, pattern, from),
    decreases upto,
{
    if from < upto {
        lemma_first_match_stays(s, pattern, from, (upto - 1) as nat);
    }
}

/// The text before and the text after the first place where the
/// pattern stands.
pub open spec fn split_once_text(s: Seq<char>, pattern: Seq<char>) -> Option<(Seq<char>, Seq<char>)> {
    match first_match(s, pattern, s.len() + 1) {
        Some(i) => Some((s.take(i), s.skip(i + pattern.len()))),
        None => None,
    }
}

/// Cuts the text at the first place where the pattern stands.
pub fn cut_at_text(chars: &Vec<char>, pattern: &str) -> (parts: Option<(Vec<char>, Vec<char>)>)
    ensures
        match parts {
            Some((before, after)) => split_once_text(chars@, pattern@) == Some(
                (before@, after@),
            ),
            None => split_once_text(chars@, pattern@).is_none(),
        },
{
    let pat = chars_of(pattern);
    if pat.len() > chars.len() {
        proof {
            lemma_no_match(chars@, pat@, chars@.len() + 1);
        }
        return None;
    }
    let last = chars.len() - pat.len();
    let mut i: usize = 0;
    loop
        invariant
            0 <= i <= last,
            pat@ == pattern@,
            last + pat@.len() == chars@.len(),
            chars@.len() <= usize::MAX,
            first_match(chars@, pat@, i as nat).is_none(),
        decreases last - i,
    {
        proof {
            assert(pat@.subrange(0, pat@.len() as int) =~= pat@);
        }
        if same_run(chars, i, &pat, 0, pat.len()) {
            proof {
                assert(holds_at(chars@, i as int, pat@));
                assert(first_match(chars@, pat@, (i + 1) as nat) == Some(i as int));
                lemma_first_match_stays(chars@, pat@, (i + 1) as nat, chars@.len() + 1);
            }
            let before = slice_of(chars, 0, i);
            let after = slice_of(chars, i + pat.len(), chars.len());
            assert(before@ =~= chars@.take(i as int));
            assert(after@ =~= chars@.skip(i + pat@.len()));
            return Some((before, after));
        }
        proof {
            assert(!holds_at(chars@, i as int, pat@));
        }
        if i == last {
            proof {
                lemma_no_late_match(chars@, pat@, (last + 1) as nat, chars@.len() + 1);
            }
            return None;
        }
        i += 1;
    }
}

/// A pattern longer than the text stands nowhere in it.
pub proof fn lemma_no_match(s: Seq<char>, pattern: Seq<char>, upto: nat)
    requires
        pattern.len() > s.len(),
    ensures
        first_match(s, pattern, upto).is_none(),
    decreases upto,
{
    if upto > 0 {
        lemma_no_match(s, pattern, (upto - 1) as nat);
    }
}

/// The pattern cannot begin where too little of the text is left.
pub proof fn lemma_no_late_match(s: Seq<char>, pattern: Seq<char>, from: nat, upto: nat)
    requires
        from <= upto,
        from + pattern.len() > s.len(),
        first_match(s, pattern, from).is_none(),
    ensures
        first_match(s, pattern, upto).is_none(),
    decreases upto,
{
    if from < upto {
        lemma_no_late_match(s, pattern, from, (upto - 1) as nat);
    }
}

} // verus!
