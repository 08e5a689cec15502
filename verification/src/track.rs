//! Tracks drawn as text: a rectangle whose sides are read round once, or
//! a winding line that is followed from the corner until it comes to the
//! start.

use crate::point::{fits_i32, Point};
use crate::race::Segment;
use crate::text::{blank, chars_of, is_blank, lines, lines_of, pieces_view, slice_of};
use vstd::prelude::*;

verus! {

/// The segment that a character stands for.
pub open spec fn segment_of(c: char) -> Option<Segment> {
    if c == '+' {
        Some(Segment::Plus)
    } else if c == '-' {
        Some(Segment::Minus)
    } else if c == '=' {
        Some(Segment::Equal)
    } else if c == 'S' {
        Some(Segment::S)
    } else {
        None
    }
}

/// Reads one segment.
pub fn read_segment(c: char) -> (segment: Option<Segment>)
    ensures
        segment == segment_of(c),
{
    if c == '+' {
        Some(Segment::Plus)
    } else if c == '-' {
        Some(Segment::Minus)
    } else if c == '=' {
        Some(Segment::Equal)
    } else if c == 'S' {
        Some(Segment::S)
    } else {
        None
    }
}

/// The segments that the characters stand for, if each stands for one.
pub open spec fn segments_of(chars: Seq<char>) -> Option<Seq<Segment>> {
    if forall|k: int| 0 <= k < chars.len() ==> segment_of(#[trigger] chars[k]) is Some {
        Some(Seq::new(chars.len(), |k: int| segment_of(chars[k]).unwrap()))
    } else {
        None
    }
}

/// Reads segments, one from each character.
pub fn read_segments(chars: &Vec<char>) -> (track: Option<Vec<Segment>>)
    ensures
        match track {
            Some(t) => segments_of(chars@) == Some(t@),
            None => segments_of(chars@).is_none(),
        },
{
    let mut out: Vec<Segment> = Vec::new();
    let mut k: usize = 0;
    while k < chars.len()
        invariant
            0 <= k <= chars.len(),
            out@.len() == k,
            forall|j: int| 0 <= j < k ==> segment_of(#[trigger] chars@[j]) == Some(out@[j]),
        decreases chars.len() - k,
    {
        match read_segment(chars[k]) {
            Some(s) => {
                out.push(s);
            },
            None => {
                assert(segment_of(chars@[k as int]).is_none());
                return None;
            },
        }
        k += 1;
    }
    assert(out@ =~= Seq::new(chars@.len(), |k: int| segment_of(chars@[k]).unwrap()));
    Some(out)
}

/// The characters of a line that are not blank, in their order.
pub open spec fn solid(line: Seq<char>) -> Seq<char>
    decreases line.len(),
{
    if line.len() == 0 {
        line
    } else if is_blank(line.last()) {
        solid(line.drop_last())
    } else {
        solid(line.drop_last()).push(line.last())
    }
}

/// Takes the blanks out of a line.
pub fn solid_of(line: &Vec<char>) -> (out: Vec<char>)
    ensures
        out@ == solid(line@),
{
    let mut out: Vec<char> = Vec::new();
    let mut i: usize = 0;
    while i < line.len()
        invariant
            0 <= i <= line.len(),
            out@ == solid(line@.take(i as int)),
        decreases line.len() - i,
    {
        let c = line[i];
        proof {
            let next = line@.take(i + 1);
            assert(next.drop_last() =~= line@.take(i as int));
            assert(next.last() == c);
        }
        if !blank(c) {
            out.push(c);
        }
        i += 1;
    }
    assert(line@.take(i as int) =~= line@);
    out
}

/// A sequence read from its end.
pub open spec fn backwards(s: Seq<char>) -> Seq<char> {
    Seq::new(s.len(), |k: int| s[s.len() - 1 - k])
}

/// The rows can be read as a rectangle: there are at least two, the
/// first is not empty, and each row between the first and the last
/// holds two characters that are not blank.
pub open spec fn has_sides(rows: Seq<Seq<char>>) -> bool {
    &&& rows.len() >= 2
    &&& rows[0].len() >= 1
    &&& forall|k: int| 1 <= k < rows.len() - 1 ==> (#[trigger] solid(rows[k])).len() >= 2
}

/// The left side from the top down to row `upto`, that row left out:
/// the first character of the first row, then the first character that
/// is not blank of each row below it.
pub open spec fn left_side(rows: Seq<Seq<char>>, upto: int) -> Seq<char> {
    Seq::new(
        upto as nat,
        |k: int|
            if k == 0 {
                rows[0][0]
            } else {
                solid(rows[k])[0]
            },
    )
}

/// The right side below the first row down to row `upto`, that row
/// left out: the second character that is not blank of each row.
pub open spec fn right_side(rows: Seq<Seq<char>>, upto: int) -> Seq<char> {
    Seq::new((upto - 1) as nat, |k: int| solid(rows[k + 1])[1])
}

/// The characters met on the way round the rectangle, from the place
/// after its top left corner back to that corner.
pub open spec fn way_round(rows: Seq<Seq<char>>) -> Seq<char> {
    let last = rows.len() - 1;
    rows[0].drop_first() + right_side(rows, last) + backwards(rows[last]) + backwards(
        left_side(rows, last),
    )
}

/// The track that the rows draw as a rectangle. No rows draw an empty
/// track.
pub open spec fn rect_track(rows: Seq<Seq<char>>) -> Option<Seq<Segment>> {
    if rows.len() == 0 {
        Some(Seq::empty())
    } else if !has_sides(rows) {
        None
    } else {
        segments_of(way_round(rows))
    }
}

/// Adds the characters of `more` to the end of `chars`.
fn append(chars: &mut Vec<char>, more: &Vec<char>)
    ensures
        final(chars)@ == old(chars)@ + more@,
{
    let mut k: usize = 0;
    while k < more.len()
        invariant
            0 <= k <= more.len(),
            chars@ == old(chars)@ + more@.take(k as int),
        decreases more.len() - k,
    {
        chars.push(more[k]);
        assert(chars@ =~= old(chars)@ + more@.take(k + 1));
        k += 1;
    }
    assert(more@.take(k as int) =~= more@);
}

/// Adds the characters of `more`, read from its end, to the end of `chars`.
fn append_backwards(chars: &mut Vec<char>, more: &Vec<char>)
    ensures
        final(chars)@ == old(chars)@ + backwards(more@),
{
    let n = more.len();
    let mut k: usize = 0;
    while k < n
        invariant
            0 <= k <= n,
            n == more.len(),
            chars@ == old(chars)@ + backwards(more@).take(k as int),
        decreases n - k,
    {
        chars.push(more[n - 1 - k]);
        assert(chars@ =~= old(chars)@ + backwards(more@).take(k + 1));
        k += 1;
    }
    assert(backwards(more@).take(k as int) =~= backwards(more@));
}

/// Reads a track drawn as a rectangle. The text has to draw one;
/// `read_rect_track` tells whether it does.
pub fn parse_rect_track(input: &str) -> (track: Vec<Segment>)
    requires
        rect_track(lines(input@)) is Some,
    ensures
        rect_track(lines(input@)) == Some(track@),
{
    read_rect_track(input).unwrap()
}

/// Reads a track drawn as a rectangle: the first row without its first
/// character, the right side downwards, the last row backwards and the
/// left side upwards. `None` when there is one row only, when the first
/// row is empty, when a row between the first and the last holds fewer
/// than two characters that are not blank, or when a character met
/// stands for no segment.
pub fn read_rect_track(input: &str) -> (track: Option<Vec<Segment>>)
    ensures
        match track {
            Some(t) => rect_track(lines(input@)) == Some(t@),
            None => rect_track(lines(input@)).is_none(),
        },
{
    let chars = chars_of(input);
    let rows = lines_of(&chars);
    let ghost view = pieces_view(rows@);
    let n = rows.len();
    if n == 0 {
        return Some(Vec::new());
    }
    if n == 1 || rows[0].len() == 0 {
        return None;
    }
    assert(view[0] == rows@[0]@);
    let mut round = slice_of(&rows[0], 1, rows[0].len());
    assert(round@ =~= view[0].drop_first());
    let mut left: Vec<char> = Vec::new();
    left.push(rows[0][0]);
    let mut right: Vec<char> = Vec::new();
    assert(left@ =~= left_side(view, 1));
    assert(right@ =~= right_side(view, 1));
    let mut k: usize = 1;
    while k < n - 1
        invariant
            1 <= k <= n - 1,
            n == rows.len(),
            view == pieces_view(rows@),
            view == lines(input@),
            view[0].len() >= 1,
            left@ == left_side(view, k as int),
            right@ == right_side(view, k as int),
            forall|j: int| 1 <= j < k ==> (#[trigger] solid(view[j])).len() >= 2,
        decreases n - k,
    {
        assert(view[k as int] == rows@[k as int]@);
        let row = solid_of(&rows[k]);
        if row.len() < 2 {
            assert(solid(view[k as int]).len() < 2);
            return None;
        }
        left.push(row[0]);
        right.push(row[1]);
        assert(left@ =~= left_side(view, k + 1));
        assert(right@ =~= right_side(view, k + 1));
        k += 1;
    }
    assert(has_sides(view));
    assert(view[n - 1] == rows@[n - 1]@);
    append(&mut round, &right);
    append_backwards(&mut round, &rows[n - 1]);
    append_backwards(&mut round, &left);
    assert(round@ == way_round(view));
    read_segments(&round)
}

/// The drawing: what stands at each place, blanks and places outside
/// the rows being empty.
pub open spec fn cell_at(rows: Seq<Seq<char>>, p: Point) -> Option<char> {
    if 0 <= p.y < rows.len() && 0 <= p.x < rows[p.y as int].len() && !is_blank(
        rows[p.y as int][p.x as int],
    ) {
        Some(rows[p.y as int][p.x as int])
    } else {
        None
    }
}

/// Every character of the drawing that is not blank stands for a segment.
pub open spec fn all_segments(rows: Seq<Seq<char>>) -> bool {
    forall|y: int, x: int|
        0 <= y < rows.len() && 0 <= x < rows[y].len() && !is_blank(#[trigger] rows[y][x])
            ==> segment_of(rows[y][x]) is Some
}

/// One step along an axis.
pub open spec fn is_heading(dir: Point) -> bool {
    (dir.x == 0 && (dir.y == 1 || dir.y == -1)) || (dir.y == 0 && (dir.x == 1 || dir.x == -1))
}

/// The heading tried as number `k`: straight on, then a quarter turn
/// to one side, then to the other.
pub open spec fn heading(dir: Point, k: int) -> Point {
    if k == 0 {
        dir
    } else if k == 1 {
        Point { x: dir.y, y: (-dir.x) as i32 }
    } else {
        Point { x: (-dir.y) as i32, y: dir.x }
    }
}

/// The place a step from `cur` in a heading, and what stands there.
pub open spec fn look(rows: Seq<Seq<char>>, cur: Point, d: Point) -> Option<(Point, char)> {
    if fits_i32(cur.x + d.x) && fits_i32(cur.y + d.y) {
        let to = Point { x: (cur.x + d.x) as i32, y: (cur.y + d.y) as i32 };
        match cell_at(rows, to) {
            Some(c) => Some((to, c)),
            None => None,
        }
    } else {
        None
    }
}

/// The next place on the line, with the heading that leads there and
/// what stands there: the first of the three headings tried in which
/// something stands.
pub open spec fn next_on_line(rows: Seq<Seq<char>>, cur: Point, dir: Point) -> Option<
    (Point, Point, char),
> {
    if look(rows, cur, heading(dir, 0)) is Some {
        Some((look(rows, cur, heading(dir, 0)).unwrap().0, heading(dir, 0), look(rows, cur, heading(dir, 0)).unwrap().1))
    } else if look(rows, cur, heading(dir, 1)) is Some {
        Some((look(rows, cur, heading(dir, 1)).unwrap().0, heading(dir, 1), look(rows, cur, heading(dir, 1)).unwrap().1))
    } else if look(rows, cur, heading(dir, 2)) is Some {
        Some((look(rows, cur, heading(dir, 2)).unwrap().0, heading(dir, 2), look(rows, cur, heading(dir, 2)).unwrap().1))
    } else {
        None
    }
}

/// A track with `first` put before it.
pub open spec fn after(first: Seq<Segment>, rest: Option<Seq<Segment>>) -> Option<Seq<Segment>> {
    match rest {
        Some(r) => Some(first + r),
        None => None,
    }
}

/// The segments met when the line is followed from `cur`, heading
/// `dir`, up to the start and with it. `None` when the line ends before
/// the start, when something met stands for no segment, or when `limit`
/// steps do not lead to the start.
pub open spec fn followed(rows: Seq<Seq<char>>, cur: Point, dir: Point, limit: nat) -> Option<
    Seq<Segment>,
>
    decreases limit,
{
    if limit == 0 {
        None
    } else {
        match next_on_line(rows, cur, dir) {
            Some((to, d, c)) => match segment_of(c) {
                Some(Segment::S) => Some(seq![Segment::S]),
                Some(s) => after(seq![s], followed(rows, to, d, (limit - 1) as nat)),
                None => None,
            },
            None => None,
        }
    }
}

/// The track that the rows draw as a winding line, followed from the
/// top left corner to the right.
pub open spec fn curvy_track(rows: Seq<Seq<char>>, limit: nat) -> Option<Seq<Segment>> {
    if all_segments(rows) {
        followed(rows, Point { x: 0, y: 0 }, Point { x: 1, y: 0 }, limit)
    } else {
        None
    }
}

/// Looks a step from `cur` in the heading `d`.
fn look_at(rows: &Vec<Vec<char>>, cur: Point, d: Point) -> (seen: Option<(Point, char)>)
    ensures
        seen == look(pieces_view(rows@), cur, d),
{
    let to = match cur.plus(d) {
        Some(to) => to,
        None => {
            return None;
        },
    };
    if to.y < 0 || to.x < 0 {
        return None;
    }
    let y = to.y as usize;
    let x = to.x as usize;
    if y >= rows.len() {
        return None;
    }
    assert(pieces_view(rows@)[y as int] == rows@[y as int]@);
    if x >= rows[y].len() {
        return None;
    }
    let c = rows[y][x];
    if blank(c) {
        None
    } else {
        Some((to, c))
    }
}

/// Finds the next place on the line.
fn step_on(rows: &Vec<Vec<char>>, cur: Point, dir: Point) -> (next: Option<(Point, Point, char)>)
    requires
        is_heading(dir),
    ensures
        next == next_on_line(pieces_view(rows@), cur, dir),
        next is Some ==> is_heading(next.unwrap().1),
{
    let one = match dir.rotate(Point::neg_y()) {
        Some(d) => d,
        None => {
            return None;
        },
    };
    let other = match dir.rotate(Point::unit_y()) {
        Some(d) => d,
        None => {
            return None;
        },
    };
    assert(one == heading(dir, 1));
    assert(other == heading(dir, 2));
    match look_at(rows, cur, dir) {
        Some((to, c)) => {
            return Some((to, dir, c));
        },
        None => {},
    }
    match look_at(rows, cur, one) {
        Some((to, c)) => {
            return Some((to, one, c));
        },
        None => {},
    }
    match look_at(rows, cur, other) {
        Some((to, c)) => Some((to, other, c)),
        None => None,
    }
}

/// Whether every character of the rows that is not blank stands for a
/// segment.
fn check_segments(rows: &Vec<Vec<char>>) -> (yes: bool)
    ensures
        yes == all_segments(pieces_view(rows@)),
{
    let ghost view = pieces_view(rows@);
    let mut y: usize = 0;
    while y < rows.len()
        invariant
            0 <= y <= rows.len(),
            view == pieces_view(rows@),
            forall|j: int, x: int|
                0 <= j < y && 0 <= x < view[j].len() && !is_blank(#[trigger] view[j][x])
                    ==> segment_of(view[j][x]) is Some,
        decreases rows.len() - y,
    {
        assert(view[y as int] == rows@[y as int]@);
        let mut x: usize = 0;
        while x < rows[y].len()
            invariant
                0 <= y < rows.len(),
                0 <= x <= rows@[y as int]@.len(),
                view == pieces_view(rows@),
                view[y as int] == rows@[y as int]@,
                forall|i: int|
                    0 <= i < x && !is_blank(#[trigger] view[y as int][i]) ==> segment_of(
                        view[y as int][i],
                    ) is Some,
            decreases rows@[y as int]@.len() - x,
        {
            let c = rows[y][x];
            if !blank(c) && read_segment(c).is_none() {
                assert(!is_blank(view[y as int][x as int]));
                return false;
            }
            x += 1;
        }
        y += 1;
    }
    true
}

/// Reads a track drawn as a winding line. The line has to lead to the
/// start within `limit` steps; `read_curvy_track` tells whether it does.
pub fn parse_curvy_track(input: &str, limit: usize) -> (track: Vec<Segment>)
    requires
        curvy_track(lines(input@), limit as nat) is Some,
    ensures
        curvy_track(lines(input@), limit as nat) == Some(track@),
{
    read_curvy_track(input, limit).unwrap()
}

/// Reads a track drawn as a winding line: from the top left corner,
/// heading right, the line is followed by going straight on where
/// something stands, else turning to one side, else to the other, until
/// the start is met. `None` when a character that is not blank stands
/// for no segment, when the line ends before the start, or when `limit`
/// steps do not lead to the start.
pub fn read_curvy_track(input: &str, limit: usize) -> (track: Option<Vec<Segment>>)
    ensures
        match track {
            Some(t) => curvy_track(lines(input@), limit as nat) == Some(t@),
            None => curvy_track(lines(input@), limit as nat).is_none(),
        },
{
    let chars = chars_of(input);
    let rows = lines_of(&chars);
    let ghost view = pieces_view(rows@);
    if !check_segments(&rows) {
        return None;
    }
    let mut track: Vec<Segment> = Vec::new();
    let mut cur = Point::zero();
    let mut dir = Point::unit_x();
    let mut left: usize = limit;
    assert(after(track@, followed(view, cur, dir, left as nat)) =~= followed(
        view,
        cur,
        dir,
        left as nat,
    )) by {
        match followed(view, cur, dir, left as nat) {
            Some(r) => {
                assert(track@ + r =~= r);
            },
            None => {},
        }
    }
    while left > 0
        invariant
            view == pieces_view(rows@),
            view == lines(input@),
            all_segments(view),
            is_heading(dir),
            curvy_track(view, limit as nat) == after(track@, followed(view, cur, dir, left as nat)),
        decreases left,
    {
        let ghost before = track@;
        match step_on(&rows, cur, dir) {
            Some((to, d, c)) => {
                match read_segment(c) {
                    Some(s) => {
                        track.push(s);
                        match s {
                            Segment::S => {
                                assert(track@ =~= before + seq![Segment::S]);
                                return Some(track);
                            },
                            _ => {},
                        }
                        proof {
                            match followed(view, to, d, (left - 1) as nat) {
                                Some(r) => {
                                    assert(before + (seq![s] + r) =~= track@ + r);
                                },
                                None => {},
                            }
                        }
                        cur = to;
                        dir = d;
                    },
                    None => {
                        return None;
                    },
                }
            },
            None => {
                return None;
            },
        }
        left -= 1;
    }
    None
}

} // verus!
