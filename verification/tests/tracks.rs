use state_search::race::Segment;
use state_search::track::{read_curvy_track, read_rect_track, read_segment, read_segments, solid_of};

fn cs(text: &str) -> Vec<char> {
    text.chars().collect()
}

fn ring() -> Vec<Segment> {
    vec![
        Segment::Plus,
        Segment::Equal,
        Segment::Minus,
        Segment::Minus,
        Segment::Plus,
        Segment::Equal,
        Segment::Minus,
        Segment::S,
    ]
}

#[test]
fn segments_are_read_by_sign() {
    assert_eq!(read_segment('+'), Some(Segment::Plus));
    assert_eq!(read_segment('-'), Some(Segment::Minus));
    assert_eq!(read_segment('='), Some(Segment::Equal));
    assert_eq!(read_segment('S'), Some(Segment::S));
    assert_eq!(read_segment('s'), None);
    assert_eq!(read_segment(' '), None);
    assert_eq!(read_segments(&cs("+-=S")), Some(vec![
        Segment::Plus,
        Segment::Minus,
        Segment::Equal,
        Segment::S
    ]));
    assert_eq!(read_segments(&cs("+-x")), None);
    assert_eq!(read_segments(&cs("")), Some(Vec::new()));
}

#[test]
fn blanks_are_taken_out() {
    assert_eq!(solid_of(&cs(" a \tb  ")), cs("ab"));
    assert_eq!(solid_of(&cs("   ")), cs(""));
    assert_eq!(solid_of(&cs("abc")), cs("abc"));
}

#[test]
fn rectangle_is_read_round_once() {
    assert_eq!(read_rect_track("S+=\n- -\n=+-"), Some(ring()));
    assert_eq!(read_rect_track("S+=\n-     -\n=+-\n"), Some(ring()));
    assert_eq!(
        read_rect_track("S+\n=-"),
        Some(vec![Segment::Plus, Segment::Minus, Segment::Equal, Segment::S])
    );
    assert_eq!(
        read_rect_track("S-\n+ =\n- +\n=-"),
        Some(vec![
            Segment::Minus,
            Segment::Equal,
            Segment::Plus,
            Segment::Minus,
            Segment::Equal,
            Segment::Minus,
            Segment::Plus,
            Segment::S
        ])
    );
}

#[test]
fn rectangle_needs_two_rows_and_both_sides() {
    assert_eq!(read_rect_track(""), Some(Vec::new()));
    assert_eq!(read_rect_track("S+="), None);
    assert_eq!(read_rect_track("\n+="), None);
    assert_eq!(read_rect_track("S+=\n-\n=+-"), None);
    assert_eq!(read_rect_track("S+=\n\n=+-"), None);
    assert_eq!(read_rect_track("S+=\n- x\n=+-"), None);
    assert_eq!(read_rect_track("S+=\n- -\n= -"), None);
}

#[test]
fn winding_line_is_followed_to_the_start() {
    assert_eq!(read_curvy_track("S+=\n- -\n=+-", 100), Some(ring()));
    assert_eq!(read_curvy_track("S+=\n- -\n=+-", 8), Some(ring()));
    assert_eq!(read_curvy_track("S+=\n- -\n=+-", 7), None);
    assert_eq!(read_curvy_track("S+=\n- -\n=+-", 0), None);
    let bent = "S+= \n- -+\n=  -\n-+=+";
    assert_eq!(
        read_curvy_track(bent, 100),
        Some(vec![
            Segment::Plus,
            Segment::Equal,
            Segment::Minus,
            Segment::Plus,
            Segment::Minus,
            Segment::Plus,
            Segment::Equal,
            Segment::Plus,
            Segment::Minus,
            Segment::Equal,
            Segment::Minus,
            Segment::S
        ])
    );
}

#[test]
fn winding_line_that_ends_or_strays_gives_nothing() {
    assert_eq!(read_curvy_track("S+=", 100), None);
    assert_eq!(read_curvy_track("", 100), None);
    assert_eq!(read_curvy_track("S+=\n- -\n=+-\nx", 100), None);
    assert_eq!(read_curvy_track("S+\n  ", 100), None);
    assert_eq!(read_curvy_track("=+\n-+", 1000), None);
    assert_eq!(read_curvy_track(" S", 100), Some(vec![Segment::S]));
}
