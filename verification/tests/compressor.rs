use state_search::compressor::CoordinateCompressor;

#[test]
fn keeps_each_value_once_in_order() {
    let c = CoordinateCompressor::new(vec![7, -3, 7, 100, -3, 0]);
    assert_eq!(c.len(), 4);
    assert_eq!(c.coordinate_of(0), -3);
    assert_eq!(c.coordinate_of(1), 0);
    assert_eq!(c.coordinate_of(2), 7);
    assert_eq!(c.coordinate_of(3), 100);
}

#[test]
fn round_trip_for_every_kept_coordinate() {
    let raw = vec![40, -7, 1_000_000, 3, 3, -2_000_000_000];
    let c = CoordinateCompressor::new(raw.clone());
    for v in raw {
        let r = c.rank_of(v).unwrap();
        assert_eq!(c.coordinate_of(r), v);
        assert_eq!(c.rank_of(c.coordinate_of(r)), Some(r));
    }
}

#[test]
fn rank_of_a_value_that_is_not_kept() {
    let c = CoordinateCompressor::new(vec![10, 20, 30]);
    assert_eq!(c.rank_of(15), None);
    assert_eq!(c.rank_of(5), None);
    assert_eq!(c.rank_of(35), None);
    assert_eq!(c.rank_of(20), Some(1));
    let empty = CoordinateCompressor::new(vec![]);
    assert_eq!(empty.len(), 0);
    assert_eq!(empty.rank_of(0), None);
}

#[test]
fn around_keeps_both_sides() {
    let c = CoordinateCompressor::around(&vec![10, 0, 11]);
    let kept: Vec<i32> = (0..c.len()).map(|r| c.coordinate_of(r)).collect();
    assert_eq!(kept, vec![-1, 0, 1, 9, 10, 11, 12]);
}

#[test]
fn around_stops_at_the_ends_of_the_range() {
    let c = CoordinateCompressor::around(&vec![i32::MAX, i32::MIN]);
    let kept: Vec<i32> = (0..c.len()).map(|r| c.coordinate_of(r)).collect();
    assert_eq!(kept, vec![i32::MIN, i32::MIN + 1, i32::MAX - 1, i32::MAX]);
}

#[test]
fn steps_are_checked_against_both_ends() {
    let c = CoordinateCompressor::new(vec![1, 5, 9]);
    assert_eq!(c.step(0, true), Some(1));
    assert_eq!(c.step(2, true), None);
    assert_eq!(c.step(0, false), None);
    assert_eq!(c.step(2, false), Some(1));
    assert_eq!(c.step(3, false), Some(2));
    assert_eq!(c.step(4, false), None);
    assert_eq!(c.step(usize::MAX, true), None);
}
