use state_search::coins::{
    all_reached, any_marked, count_marked, marks_like, merge, read_digits, reachable_coins_by_walk,
    rolls_to_reach, winner_order, Grid,
};
use state_search::die::{read_dice, Die};
use state_search::order::rank_up;

const THREE: &str =
    "1: faces=[1,2,3,4,5,6] seed=7\n2: faces=[-1,1,-1,1,-1] seed=13\n3: faces=[9,8,7,8,9] seed=17";

const FOUR: &str = "1: faces=[1,2,3,4,5,6,7,8,9] seed=13\n2: faces=[1,2,3,4,5,6,7,8,9] seed=29\n3: faces=[1,2,3,4,5,6,7,8,9] seed=37\n4: faces=[1,2,3,4,5,6,7,8,9] seed=43";

const FIELD: &str = "1523758297\n4822941583\n7627997892\n4397697132\n1799773472";

fn nine(seed: usize) -> Die {
    Die::new(1, (1..=9).collect(), seed)
}

fn set_marks(marks: &Vec<Vec<bool>>) -> Vec<(usize, usize)> {
    let mut out = Vec::new();
    for (y, row) in marks.iter().enumerate() {
        for (x, m) in row.iter().enumerate() {
            if *m {
                out.push((x, y));
            }
        }
    }
    out.sort();
    out
}

#[test]
fn rounds_until_the_sum_is_reached() {
    assert_eq!(rolls_to_reach(read_dice(THREE).unwrap(), 10_000, 100_000), Some(844));
    assert_eq!(rolls_to_reach(read_dice(THREE).unwrap(), 10_000, 844), Some(844));
    assert_eq!(rolls_to_reach(read_dice(THREE).unwrap(), 10_000, 843), None);
    assert_eq!(rolls_to_reach(read_dice(THREE).unwrap(), 100, 1000), Some(9));
    assert_eq!(rolls_to_reach(read_dice(THREE).unwrap(), 1, 1000), Some(1));
    assert_eq!(rolls_to_reach(read_dice(THREE).unwrap(), 0, 0), Some(0));
    assert_eq!(rolls_to_reach(read_dice(THREE).unwrap(), -5, 0), Some(0));
}

#[test]
fn rounds_that_cannot_be_played() {
    assert_eq!(rolls_to_reach(Vec::new(), 1, 100), None);
    assert_eq!(rolls_to_reach(Vec::new(), 0, 100), Some(0));
    assert_eq!(rolls_to_reach(vec![Die::new(1, vec![1], 0)], 1, 100), None);
    assert_eq!(rolls_to_reach(vec![Die::new(1, Vec::new(), 3)], 1, 100), None);
    let wide = vec![Die::new(1, vec![i32::MAX], 3), Die::new(2, vec![1], 3)];
    assert_eq!(rolls_to_reach(wide, i32::MAX, 100), None);
    assert_eq!(rolls_to_reach(vec![Die::new(1, vec![i32::MAX], 3)], i32::MAX, 100), Some(1));
    assert_eq!(rolls_to_reach(vec![Die::new(1, vec![-1], 3)], 1, 50), None);
}

#[test]
fn dice_stand_in_the_order_of_their_rolls() {
    let track = vec![5, 1, 2, 5, 7, 2, 8, 4];
    assert_eq!(winner_order(&track, read_dice(FOUR).unwrap(), 100_000), Some(vec![1, 3, 4, 2]));
    assert_eq!(winner_order(&track, read_dice(FOUR).unwrap(), 80), Some(vec![1, 3, 4, 2]));
    assert_eq!(winner_order(&track, read_dice(FOUR).unwrap(), 79), None);
    assert_eq!(winner_order(&track, Vec::new(), 10), Some(Vec::new()));
    assert_eq!(winner_order(&Vec::new(), read_dice(FOUR).unwrap(), 0), Some(vec![1, 2, 3, 4]));
}

#[test]
fn dice_with_as_many_rolls_keep_their_order() {
    let track = vec![5, 1, 2];
    let dice = vec![
        Die::new(7, (1..=9).collect(), 13),
        Die::new(5, (1..=9).collect(), 13),
        Die::new(9, (1..=9).collect(), 13),
    ];
    assert_eq!(winner_order(&track, dice, 100_000), Some(vec![7, 5, 9]));
    assert_eq!(rank_up(&vec![3, 1, 3, 0, 1]), vec![3, 1, 4, 0, 2]);
    assert_eq!(rank_up(&Vec::new()), Vec::<usize>::new());
    assert_eq!(rank_up(&vec![i64::MIN, i64::MAX, 0]), vec![0, 2, 1]);
}

#[test]
fn grid_is_read_digit_by_digit() {
    let grid = Grid::read_str("120\n9\n\n45").unwrap();
    assert_eq!(grid.rows, vec![vec![1, 2, 0], vec![9], vec![], vec![4, 5]]);
    assert!(Grid::read_str("12\n3x").is_none());
    assert!(Grid::read_str("1 2").is_none());
    assert_eq!(Grid::read_str("").unwrap().rows, Vec::<Vec<i32>>::new());
    assert_eq!(read_digits(&"0123456789".chars().collect()), Some((0..=9).collect()));
    assert_eq!(read_digits(&"-1".chars().collect()), None);
}

#[test]
fn squares_reached_by_walking() {
    let grid = Grid::read_str(FIELD).unwrap();
    let mut die = nine(13);
    let marks = reachable_coins_by_walk(&grid, &mut die, 1000).unwrap();
    assert_eq!(count_marked(&marks), Some(33));
    assert_eq!(die.roll_number, 17);
    let expected: Vec<(usize, usize)> = vec![
        (1, 0), (1, 1), (1, 3), (1, 4), (2, 0), (2, 1), (2, 2), (2, 3), (2, 4), (3, 0), (3, 1),
        (3, 2), (3, 3), (3, 4), (4, 0), (4, 1), (4, 2), (4, 4), (5, 0), (5, 2), (5, 4), (6, 0),
        (6, 1), (6, 2), (6, 3), (6, 4), (7, 0), (7, 1), (7, 2), (8, 0), (8, 1), (9, 0), (9, 1),
    ];
    assert_eq!(set_marks(&marks), expected);
    let mut short = nine(13);
    assert!(reachable_coins_by_walk(&grid, &mut short, 16).is_some());
    let mut shorter = nine(13);
    assert!(reachable_coins_by_walk(&grid, &mut shorter, 15).is_none());
}

#[test]
fn walks_on_small_grids() {
    let grid = Grid::read_str("12\n3").unwrap();
    let mut die = Die::new(1, vec![1, 2, 3], 13);
    let marks = reachable_coins_by_walk(&grid, &mut die, 100).unwrap();
    assert_eq!(set_marks(&marks), vec![(1, 0)]);
    assert_eq!(die.roll_number, 6);
    let mut other = Die::new(1, vec![1, 2, 3], 5);
    let marks = reachable_coins_by_walk(&grid, &mut other, 100).unwrap();
    assert_eq!(set_marks(&marks), vec![(0, 1)]);
    assert_eq!(other.roll_number, 3);
    let ragged = Grid::read_str("111\n1\n11").unwrap();
    let mut twos = Die::new(1, vec![1, 2], 3);
    let marks = reachable_coins_by_walk(&ragged, &mut twos, 100).unwrap();
    assert_eq!(count_marked(&marks), Some(0));
    assert_eq!(twos.roll_number, 2);
    let empty = Grid::read_str("").unwrap();
    let mut idle = Die::new(1, vec![1, 2], 3);
    assert_eq!(reachable_coins_by_walk(&empty, &mut idle, 0), Some(Vec::new()));
    assert_eq!(idle.roll_number, 1);
}

#[test]
fn walk_that_never_ends_or_cannot_be_rolled() {
    let grid = Grid::read_str("22\n22").unwrap();
    let mut twos = Die::new(1, vec![1, 2], 3);
    assert_eq!(reachable_coins_by_walk(&grid, &mut twos, 50), None);
    let mut broken = Die::new(1, vec![1], 0);
    assert_eq!(reachable_coins_by_walk(&grid, &mut broken, 50), None);
    assert_eq!(broken.roll_number, 0);
}

#[test]
fn squares_reached_with_any_die() {
    let grid = Grid::read_str(FIELD).unwrap();
    let marks = all_reached(&grid, read_dice(FOUR).unwrap(), 1000).unwrap();
    assert_eq!(count_marked(&marks), Some(37));
    let one = all_reached(&grid, vec![nine(29)], 1000).unwrap();
    assert_eq!(count_marked(&one), Some(9));
    let none = all_reached(&grid, Vec::new(), 1000).unwrap();
    assert_eq!(count_marked(&none), Some(0));
    assert!(all_reached(&grid, read_dice(FOUR).unwrap(), 15).is_none());
}

#[test]
fn marks_are_made_merged_and_counted() {
    let grid = Grid::read_str("12\n3").unwrap();
    let clear = marks_like(&grid, false);
    assert_eq!(clear, vec![vec![false, false], vec![false]]);
    assert!(!any_marked(&clear));
    let full = marks_like(&grid, true);
    assert!(any_marked(&full));
    assert_eq!(count_marked(&full), Some(3));
    let mut some = vec![vec![true, false], vec![false]];
    merge(&mut some, &vec![vec![false, false], vec![true]]);
    assert_eq!(some, vec![vec![true, false], vec![true]]);
    assert_eq!(count_marked(&some), Some(2));
    assert!(!any_marked(&Vec::new()));
}
