use state_search::dig::{count, deepest, dig_out, total_depth, width_of};
use state_search::enigma::{eni_2, eni_3};
use state_search::relationships::count_pairs_before;
use state_search::snails::{checksum_after, parse, time_to_sync_snails, Snail};
use state_search::triangle::Triangle;

fn field(rows: &[&str]) -> Vec<Vec<usize>> {
    rows.iter().map(|r| r.chars().map(|c| if c == '#' { 1 } else { 0 }).collect()).collect()
}

const CROSS: [(i32, i32); 4] = [(-1, 0), (1, 0), (0, -1), (0, 1)];

const AROUND: [(i32, i32); 8] =
    [(-1, 0), (1, 0), (0, -1), (0, 1), (-1, -1), (1, 1), (1, -1), (-1, 1)];

const EXAMPLE: [&str; 7] = [
    "..........",
    "..###.##..",
    "...####...",
    "..######..",
    "..######..",
    "...####...",
    "..........",
];

#[test]
fn last_remainders_of_long_rows_of_powers() {
    assert_eq!(eni_2(2, 7, 5), 34213);
    assert_eq!(eni_2(3, 8, 16), 111931);
    assert_eq!(eni_2(2, 3, 5), 342);
    assert_eq!(eni_2(2, 0, 5), 0);
    assert_eq!(eni_2(2, 5, 5), 21342);
    assert_eq!(eni_2(2, 1_000_000_000_000, 5), 13421);
}

#[test]
fn sums_of_remainders_of_long_rows_of_powers() {
    assert_eq!(eni_3(2, 7, 5), 19);
    assert_eq!(eni_3(3, 8, 16), 48);
    assert_eq!(eni_3(2, 0, 5), 0);
    assert_eq!(eni_3(2, 1_000_000_000_000, 5), 2_500_000_000_000);
    assert_eq!(eni_3(2, 1_000_000_000_003, 5), 2_500_000_000_009);
    assert_eq!(eni_3(10, 1_000, 10), 0);
    // 6, 4, 8, 0, 0, ...: the period does not begin with the first power.
    assert_eq!(eni_3(6, 1_000, 16), 18);
}

#[test]
fn field_is_dug_with_four_neighbours() {
    let mut grid = field(&EXAMPLE);
    assert_eq!(count(&mut grid, &CROSS.to_vec()), Some(35));
    // Every block is as deep as it is steps away from the nearest block left alone.
    assert_eq!(grid[3], vec![0, 0, 1, 2, 3, 2, 2, 1, 0, 0]);
    assert_eq!(grid[1], vec![0, 0, 1, 1, 1, 0, 1, 1, 0, 0]);
}

#[test]
fn field_is_dug_with_eight_neighbours() {
    let mut grid = field(&EXAMPLE);
    assert_eq!(count(&mut grid, &AROUND.to_vec()), Some(29));
    assert_eq!(grid[3], vec![0, 0, 1, 1, 2, 2, 1, 1, 0, 0]);
}

#[test]
fn digging_twice_changes_nothing() {
    let mut grid = field(&EXAMPLE);
    assert!(dig_out(&mut grid, &CROSS.to_vec()));
    let once = grid.clone();
    assert!(dig_out(&mut grid, &CROSS.to_vec()));
    assert_eq!(grid, once);
    assert_eq!(total_depth(&grid), Some(35));
    assert_eq!(deepest(&grid), 3);
}

#[test]
fn fields_that_are_not_dug() {
    let mut none: Vec<Vec<usize>> = vec![];
    assert_eq!(count(&mut none, &CROSS.to_vec()), None);
    let mut ragged = vec![vec![1, 1, 1], vec![1, 1]];
    assert_eq!(count(&mut ragged, &CROSS.to_vec()), None);
    assert_eq!(ragged, vec![vec![1, 1, 1], vec![1, 1]]);
    assert_eq!(width_of(&ragged), None);
    let mut deep = vec![vec![usize::MAX; 3]; 3];
    assert_eq!(count(&mut deep, &CROSS.to_vec()), None);
    assert_eq!(total_depth(&deep), None);
    // The rim is never dug.
    let mut small = vec![vec![1, 1], vec![1, 1]];
    assert_eq!(count(&mut small, &CROSS.to_vec()), Some(4));
    let mut ring = vec![vec![5, 5, 5], vec![5, 1, 5], vec![5, 5, 5]];
    assert_eq!(count(&mut ring, &CROSS.to_vec()), Some(46));
    assert_eq!(ring[1][1], 6);
}

#[test]
fn snails_after_a_hundred_days() {
    let snails = parse("x=1 y=2\nx=2 y=3\nx=3 y=4\nx=4 y=4\n").unwrap();
    assert_eq!(snails[3], Snail { x: 4, y: 4 });
    assert_eq!(checksum_after(&snails, 100), Some(1310));
    assert_eq!(checksum_after(&snails, 0), Some(1 + 200 + 2 + 300 + 3 + 400 + 4 + 400));
    assert_eq!(Snail { x: 1, y: 2 }.walk(1), Snail { x: 2, y: 1 });
    assert_eq!(Snail { x: 2, y: 1 }.walk(1), Snail { x: 1, y: 2 });
    assert_eq!(Snail { x: 1, y: 1 }.walk(7), Snail { x: 1, y: 1 });
    assert_eq!(checksum_after(&vec![Snail { x: 1, y: usize::MAX - 1 }], 0), None);
}

#[test]
fn snails_meet_at_the_ends_of_their_diagonals() {
    let snails = parse("x=12 y=2\nx=8 y=4\nx=7 y=1\nx=1 y=5\nx=1 y=3").unwrap();
    assert_eq!(time_to_sync_snails(&snails), Some(14));
    let snails = parse("x=3 y=1\nx=3 y=9\nx=1 y=5\nx=4 y=10\nx=5 y=3").unwrap();
    assert_eq!(time_to_sync_snails(&snails), Some(13659));
    assert_eq!(time_to_sync_snails(&vec![]), Some(0));
    assert_eq!(time_to_sync_snails(&vec![Snail { x: 2, y: 3 }]), Some(2));
}

#[test]
fn snails_that_never_meet() {
    // Periods 2 and 4: the first is at its end at even times, the second at times 4k + 1.
    let snails = vec![Snail { x: 2, y: 1 }, Snail { x: 3, y: 2 }];
    assert_eq!(time_to_sync_snails(&snails), None);
    // Periods 2 and 4 again, but both at their ends at time 0.
    let snails = vec![Snail { x: 2, y: 1 }, Snail { x: 4, y: 1 }, Snail { x: 1, y: 1 }];
    assert_eq!(time_to_sync_snails(&snails), Some(0));
    let snails = vec![Snail { x: 1, y: 2 }, Snail { x: 1, y: 4 }];
    assert_eq!(time_to_sync_snails(&snails), Some(3));
}

#[test]
fn snail_lines_that_spell_no_snail() {
    assert!(parse("x=1 y=2\ny=2 x=1").is_none());
    assert!(parse("x=1,y=2").is_none());
    assert!(parse("x=1 y=").is_none());
    assert_eq!(parse(""), Some(vec![]));
}

#[test]
fn mentors_before_their_novices() {
    let line: Vec<char> = "ABabACacBCbca".chars().collect();
    assert_eq!(count_pairs_before(&line, 'a'), Some(5));
    assert_eq!(count_pairs_before(&line, 'b'), Some(1 + 2));
    assert_eq!(count_pairs_before(&line, 'c'), Some(1 + 2));
    assert_eq!(count_pairs_before(&line, 'z'), Some(0));
    assert_eq!(count_pairs_before(&vec![], 'a'), Some(0));
}

#[test]
fn trampolines_that_touch() {
    let t = Triangle { grid: vec![vec!['T', 'T'], vec!['T']], start: (0, 0), exit: (0, 0) };
    assert_eq!(t.count_pairs(), Some(2));
    let t = Triangle::parse("TTT#T\n.TTT.\n..T..");
    // Row 0: two pairs; row 1: two pairs; between rows 0 and 1: (1,0) under
    // (0,1) and (1,1) under (0,2); between rows 1 and 2: (2,0) under (1,1).
    assert_eq!(t.count_pairs(), Some(7));
    assert_eq!(Triangle::parse("").count_pairs(), Some(0));
}

#[test]
fn field_is_dug_with_any_offset_that_leads_away() {
    let block = ["#####".replace('#', "."), ".###.".to_string(), ".###.".to_string(), ".###.".to_string(), ".....".to_string()];
    let rows: Vec<&str> = block.iter().map(|r| r.as_str()).collect();
    let mut cross = field(&rows);
    assert_eq!(count(&mut cross, &CROSS.to_vec()), Some(10));
    assert_eq!(cross[2], vec![0, 1, 2, 1, 0]);
    let mut slant = field(&rows);
    assert_eq!(count(&mut slant, &vec![(1, 1)]), Some(14));
    assert_eq!(slant[1], vec![0, 3, 2, 1, 0]);
    assert_eq!(slant[2], vec![0, 2, 2, 1, 0]);
    assert_eq!(slant[3], vec![0, 1, 1, 1, 0]);
    let mut right = field(&rows);
    assert_eq!(count(&mut right, &vec![(1, 0)]), Some(18));
    assert_eq!(right[2], vec![0, 3, 2, 1, 0]);
    let mut up = field(&rows);
    assert_eq!(count(&mut up, &vec![(0, 0), (0, -1)]), Some(18));
    assert_eq!(up[3], vec![0, 3, 3, 3, 0]);
    let mut wide = field(&[".......", ".#####.", "......."]);
    assert_eq!(count(&mut wide, &vec![(1, 0)]), Some(15));
    assert_eq!(wide[1], vec![0, 5, 4, 3, 2, 1, 0]);
}

#[test]
fn field_too_deep_for_its_rows_and_columns_is_not_dug() {
    let mut brim = vec![vec![usize::MAX - 6; 3]; 3];
    assert!(dig_out(&mut brim, &CROSS.to_vec()));
    let mut over = vec![vec![usize::MAX - 5; 3]; 3];
    assert!(!dig_out(&mut over, &CROSS.to_vec()));
    assert_eq!(over, vec![vec![usize::MAX - 5; 3]; 3]);
}
