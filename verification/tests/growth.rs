use state_search::dance::Dance;
use state_search::graph::StateGraph;
use state_search::plant::{
    direction6_of, grow, least_murkiness, max_height, read, parse_move, Move, Plant, Point3,
};
use state_search::runes::{count_marks, mark_scales};

fn cs(text: &str) -> Vec<char> {
    text.chars().collect()
}

fn branches(lines: &[&str]) -> Vec<Vec<Move>> {
    lines.iter().map(|line| read(&cs(line)).unwrap()).collect()
}

fn at(x: i32, y: i32, z: i32) -> Point3 {
    Point3 { x, y, z }
}

#[test]
fn stretches_are_read_by_letter_and_length() {
    assert_eq!(parse_move(&cs("U5")), Some(Move { dir: at(0, 0, 1), dist: 5 }));
    assert_eq!(parse_move(&cs("D12")), Some(Move { dir: at(0, 0, -1), dist: 12 }));
    assert_eq!(parse_move(&cs("R1")), Some(Move { dir: at(0, 1, 0), dist: 1 }));
    assert_eq!(parse_move(&cs("L1")), Some(Move { dir: at(0, -1, 0), dist: 1 }));
    assert_eq!(parse_move(&cs("F3")), Some(Move { dir: at(-1, 0, 0), dist: 3 }));
    assert_eq!(parse_move(&cs("B3")), Some(Move { dir: at(1, 0, 0), dist: 3 }));
    assert_eq!(parse_move(&cs("U-2")), Some(Move { dir: at(0, 0, 1), dist: -2 }));
    assert_eq!(parse_move(&cs("X3")), None);
    assert_eq!(parse_move(&cs("U")), None);
    assert_eq!(parse_move(&cs("")), None);
    assert_eq!(parse_move(&cs("U2147483648")), None);
    assert_eq!(
        parse_move(&cs("U2147483647")),
        Some(Move { dir: at(0, 0, 1), dist: 2147483647 })
    );
}

#[test]
fn branch_is_read_stretch_by_stretch() {
    let branch = read(&cs("U5,R3,D2")).unwrap();
    assert_eq!(
        branch,
        vec![
            Move { dir: at(0, 0, 1), dist: 5 },
            Move { dir: at(0, 1, 0), dist: 3 },
            Move { dir: at(0, 0, -1), dist: 2 },
        ]
    );
    assert_eq!(read(&cs("U5,,R3")), None);
    assert_eq!(read(&cs("")), None);
    assert_eq!(read(&cs("U5,R3,")), None);
}

#[test]
fn greatest_height_of_a_branch() {
    let branch = read(&cs("U5,R3,D2,L5,U4,R5,D2")).unwrap();
    assert_eq!(max_height(&branch), Some(7));
    assert_eq!(max_height(&read(&cs("D3,U2")).unwrap()), Some(0));
    assert_eq!(max_height(&Vec::new()), Some(0));
    assert_eq!(max_height(&read(&cs("U3,D-4")).unwrap()), Some(7));
}

#[test]
fn plant_fills_each_place_once() {
    let plant = grow(&branches(&["U5,R3,D2,L5,U4,R5,D2", "U6,L1,D2,R3,U2,L1"])).unwrap();
    assert_eq!(plant.size(), 32);
    assert_eq!(plant.leaves, vec![at(0, 3, 5), at(0, 1, 6)]);
    assert!(plant.is_leaf(at(0, 3, 5)));
    assert!(!plant.is_leaf(at(0, 0, 1)));
    assert!(plant.cells.contains(&at(0, 0, 1).key()));
    assert!(!plant.cells.contains(&at(0, 0, 0).key()));
    let twice = grow(&branches(&["U3", "U3", "U2,U1"])).unwrap();
    assert_eq!(twice.size(), 3);
    assert_eq!(twice.leaves, vec![at(0, 0, 3)]);
    let none = grow(&Vec::new()).unwrap();
    assert_eq!(none.size(), 0);
    assert!(none.leaves.is_empty());
}

#[test]
fn negative_stretch_takes_no_step() {
    let plant = grow(&branches(&["U2,R-3,U1"])).unwrap();
    assert_eq!(plant.size(), 3);
    assert_eq!(plant.leaves, vec![at(0, 0, 3)]);
}

#[test]
fn branch_out_of_reach_is_refused() {
    assert!(grow(&branches(&["U1048575"])).is_some());
    assert!(grow(&branches(&["U3", "U1048576"])).is_none());
    let mut plant = Plant::new();
    assert!(!plant.grow_branch(&read(&cs("L1048576")).unwrap()));
    assert!(plant.grow_branch(&read(&cs("L2")).unwrap()));
}

#[test]
fn keys_of_places_go_both_ways() {
    for p in [at(0, 0, 0), at(1, -2, 21), at(-1048575, 1048575, -7), at(5, 0, 0)] {
        assert_eq!(Point3::from_key(p.key()), p);
    }
    assert_ne!(at(0, 0, 1).key(), at(0, 1, 0).key());
    assert_eq!(at(0, 0, 0).key(), (1048576u64 * 2097152 + 1048576) * 2097152 + 1048576);
    assert_eq!(at(2, 3, 4).stepped(at(0, 0, -1)), Some(at(2, 3, 3)));
    assert_eq!(at(1048575, 0, 0).stepped(at(1, 0, 0)), None);
    assert_eq!(direction6_of(0), at(0, 0, 1));
    assert_eq!(direction6_of(5), at(1, 0, 0));
}

#[test]
fn plant_steps_onto_filled_places_only() {
    let plant = grow(&branches(&["U3", "U1,R2"])).unwrap();
    let mut around = plant.neighbors(at(0, 0, 1).key());
    around.sort();
    let mut expected =
        vec![(at(0, 0, 2).key(), 1), (at(0, 1, 1).key(), 1)];
    expected.sort();
    assert_eq!(around, expected);
    assert_eq!(plant.neighbors(at(0, 0, 0).key()), vec![(at(0, 0, 1).key(), 1)]);
    assert_eq!(plant.neighbors(at(5, 5, 5).key()), vec![]);
}

#[test]
fn least_murkiness_of_the_trunk() {
    let plant = grow(&branches(&["U5,R3,D2,L5,U4,R5,D2", "U6,L1,D2,R3,U2,L1"])).unwrap();
    assert_eq!(least_murkiness(&plant), Some(5));
    let larger = grow(&branches(&[
        "U20,L1,B1,L2,B1,R2,L1,F1,U1",
        "U10,F1,B1,R1,L1,B1,L1,F1,R2,U1",
        "U30,L2,F1,R1,B1,R1,F2,U1,F1",
        "U25,R1,L2,B1,U1,R2,F1,L2",
        "U16,L1,B1,L1,B3,L1,B1,F1",
    ]))
    .unwrap();
    assert_eq!(larger.size(), 68);
    assert_eq!(least_murkiness(&larger), Some(46));
    assert_eq!(least_murkiness(&grow(&branches(&["U3"])).unwrap()), Some(1));
    assert_eq!(least_murkiness(&grow(&branches(&["U3", "U1,R2"])).unwrap()), Some(4));
}

#[test]
fn plant_without_trunk_has_no_murkiness() {
    assert_eq!(least_murkiness(&Plant::new()), None);
    assert_eq!(least_murkiness(&grow(&branches(&["R3"])).unwrap()), None);
    assert_eq!(least_murkiness(&grow(&branches(&["U1"])).unwrap()), None);
}

fn two_rows() -> Dance {
    Dance::parse("2 3 4 5\n6 7 8 9").unwrap()
}

#[test]
fn number_shouted_often_enough() {
    let mut dance = two_rows();
    assert_eq!(dance.dance_until_shouted(2024, 100_000), Some((6285, 8095)));
    assert_eq!(dance.get_round(), 8095);
    assert_eq!(two_rows().dance_until_shouted(1, 5), Some((6345, 1)));
    assert_eq!(two_rows().dance_until_shouted(2024, 8094), None);
    assert_eq!(two_rows().dance_until_shouted(2024, 0), None);
    let mut square = Dance::parse("2 3 4 5\n3 4 5 2\n4 5 2 3\n5 2 3 4").unwrap();
    assert_eq!(square.dance_until_shouted(2, 1000), Some((2524, 19)));
    let mut empty = Dance::parse("").unwrap();
    assert_eq!(empty.dance_until_shouted(1, 10), None);
}

#[test]
fn greatest_number_until_the_dance_repeats() {
    assert_eq!(two_rows().dance_until_repeat(100_000), Some(6584));
    assert_eq!(two_rows().dance_until_repeat(7), Some(6584));
    assert_eq!(two_rows().dance_until_repeat(6), None);
    let mut square = Dance::parse("2 3 4 5\n3 4 5 2\n4 5 2 3\n5 2 3 4").unwrap();
    assert_eq!(square.dance_until_repeat(100_000), Some(5332));
    assert_eq!(Dance::parse("").unwrap().dance_until_repeat(10), None);
}

#[test]
fn greatest_number_of_some_rounds() {
    let mut square = Dance::parse("2 3 4 5\n3 4 5 2\n4 5 2 3\n5 2 3 4").unwrap();
    assert_eq!(square.greatest_number(0, 10), 4452);
    assert_eq!(square.get_round(), 10);
    assert_eq!(square.get_number(), Ok(2323));
    let mut again = Dance::parse("2 3 4 5\n3 4 5 2\n4 5 2 3\n5 2 3 4").unwrap();
    assert_eq!(again.greatest_number(9999, 10), 9999);
    assert_eq!(again.greatest_number(7, 0), 7);
}

#[test]
fn columns_are_written_one_after_another() {
    let dance = Dance { grid: vec![vec![2, 6], vec![3]], round: 0 };
    let row = dance.write().unwrap();
    let other = Dance { grid: vec![vec![2], vec![6, 3]], round: 0 };
    assert_ne!(other.write().unwrap(), row);
    let same = Dance { grid: vec![vec![2, 6], vec![3]], round: 4 };
    assert_eq!(same.write().unwrap(), row);
    let wide = Dance { grid: vec![vec![usize::MAX]], round: 0 };
    assert_eq!(wide.write(), None);
}

fn wall(rows: &[&str]) -> Vec<Vec<char>> {
    rows.iter().map(|row| cs(row)).collect()
}

fn marked(marks: &Vec<Vec<bool>>) -> Vec<(usize, usize)> {
    let mut out = Vec::new();
    for (y, row) in marks.iter().enumerate() {
        for (x, m) in row.iter().enumerate() {
            if *m {
                out.push((y, x));
            }
        }
    }
    out
}

#[test]
fn scales_under_words_on_a_rolled_wall() {
    let words: Vec<Vec<char>> = ["THE", "OWE", "MES", "ROD", "RODEO"].iter().map(|w| cs(w)).collect();
    let rows = wall(&["HELWORLT", "ENIGWDXL", "TRODEOAL"]);
    let marks = mark_scales(&words, &rows).unwrap();
    assert_eq!(
        marked(&marks),
        vec![(0, 0), (0, 1), (0, 4), (0, 7), (1, 4), (2, 1), (2, 2), (2, 3), (2, 4), (2, 5)]
    );
    assert_eq!(count_marks(&marks, 8), Some(10));
}

#[test]
fn words_wrap_sideways_but_not_upwards() {
    let ab = vec![cs("AB")];
    let marks = mark_scales(&ab, &wall(&["BA"])).unwrap();
    assert_eq!(marked(&marks), vec![(0, 0), (0, 1)]);
    let long = vec![cs("ABABA")];
    let marks = mark_scales(&long, &wall(&["AB"])).unwrap();
    assert_eq!(count_marks(&marks, 2), Some(2));
    let tall = mark_scales(&ab, &wall(&["B", "A"])).unwrap();
    assert_eq!(marked(&tall), vec![(0, 0), (1, 0)]);
    let bab = vec![cs("BAB")];
    let none = mark_scales(&bab, &wall(&["B", "A"])).unwrap();
    assert_eq!(count_marks(&none, 1), Some(0));
    let absent = mark_scales(&vec![cs("X")], &wall(&["AB"])).unwrap();
    assert_eq!(count_marks(&absent, 2), Some(0));
}

#[test]
fn wall_must_be_a_rectangle_with_a_symbol() {
    let words = vec![cs("A")];
    assert_eq!(mark_scales(&words, &wall(&["AB", "A"])), None);
    assert_eq!(mark_scales(&words, &Vec::new()), None);
    assert_eq!(mark_scales(&words, &wall(&[""])), None);
    assert_eq!(mark_scales(&Vec::new(), &wall(&["AB"])), Some(vec![vec![false, false]]));
}
