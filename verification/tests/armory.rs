use state_search::birds::{checksum_after_rounds, rounds_to_settle};
use state_search::sword::{checksum, Sword};
use state_search::termites::{count_termites, read};

fn swords(lines: &[&str]) -> Vec<Sword> {
    lines.iter().map(|line| Sword::read(line).unwrap()).collect()
}

#[test]
fn swords_weighted_from_the_best_down() {
    let nine = swords(&[
        "1:7,1,9,1,6,9,8,3,7,2",
        "2:6,1,9,2,9,8,8,4,3,1",
        "3:7,1,9,1,6,9,8,3,8,3",
        "4:6,1,9,2,8,8,8,4,3,1",
        "5:7,1,9,1,6,9,8,3,7,3",
        "6:6,1,9,2,8,8,8,4,3,5",
        "7:3,7,2,2,7,4,4,6,3,1",
        "8:3,7,2,2,7,4,4,6,3,7",
        "9:3,7,2,2,7,4,1,6,3,7",
    ]);
    assert_eq!(checksum(nine), Some(260));
    let two = swords(&["1:7,1,9,1,6,9,8,3,7,2", "2:7,1,9,1,6,9,8,3,7,2"]);
    assert_eq!(checksum(two), Some(4));
    assert_eq!(checksum(swords(&["5:1"])), Some(5));
    assert_eq!(checksum(Vec::new()), Some(0));
}

#[test]
fn equal_spines_are_told_apart_by_segments_then_by_number() {
    assert_eq!(checksum(swords(&["3:1,2", "3:1,2", "4:1", "9:1,0,2"])), Some(40));
    assert_eq!(checksum(swords(&["9:1,0,2", "4:1", "3:1,2", "3:1,2"])), Some(40));
    assert_eq!(checksum(swords(&["1:5,6", "2:5,4"])), Some(5));
    assert_eq!(checksum(swords(&["1:5,4", "2:5,6"])), Some(4));
}

#[test]
fn checksum_of_swords_that_cannot_be_read_or_summed() {
    let long = Sword::forge(1, &vec![5; 25]);
    assert!(!long.keyed());
    assert_eq!(checksum(vec![long, Sword::forge(2, &vec![1])]), None);
    assert!(Sword::forge(2, &vec![1]).keyed());
    let heavy = vec![Sword::forge(usize::MAX, &vec![1]), Sword::forge(usize::MAX, &vec![2])];
    assert_eq!(checksum(heavy), None);
    assert_eq!(checksum(vec![Sword::forge(usize::MAX, &vec![1])]), Some(usize::MAX));
    let half = vec![Sword::forge(usize::MAX / 2 + 1, &vec![1]), Sword::forge(0, &vec![2])];
    assert_eq!(checksum(half), None);
    let fits = vec![Sword::forge(usize::MAX / 2, &vec![1]), Sword::forge(1, &vec![2])];
    assert_eq!(checksum(fits), Some(usize::MAX));
}

#[test]
fn termite_rules_are_read_line_by_line() {
    let rules = read("A:B,C\nB:C,A\nC:A").unwrap();
    assert_eq!(rules.len(), 3);
    assert_eq!(rules[0].input, vec!['A']);
    assert_eq!(rules[0].output, vec![vec!['B'], vec!['C']]);
    assert_eq!(rules[2].output, vec![vec!['A']]);
    assert_eq!(count_termites(&rules, "A", 4), Some(8));
    assert!(read("A:B\nC").is_none());
    assert_eq!(read("").unwrap().len(), 0);
    let odd = read("AB:\n:X,,Y").unwrap();
    assert_eq!(odd[0].input, vec!['A', 'B']);
    assert_eq!(odd[0].output, vec![Vec::<char>::new()]);
    assert_eq!(odd[1].input, Vec::<char>::new());
    assert_eq!(odd[1].output, vec![vec!['X'], vec![], vec!['Y']]);
}

#[test]
fn ducks_fly_right_then_left_for_the_rest_of_the_rounds() {
    let mut birds = vec![9, 1, 1, 4, 9, 6];
    assert_eq!(checksum_after_rounds(&mut birds, 10), Some(109));
    let mut few = vec![9, 1, 1, 4, 9, 6];
    assert_eq!(checksum_after_rounds(&mut few, 3), Some(122));
    assert_eq!(few, vec![3, 4, 4, 4, 7, 8]);
    let mut none = vec![9, 1, 1, 4, 9, 6];
    assert_eq!(checksum_after_rounds(&mut none, 0), Some(122));
    let mut two = vec![3, 1];
    assert_eq!(checksum_after_rounds(&mut two, 10), Some(6));
    assert_eq!(two, vec![2, 2]);
    let mut one = vec![5];
    assert_eq!(checksum_after_rounds(&mut one, 10), Some(5));
    let mut empty: Vec<usize> = Vec::new();
    assert_eq!(checksum_after_rounds(&mut empty, 10), Some(0));
    let mut heavy = vec![usize::MAX, usize::MAX];
    assert_eq!(checksum_after_rounds(&mut heavy, 1), None);
}

#[test]
fn rounds_until_the_ducks_stand_still() {
    assert_eq!(rounds_to_settle(&mut vec![9, 1, 1, 4, 9, 6]), Some(11));
    assert_eq!(
        rounds_to_settle(&mut vec![805, 706, 179, 48, 158, 150, 232, 885, 598, 524, 423]),
        Some(1579)
    );
    assert_eq!(rounds_to_settle(&mut vec![5]), Some(0));
    assert_eq!(rounds_to_settle(&mut vec![3, 1]), Some(1));
    assert_eq!(rounds_to_settle(&mut vec![1, 3]), Some(1));
    assert_eq!(rounds_to_settle(&mut Vec::new()), Some(0));
}
