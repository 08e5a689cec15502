use state_search::board::Board;
use state_search::crates::{
    comes_first, fewest_sets, largest_packing_sum, next_size, read_crates, smallest_packing_sum,
};
use state_search::dance::{Dance, DanceError};
use state_search::gears::{read, parse_shaft, train_turns, turns_needed, turns_of_last, Shaft};
use state_search::maze::{find_distance, parse_input};
use state_search::names::Rules;
use state_search::point::Point;
use state_search::relationships::count_relationships;
use state_search::runes::{count_symbols, count_words, read_words, stands_at, with_reversed};
use state_search::termites::{count_termites, Rule};
use state_search::triangle::{shortest_walk, Triangle, TriangleWalk};
use state_search::whispers::{
    first_after_swaps, read as parse_whispers, walk_circle, walk_row, Step,
};
use std::collections::HashMap;

fn cs(s: &str) -> Vec<char> {
    s.chars().collect()
}

fn strings(pieces: &Vec<Vec<char>>) -> Vec<String> {
    pieces.iter().map(|p| p.iter().collect()).collect()
}

const MANY: &str = "4,51,13,64,57,51,82,57,16,88,89,48,32,49,49,2,84,65,49,43,9,13,2,3,75,72,63,48,61,14,40,77";

#[test]
fn crates_nest_one_of_each_size() {
    let sizes = read_crates("10,5,1,10,3,8,5,2,2\n").unwrap();
    assert_eq!(sizes, vec![10, 5, 1, 10, 3, 8, 5, 2, 2]);
    assert_eq!(largest_packing_sum(&sizes), Some(29));
    assert!(comes_first(&sizes, 0));
    assert!(!comes_first(&sizes, 3));
    assert_eq!(largest_packing_sum(&vec![]), Some(0));
    assert_eq!(largest_packing_sum(&vec![usize::MAX, usize::MAX]), Some(usize::MAX));
    assert_eq!(largest_packing_sum(&vec![usize::MAX, 1]), None);
    assert_eq!(read_crates("1,,2"), None);
    assert_eq!(read_crates(""), None);
}

#[test]
fn crates_twenty_smallest() {
    let sizes = read_crates(MANY).unwrap();
    assert_eq!(smallest_packing_sum(&sizes, 20), Some(781));
    assert_eq!(smallest_packing_sum(&sizes, 0), Some(0));
    assert_eq!(smallest_packing_sum(&sizes, 1), Some(2));
    assert_eq!(smallest_packing_sum(&vec![5, 5, 7], 20), Some(12));
    assert_eq!(smallest_packing_sum(&vec![usize::MAX, 1], 2), None);
    assert_eq!(next_size(&sizes, None), Some(2));
    assert_eq!(next_size(&sizes, Some(4)), Some(9));
    assert_eq!(next_size(&sizes, Some(89)), None);
    assert_eq!(next_size(&vec![], None), None);
}

#[test]
fn crates_sets_for_equal_sizes() {
    assert_eq!(fewest_sets(&read_crates(MANY).unwrap()), 3);
    assert_eq!(fewest_sets(&vec![]), 0);
    assert_eq!(fewest_sets(&vec![7]), 1);
}

#[test]
fn gears_turn_one_another() {
    let gears = read("128\n64\n32\n16\n8\n").unwrap();
    assert_eq!(gears, vec![128, 64, 32, 16, 8]);
    assert_eq!(turns_of_last(&gears, 2025), Some(32400));
    assert_eq!(turns_needed(&gears, 10_000_000_000_000), Some(625_000_000_000));
    assert_eq!(turns_needed(&vec![3, 2], 5), Some(4));
    assert_eq!(turns_needed(&vec![5, 2], 5), Some(2));
    assert_eq!(turns_of_last(&vec![], 1), None);
    assert_eq!(turns_of_last(&vec![5, 0], 1), None);
    assert_eq!(turns_needed(&vec![0, 5], 1), None);
    assert_eq!(turns_of_last(&vec![usize::MAX, 1], 2), None);
    assert_eq!(read("1\nx"), None);
}

#[test]
fn gears_on_shafts() {
    assert_eq!(parse_shaft(&cs("5|15")), Some(Shaft { driven: 5, driving: 15 }));
    assert_eq!(parse_shaft(&cs("5-15")), None);
    let shafts = vec![Shaft { driven: 2, driving: 6 }, Shaft { driven: 3, driving: 9 }];
    assert_eq!(train_turns(4, &shafts, 8), Some(450));
    // Whole ratios only: 7 into 5 goes no time at all.
    let odd = vec![Shaft { driven: 5, driving: 7 }, Shaft { driven: 7, driving: 5 }];
    assert_eq!(train_turns(5, &odd, 5), Some(0));
    assert_eq!(train_turns(5, &vec![], 0), None);
    assert_eq!(train_turns(5, &vec![Shaft { driven: 0, driving: 1 }], 1), None);
    assert_eq!(train_turns(usize::MAX, &vec![], 1), None);
}

fn small_rules() -> Rules {
    let mut rules = HashMap::new();
    rules.insert('a' as u32, vec!['b']);
    rules.insert('b' as u32, vec!['a', 'c']);
    rules.insert('c' as u32, vec![]);
    Rules { rules }
}

#[test]
fn names_follow_their_rules() {
    let rules = small_rules();
    assert!(rules.validate("aba"));
    assert!(rules.validate("abc"));
    assert!(!rules.validate("ac"));
    assert!(!rules.validate("ca"));
    assert!(!rules.validate("xa"));
    assert!(rules.validate(""));
    assert!(rules.validate("z"));
}

#[test]
fn names_grow_level_by_level() {
    let rules = small_rules();
    assert_eq!(
        strings(&rules.get_valid_names("ababab")),
        vec![
            "abababa",
            "abababc",
            "abababab",
            "ababababa",
            "ababababc",
            "ababababab",
            "abababababa",
            "abababababc"
        ]
    );
    assert_eq!(strings(&rules.get_valid_names("acab")), Vec::<String>::new());
    assert_eq!(strings(&rules.get_valid_names("")), Vec::<String>::new());
    assert_eq!(strings(&rules.get_valid_names("abababababab")), vec!["abababababab"]);
    assert_eq!(strings(&rules.get_valid_names("abababababa")), vec!["abababababa"]);
    assert_eq!(strings(&rules.get_valid_names("ababababab")), vec!["ababababab", "abababababa", "abababababc"]);
}

#[test]
fn novices_find_mentors_within_reach() {
    assert_eq!(count_relationships(&cs("AaA")), 2);
    assert_eq!(count_relationships(&cs("Ab")), 0);
    assert_eq!(count_relationships(&cs("aA")), 1);
    assert_eq!(count_relationships(&cs("ABab")), 2);
    assert_eq!(count_relationships(&cs("")), 0);
    let apart = |gap: usize, novice_first: bool| {
        let mut line = vec!['x'; gap + 1];
        line[0] = if novice_first { 'a' } else { 'A' };
        line.push(if novice_first { 'A' } else { 'a' });
        count_relationships(&line)
    };
    assert_eq!(apart(999, true), 1);
    assert_eq!(apart(1000, true), 0);
    assert_eq!(apart(999, false), 1);
    assert_eq!(apart(1000, false), 0);
}

#[test]
fn novices_in_a_long_line() {
    // 3000 places "Aa" over and over: a novice sees the mentors of 2001 places.
    let line: Vec<char> = (0..3000).map(|i| if i % 2 == 0 { 'A' } else { 'a' }).collect();
    let mut expected = 0;
    for i in (1..3000usize).step_by(2) {
        let lo = i.saturating_sub(1000);
        let hi = (i + 1000).min(2999);
        expected += (lo..=hi).filter(|j| j % 2 == 0).count();
    }
    assert_eq!(count_relationships(&line), expected);
}

fn small_triangle() -> Triangle {
    Triangle::parse("T#TTT\n.TET.\n..S..\n")
}

#[test]
fn triangle_is_read_without_its_dots() {
    let t = small_triangle();
    assert_eq!(t.grid, vec![cs("T#TTT"), cs("TET"), cs("S")]);
    assert_eq!(t.start, (2, 0));
    assert_eq!(t.exit, (1, 1));
    let inner = Triangle::parse("S.E");
    assert_eq!(inner.grid, vec![cs("SE")]);
    assert_eq!(inner.exit, (0, 2));
    let none = Triangle::parse("");
    assert_eq!(none.grid, Vec::<Vec<char>>::new());
}

#[test]
fn triangle_walks() {
    let walk = TriangleWalk::new(small_triangle(), false).unwrap();
    assert_eq!(walk.span, 5);
    assert_eq!(shortest_walk(&walk), Some(1));
    let mut far = small_triangle();
    far.start = (0, 2);
    far.exit = (2, 0);
    assert_eq!(shortest_walk(&TriangleWalk::new(far, false).unwrap()), Some(4));
    let mut shut = small_triangle();
    shut.start = (0, 0);
    shut.exit = (2, 0);
    assert_eq!(shortest_walk(&TriangleWalk::new(shut, false).unwrap()), None);
    let mut off = small_triangle();
    off.start = (7, 7);
    assert_eq!(shortest_walk(&TriangleWalk::new(off, false).unwrap()), None);
}

#[test]
fn triangle_walk_on_a_turning_board() {
    let walk = TriangleWalk::new(small_triangle(), true).unwrap();
    assert_eq!(shortest_walk(&walk), Some(3));
}

#[test]
fn board_is_read_from_text() {
    let b = Board::parse("..D\nS#.\n").unwrap();
    assert_eq!((b.width, b.height), (3, 2));
    assert_eq!(b.init_state.dragon, Point { x: 2, y: 0 });
    assert_eq!(b.init_state.sheep, vec![Point { x: 0, y: 1 }]);
    assert_eq!(b.shelters, vec![Point { x: 1, y: 1 }]);
    assert!(!b.init_state.dragons_move);
    let empty = Board::parse("").unwrap();
    assert_eq!((empty.width, empty.height), (0, 0));
    // The width is that of the row read last.
    let ragged = Board::parse("....\n..\n").unwrap();
    assert_eq!((ragged.width, ragged.height), (2, 2));
}

#[test]
fn board_from_text_is_counted() {
    let b = Board::parse("S..\n...\n..D\n").unwrap();
    let again = Board::parse("S..\n...\n..D").unwrap();
    assert_eq!(b.count_dragon_wins_sequences(), again.count_dragon_wins_sequences());
    assert!(b.count_dragon_wins_sequences().is_some());
}

#[test]
fn maze_is_read_from_text() {
    let m = parse_input("#.#\nA.B\n").unwrap();
    assert_eq!(m.len(), 4);
    assert_eq!(m.place(1), Point { x: 0, y: 1 });
    assert_eq!(m.symbol(3), 'B');
    assert_eq!(find_distance(&m), Some(6));
    let wet = parse_input("~.~\n~A~").unwrap();
    assert_eq!(wet.len(), 2);
    assert_eq!(find_distance(&wet), Some(2));
    assert!(parse_input("#a#").is_none());
    assert_eq!(parse_input("").map(|m| m.len()), Some(0));
}

#[test]
fn dance_is_read_column_by_column() {
    let dance = Dance::parse("2 3 4 5\n3 4 5 2\n4 5 2 3\n5 2 3 4").unwrap();
    assert_eq!(
        dance.grid,
        vec![vec![2, 3, 4, 5], vec![3, 4, 5, 2], vec![4, 5, 2, 3], vec![5, 2, 3, 4]]
    );
    assert_eq!(dance.round, 0);
    let short = Dance::parse("1 2\n3").unwrap();
    assert_eq!(short.grid, vec![vec![1, 3], vec![2]]);
    assert!(matches!(Dance::parse("1 2\n3 4 5"), Err(DanceError::RaggedRow)));
    assert!(matches!(Dance::parse("1 x"), Err(DanceError::BadNumber)));
    assert_eq!(Dance::parse("").unwrap().grid, Vec::<Vec<usize>>::new());
}

#[test]
fn whispers_are_read_and_walked() {
    let (names, steps) = parse_whispers("Vyrdax,Drakzyph,Fyrryn,Elarzris\n\nR3,L2,R3,L1\n").unwrap();
    assert_eq!(strings(&names), vec!["Vyrdax", "Drakzyph", "Fyrryn", "Elarzris"]);
    assert_eq!(
        steps,
        vec![Step { delta: 3 }, Step { delta: -2 }, Step { delta: 3 }, Step { delta: -1 }]
    );
    assert_eq!(walk_row(names.len(), &steps), Some(2));
    assert_eq!(walk_circle(names.len(), &steps), Some(3));
    let swaps = vec![Step { delta: 3 }, Step { delta: -2 }, Step { delta: 3 }, Step { delta: -3 }];
    assert_eq!(first_after_swaps(4, &swaps), Some(1));
}

#[test]
fn whispers_at_the_edges() {
    assert_eq!(walk_row(0, &vec![]), None);
    assert_eq!(walk_circle(0, &vec![]), None);
    assert_eq!(first_after_swaps(0, &vec![]), None);
    let wild = vec![Step { delta: i32::MAX }, Step { delta: i32::MIN }, Step { delta: 1 }];
    assert_eq!(walk_row(5, &wild), Some(1));
    assert_eq!(walk_circle(5, &wild), Some(0));
    assert_eq!(walk_row(1, &wild), Some(0));
    assert_eq!(first_after_swaps(3, &vec![Step { delta: -1 }]), Some(2));
    assert_eq!(first_after_swaps(3, &vec![Step { delta: 3 }]), Some(0));
    assert!(parse_whispers("a,b\nR1").is_none());
    assert!(parse_whispers("a,b\n\nR1,X2").is_none());
    assert!(parse_whispers("a,b\n\nL-2147483648").is_none());
    assert_eq!(
        parse_whispers("a\n\nL-3").map(|(_, s)| s),
        Some(vec![Step { delta: 3 }])
    );
}

fn rule(input: &str, output: &[&str]) -> Rule {
    Rule { input: cs(input), output: output.iter().map(|o| cs(o)).collect() }
}

#[test]
fn termites_multiply_day_by_day() {
    let rules = vec![rule("A", &["B", "C"]), rule("B", &["C", "A"]), rule("C", &["A"])];
    assert_eq!(count_termites(&rules, "A", 0), Some(1));
    assert_eq!(count_termites(&rules, "A", 1), Some(2));
    assert_eq!(count_termites(&rules, "A", 2), Some(3));
    assert_eq!(count_termites(&rules, "A", 3), Some(5));
    assert_eq!(count_termites(&rules, "A", 4), Some(8));
    assert_eq!(count_termites(&rules, "Z", 0), Some(1));
    assert_eq!(count_termites(&rules, "Z", 3), Some(0));
}

#[test]
fn termites_with_rules_that_share_a_kind() {
    // Two rules for A: both count. D has no rule and dies out.
    let rules = vec![rule("A", &["A", "D"]), rule("A", &["A"])];
    assert_eq!(count_termites(&rules, "A", 1), Some(3));
    assert_eq!(count_termites(&rules, "A", 2), Some(6));
    assert_eq!(count_termites(&rules, "A", 10), Some(1024 + 512));
    let doubling = vec![rule("A", &["A", "A"])];
    assert_eq!(count_termites(&doubling, "A", 63), Some(1 << 63));
    assert_eq!(count_termites(&doubling, "A", 64), None);
}

#[test]
fn runic_words_are_counted() {
    let words = read_words("WORDS:THE,OWE,MES,ROD,HER").unwrap();
    assert_eq!(strings(&words), vec!["THE", "OWE", "MES", "ROD", "HER"]);
    let text = cs("AWAKEN THE POWER ADORNED WITH THE FLAMES BRIGHT IRE");
    assert_eq!(count_words(&words, &text), Some(4));
    assert_eq!(count_words(&words, &cs("")), Some(0));
    assert_eq!(count_words(&vec![cs("")], &cs("abc")), Some(3));
    assert!(stands_at(&text, 7, &cs("THE")));
    assert!(!stands_at(&text, 8, &cs("THE")));
    assert!(!stands_at(&text, 49, &cs("IRE")));
    assert!(stands_at(&text, 50, &cs("")));
    assert!(read_words("WORD:THE").is_none());
}

#[test]
fn runic_symbols_are_covered_once() {
    let words = read_words("WORDS:THE,OWE,MES,ROD,HER,QAQ").unwrap();
    let all = with_reversed(&words);
    assert_eq!(strings(&all)[6..], ["EHT", "EWO", "SEM", "DOR", "REH", "QAQ"]);
    let lines = [
        ("AWAKEN THE POWE ADORNED WITH THE FLAMES BRIGHT IRE", 15),
        ("THE FLAME SHIELDED THE HEART OF THE KINGS", 9),
        ("POWE PO WER P OWE R", 6),
        ("THERE IS THE END", 7),
        ("QAQAQ", 5),
    ];
    for (line, expected) in lines {
        assert_eq!(count_symbols(&all, &cs(line)), expected);
    }
    assert_eq!(count_symbols(&all, &cs("")), 0);
    assert_eq!(count_symbols(&vec![], &cs("THE")), 0);
}
