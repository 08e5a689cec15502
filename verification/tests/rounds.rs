use state_search::birds::{checksum_of, rounds_to_even_out, settle_down, sweep};
use state_search::complex::{count_engraved, Complex};
use state_search::dig::read as parse_field;
use state_search::elevation::{nearest_start, read_grid};
use state_search::lookup::LookUp;
use state_search::names::{read as parse_names, parse_rule};
use state_search::point::Point;
use state_search::race::{count_better_plans, parse as parse_races, Device, Segment as Track};
use state_search::sword::{quality_spread, Sword};
use state_search::temple::{needed_for, shrine_blocks_to_buy, temple_blocks_to_buy};
use state_search::text::cut_at_text;
use state_search::triangle::{Triangle, TriangleWalk};
use state_search::turret::{read_meteors, parse_targets, total_ranking, meteor_intercept_position};

fn cs(s: &str) -> Vec<char> {
    s.chars().collect()
}

#[test]
fn ducks_even_out_in_two_phases() {
    let mut birds = vec![9, 1, 1, 4, 9, 6];
    assert!(sweep(&mut birds, true));
    assert_eq!(birds, vec![8, 1, 2, 4, 8, 7]);
    let mut birds = vec![9, 1, 1, 4, 9, 6];
    assert_eq!(settle_down(&mut birds, true), Some(6));
    assert_eq!(birds, vec![3, 4, 4, 4, 7, 8]);
    assert_eq!(rounds_to_even_out(&birds), Some(5));
    let mut after_ten = birds.clone();
    for _ in 6..10 {
        sweep(&mut after_ten, false);
    }
    assert_eq!(after_ten, vec![4, 5, 5, 5, 6, 5]);
    assert_eq!(checksum_of(&after_ten), Some(109));
    assert_eq!(settle_down(&mut birds, false), Some(5));
    assert_eq!(birds, vec![5; 6]);
    assert!(!sweep(&mut birds, false));
    assert!(!sweep(&mut birds, true));
}

#[test]
fn ducks_at_the_edges() {
    let mut none: Vec<usize> = vec![];
    assert!(!sweep(&mut none, true));
    assert_eq!(settle_down(&mut none, false), Some(0));
    assert_eq!(rounds_to_even_out(&none), None);
    assert_eq!(checksum_of(&none), Some(0));
    let mut one = vec![7];
    assert_eq!(settle_down(&mut one, true), Some(0));
    assert_eq!(rounds_to_even_out(&one), Some(0));
    assert_eq!(rounds_to_even_out(&vec![usize::MAX, 1]), None);
    assert_eq!(checksum_of(&vec![0, usize::MAX]), None);
    assert_eq!(checksum_of(&vec![usize::MAX, 0]), Some(usize::MAX));
    let mut two = vec![5, 0];
    assert_eq!(settle_down(&mut two, true), Some(3));
    assert_eq!(two, vec![2, 3]);
}

#[test]
fn shrine_layer_by_layer() {
    assert_eq!(shrine_blocks_to_buy(3, 5, 50, 100), Some(27));
    assert_eq!(shrine_blocks_to_buy(3, 5, 50, 4), Some(27));
    assert_eq!(shrine_blocks_to_buy(3, 5, 50, 3), None);
    assert_eq!(shrine_blocks_to_buy(3, 5, 1, 0), Some(0));
    assert_eq!(shrine_blocks_to_buy(3, 5, 0, 0), Some(1));
    // The thickness falls to nothing and the shrine stops growing.
    assert_eq!(shrine_blocks_to_buy(5, 5, 50, 1000), None);
}

#[test]
fn temple_with_hollow_columns() {
    assert_eq!(temple_blocks_to_buy(2, 5, 160, 100), Some(2));
    assert_eq!(temple_blocks_to_buy(2, 5, 1, 0), Some(0));
    assert_eq!(temple_blocks_to_buy(2, 5, 160, 2), None);
    // More would be taken out of a single block than there is.
    assert_eq!(needed_for(&vec![1], 2, 5), None);
    // One column of 1, then thickness 7: columns 8 and 7, width 3.
    assert_eq!(needed_for(&vec![8, 7], 2, 5), Some(8 + 14 - (3 * 2 * 8) % 5));
    assert_eq!(
        needed_for(&vec![13, 12, 5], 2, 5),
        Some(13 + 2 * 17 - (5 * 2 * 13) % 5 - 2 * ((5 * 2 * 12) % 5))
    );
}

#[test]
fn names_and_rules_are_read() {
    let (names, rules) = parse_names("ab,cd\n\na > b,c\nb > a\n").unwrap();
    assert_eq!(names, vec![cs("ab"), cs("cd")]);
    assert_eq!(rules.rules.get(&('a' as u32)), Some(&vec!['b', 'c']));
    assert_eq!(rules.rules.get(&('b' as u32)), Some(&vec!['a']));
    assert_eq!(rules.rules.len(), 2);
    assert!(rules.validate("aba"));
    // Of every name only the first letter counts, and a later rule replaces an earlier one.
    let (_, rules) = parse_names("x\n\nabc > de,fg\na > q").unwrap();
    assert_eq!(rules.rules.get(&('a' as u32)), Some(&vec!['q']));
    assert_eq!(parse_rule(&cs("abc > de,fg")), Some(('a', vec!['d', 'f'])));
    assert_eq!(parse_rule(&cs("a> b")), None);
    assert_eq!(parse_rule(&cs(" > b")), None);
    assert_eq!(parse_rule(&cs("a > b,")), None);
    assert!(parse_names("ab,cd\na > b").is_none());
    assert!(parse_names("ab\n\na - b").is_none());
    assert_eq!(parse_names("ab\n\n").map(|(n, r)| (n.len(), r.rules.len())), None);
}

#[test]
fn text_is_cut_at_a_pattern() {
    assert_eq!(cut_at_text(&cs("a > b > c"), " > "), Some((cs("a"), cs("b > c"))));
    assert_eq!(cut_at_text(&cs("a>b > c"), " > "), Some((cs("a>b"), cs("c"))));
    assert_eq!(cut_at_text(&cs("a > "), " > "), Some((cs("a"), cs(""))));
    assert_eq!(cut_at_text(&cs("a >"), " > "), None);
    assert_eq!(cut_at_text(&cs(""), " > "), None);
    assert_eq!(cut_at_text(&cs("abc"), ""), Some((cs(""), cs("abc"))));
    assert_eq!(cut_at_text(&cs(""), ""), Some((cs(""), cs(""))));
}

#[test]
fn races_are_read() {
    let races = parse_races("A:+,-,=,=\nBee:-\n").unwrap();
    assert_eq!(races.len(), 2);
    assert_eq!(races[0].id, "A");
    assert_eq!(races[0].devices, vec![Device::Plus, Device::Minus, Device::Equal, Device::Equal]);
    assert_eq!(races[1].id, "Bee");
    assert_eq!(races[0].score(), 41);
    assert!(parse_races("A+,-").is_none());
    assert!(parse_races("A:+,x").is_none());
    assert!(parse_races("A:+,").is_none());
    assert!(parse_races("A:").is_none());
    assert_eq!(parse_races("").map(|r| r.len()), Some(0));
}

#[test]
fn plans_that_beat_a_rival() {
    // On a track that decides every step itself all plans gather the same.
    let track = vec![Track::Plus, Track::Minus];
    let each = 11 + 10;
    assert_eq!(count_better_plans(&track, 1, each - 1), 9240);
    assert_eq!(count_better_plans(&track, 1, each), 0);
    assert_eq!(count_better_plans(&vec![], 5, 0), 0);
    // One free step: the plans that begin with Plus gather 11, with Equal 10, with Minus 9.
    let free = vec![Track::S];
    assert_eq!(count_better_plans(&free, 1, 10), 4200);
    assert_eq!(count_better_plans(&free, 1, 9), 4200 + 2520);
    assert_eq!(count_better_plans(&free, 1, 8), 9240);
}

#[test]
fn points_that_stay_within_the_limit() {
    let d = Complex { re: 1, im: 1 };
    let corner = Complex { re: 0, im: 0 };
    assert_eq!(count_engraved(&corner, &d, 1, 2), 2);
    assert_eq!(count_engraved(&corner, &d, 1, 0), 0);
    assert_eq!(count_engraved(&corner, &d, 0, 3), 9);
    let a = Complex { re: 35300, im: -64910 };
    let d = Complex { re: 100_000, im: 100_000 };
    assert_eq!(count_engraved(&a, &d, 10, 101), 4076);
}

#[test]
fn nearest_of_several_starts() {
    let g = read_grid("S1S\n#E#").unwrap();
    assert_eq!(nearest_start(&g), Some(4));
    let g = read_grid("S5E2S").unwrap();
    assert_eq!(nearest_start(&g), Some(6));
    let g = read_grid("S#E").unwrap();
    assert_eq!(nearest_start(&g), None);
    let g = read_grid("S1").unwrap();
    assert_eq!(nearest_start(&g), None);
    let g = read_grid("E1").unwrap();
    assert_eq!(nearest_start(&g), None);
}

#[test]
fn stamps_for_many_brightnesses() {
    let t = LookUp::new(&[1, 3, 5, 10], 16);
    assert_eq!(t.total_beetles(&vec![2, 4, 7, 16]), Some(10));
    assert_eq!(t.total_beetles(&vec![]), Some(0));
    assert_eq!(LookUp::brightest(&vec![2, 4, 7, 16, 3]), 16);
    assert_eq!(LookUp::brightest(&vec![]), 0);
    let capped = LookUp { table: vec![usize::MAX, 1] };
    assert_eq!(capped.total_beetles(&vec![0, 1]), None);
}

#[test]
fn targets_and_meteors() {
    let field = ".............\n.C...........\n.B......T....\n.A......T.T..\n=============";
    let targets = parse_targets(field).unwrap();
    let p = |x, y| Point { x, y };
    assert_eq!(targets, vec![p(7, 0), p(9, 0), p(7, 1)]);
    assert_eq!(total_ranking(&targets), Some(13));
    assert_eq!(parse_targets("H\n="), Some(vec![p(-1, 0), p(-1, 0)]));
    assert_eq!(parse_targets(""), Some(vec![]));
    let meteors = read_meteors("6 5\n6 7\n10 5").unwrap();
    assert_eq!(meteors, vec![p(6, 5), p(6, 7), p(10, 5)]);
    let met: Vec<Point> = meteors.iter().map(|m| meteor_intercept_position(*m).unwrap()).collect();
    assert_eq!(total_ranking(&met), Some(11));
    assert!(read_meteors("6,5").is_none());
    assert!(read_meteors("6 x").is_none());
    assert!(read_meteors("6 99999999999").is_none());
    assert_eq!(total_ranking(&vec![p(40_000, 80_000)]), Some(1_600_040_000));
    assert_eq!(total_ranking(&vec![p(40_000, 80_000), p(40_000, 80_000)]), None);
    assert_eq!(total_ranking(&vec![p(100_000, 200_000)]), None);
    assert_eq!(total_ranking(&vec![p(i32::MAX, i32::MAX), p(1, 1)]), None);
}

#[test]
fn field_is_read_from_text() {
    assert_eq!(parse_field(".#.\n###\n"), Some(vec![vec![0, 1, 0], vec![1, 1, 1]]));
    assert_eq!(parse_field(""), Some(vec![]));
    assert_eq!(parse_field(".#\nx."), None);
}

#[test]
fn best_sword_against_the_worst() {
    let swords: Vec<Sword> =
        ["1:5,3,7", "2:1,2", "3:9,8,7"].iter().map(|s| Sword::read(s).unwrap()).collect();
    assert_eq!(swords[2].read_spine(), Some(97));
    assert_eq!(quality_spread(&swords), Some(96));
    assert_eq!(quality_spread(&vec![]), None);
    assert_eq!(quality_spread(&swords[..1].iter().map(|s| Sword::forge(s.id, &vec![5])).collect()), Some(0));
    let unreadable = vec![Sword::forge(1, &vec![5]), Sword::forge(2, &vec![])];
    assert_eq!(quality_spread(&unreadable), None);
    let wide = vec![Sword::forge(1, &vec![-922337203, 685477580]), Sword::forge(2, &vec![1])];
    assert_eq!(quality_spread(&wide), Some(1 + 922337203));
}

#[test]
fn walk_span_is_the_longest_row() {
    let t = Triangle::parse("T#TTT\n.TET.\n..S..\n");
    assert_eq!(TriangleWalk::new(t, false).map(|w| w.span), Some(5));
    let none = Triangle::parse("");
    assert_eq!(TriangleWalk::new(none, false).map(|w| w.span), Some(1));
}
