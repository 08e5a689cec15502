use state_search::complex::{divide, parse_a, read_a, Complex};
use state_search::dance::{Dance, DanceError};
use state_search::die::{read_dice, Die};
use state_search::enigma::{
    concat_ints, eni_1, parse_kv, parse_rows, read_kv, read_rows, sum_triple, Row,
};
use state_search::lookup::LookUp;
use state_search::nails::{count_strikes, count_strikes_advanced, parse, strikes_at, NailError};
use state_search::point::Point;
use state_search::potions::count_potions;
use state_search::race::{generate, get_valid_action_plans, Device, Race, Segment as Track};
use state_search::spell::{blocks_within, count_blocks, longest_wall, reconstruct_spell};
use state_search::sword::{Segment, Sword};
use state_search::triangle::Triangle;
use state_search::turret::{meteor_intercept_position, ranking_score};

fn c(re: i64, im: i64) -> Complex {
    Complex { re, im }
}

#[test]
fn complex_sum_and_quotient_by_component() {
    assert_eq!(c(1, 2).add(&c(3, 4)), c(4, 6));
    assert_eq!(c(10, -7).div(&c(3, 2)), c(3, -3));
    assert_eq!(c(-10, 7).div(&c(3, -2)), c(-3, -3));
    assert_eq!(divide(-7, 2), -3);
    assert_eq!(divide(7, -2), -3);
    assert_eq!(divide(-7, -2), 3);
    assert_eq!(divide(0, -5), 0);
}

#[test]
fn complex_product_squares_correctly() {
    assert_eq!(c(3, 4).mul(&c(3, 4)), c(-7, 24));
    // For two different values the imaginary part is twice re * other.im.
    assert_eq!(c(2, 3).mul(&c(4, 5)), c(-7, 20));
}

#[test]
fn complex_three_cycles() {
    let a = c(25, 9);
    let d = c(10, 10);
    let mut r = c(0, 0);
    r = r.cycle(&a, &d);
    assert_eq!(r, c(25, 9));
    r = r.cycle(&a, &d);
    assert_eq!(r, c(79, 54));
    r = r.cycle(&a, &d);
    assert_eq!(r, c(357, 862));
}

#[test]
fn complex_excess_and_hundred_cycles() {
    assert!(!c(999_999, -999_999).is_excessive());
    assert!(c(1_000_000, 0).is_excessive());
    assert!(c(0, -1_000_000).is_excessive());
    assert!(Complex::valid_hundred(&c(0, 0), &c(1, 1)));
    assert!(Complex::valid_hundred(&c(1, 0), &c(10, 10)));
    assert!(!Complex::valid_hundred(&c(1, 0), &c(1, 1)));
    assert!(!Complex::valid_hundred(&c(1_000_000, 0), &c(1, 1)));
}

#[test]
fn complex_is_read_from_text() {
    assert_eq!(read_a("A=[25,9]\n"), Some(c(25, 9)));
    assert_eq!(read_a("  A=[-3,+4]"), Some(c(-3, 4)));
    assert_eq!(read_a("B=[1,2]"), None);
    assert_eq!(read_a("A=[1;2]"), None);
    assert_eq!(read_a("A=[1,2"), None);
    assert_eq!(read_a("A=[1,]"), None);
    assert_eq!(read_a("A=[9223372036854775808,0]"), None);
    assert_eq!(read_a("A=[-9223372036854775808,0]"), Some(c(i64::MIN, 0)));
}

#[test]
fn complex_that_is_spelt_is_read_as_it_stands() {
    assert_eq!(parse_a(" A=[-25,9]\n"), c(-25, 9));
    assert_eq!(parse_a("A=[25,9]"), c(25, 9));
    assert_eq!(parse_a("A=[0,-0]"), c(0, 0));
}

#[test]
fn lookup_fewest_stamps() {
    let t = LookUp::new(&[1, 3, 5, 10], 20);
    let expected = [0, 1, 2, 1, 2, 1, 2, 3, 2, 3, 1, 2, 3, 2, 3, 2, 3, 4, 3, 4, 2];
    for (b, e) in expected.iter().enumerate() {
        assert_eq!(t.beetles(b), *e);
    }
    let sum: usize = [2, 4, 7, 16].iter().map(|&b| t.beetles(b)).sum();
    assert_eq!(sum, 10);
}

#[test]
fn lookup_without_stamp_one_keeps_the_cap() {
    let t = LookUp::new(&[3, 5], 7);
    assert_eq!(t.table, vec![0, 7, 7, 1, 7, 1, 2, 7]);
    let t = LookUp::new(&[0, 2], 4);
    assert_eq!(t.table, vec![0, 4, 1, 4, 2]);
    let t = LookUp::new(&[], 0);
    assert_eq!(t.table, vec![0]);
}

#[test]
fn lookup_split_in_two_near_the_middle() {
    let t = LookUp::new(&[1], 200);
    assert_eq!(t.dual_beetles(100), 100);
    let t = LookUp::new(&[1, 60], 200);
    assert_eq!(t.dual_beetles(110), 51);
    assert_eq!(t.dual_beetles(98), 39);
}

#[test]
fn blocks_of_a_spell() {
    assert_eq!(count_blocks(90, &[1, 2, 3, 5, 9]), 193);
    assert_eq!(count_blocks(90, &[]), 0);
    assert_eq!(count_blocks(0, &[4]), 0);
    assert!(blocks_within(90, &vec![1, 2, 3, 5, 9], 193));
    assert!(!blocks_within(90, &vec![1, 2, 3, 5, 9], 192));
    assert!(!blocks_within(usize::MAX, &vec![1, 1], usize::MAX));
}

#[test]
fn wall_that_no_spell_built_is_left_where_the_search_ended() {
    let mut wall = vec![1, 0];
    assert_eq!(reconstruct_spell(&mut wall), None);
    assert_eq!(wall, vec![0, 0]);
    let mut second = vec![1, 2, 1, 1];
    assert_eq!(reconstruct_spell(&mut second), None);
    assert_eq!(second, vec![0, 0, 0, 0]);
    let mut late = vec![1, 1, 2, 1, 1, 1];
    assert_eq!(reconstruct_spell(&mut late), None);
    assert_eq!(late, vec![0, 0, 0, 0, 0, 0]);
}

#[test]
fn spell_is_found_again_from_its_wall() {
    let mut wall = vec![1, 2, 2, 2, 2, 3, 1, 2, 3, 3, 1, 3, 1, 2, 3, 2];
    assert_eq!(reconstruct_spell(&mut wall), Some(vec![1, 2, 3, 5, 9]));
    assert_eq!(wall, vec![0; 16]);
    let mut none: Vec<usize> = vec![];
    assert_eq!(reconstruct_spell(&mut none), Some(vec![]));
    assert_eq!(none, Vec::<usize>::new());
    let mut third = vec![0, 0, 1];
    assert_eq!(reconstruct_spell(&mut third), Some(vec![3]));
    assert_eq!(third, vec![0, 0, 0]);
    // Blocks that no number of the spell accounts for are left standing.
    let mut more = vec![2, 2];
    assert_eq!(reconstruct_spell(&mut more), Some(vec![1, 2]));
    assert_eq!(more, vec![1, 0]);
    let mut tall = vec![3, 0, 0, 1];
    assert_eq!(reconstruct_spell(&mut tall), None);
    assert_eq!(tall, vec![2, 0, 0, 1]);
}

#[test]
fn longest_wall_for_the_blocks() {
    let spell = vec![1, 2, 3, 5, 9];
    assert_eq!(longest_wall(&spell, 193), 90);
    assert_eq!(longest_wall(&spell, 192), 89);
    assert_eq!(longest_wall(&spell, 0), 0);
    assert_eq!(longest_wall(&vec![], 17), 17);
    assert_eq!(longest_wall(&vec![2], 3), 3);
}

#[test]
fn segment_takes_one_number_a_side() {
    let mut s = Segment::new(5);
    assert!(!s.insert(5));
    assert!(s.insert(3));
    assert!(!s.insert(4));
    assert!(s.insert(7));
    assert!(!s.insert(9));
    assert_eq!(s, Segment { left: Some(3), value: 5, right: Some(7) });
    assert_eq!(s.score(), Some(357));
}

#[test]
fn segment_score_reads_the_digits() {
    assert_eq!(Segment { left: None, value: 7, right: Some(8) }.score(), Some(78));
    assert_eq!(Segment { left: Some(5), value: 10, right: None }.score(), Some(510));
    assert_eq!(Segment { left: Some(-3), value: 5, right: None }.score(), Some(-35));
    assert_eq!(Segment { left: Some(3), value: -5, right: None }.score(), None);
    assert_eq!(Segment { left: Some(0), value: 0, right: Some(0) }.score(), Some(0));
    let big = i32::MAX;
    assert_eq!(Segment { left: Some(big), value: big, right: Some(big) }.score(), None);
    assert_eq!(
        Segment { left: None, value: 922337203, right: Some(685477580) }.score(),
        Some(922337203685477580)
    );
}

#[test]
fn sword_spine_and_key() {
    let sword = Sword::read("58:5,3,7,8,9,10,4,5,7,8,8\n").unwrap();
    assert_eq!(sword.id, 58);
    assert_eq!(
        sword.fishbone,
        vec![
            Segment { left: Some(3), value: 5, right: Some(7) },
            Segment { left: Some(4), value: 8, right: Some(9) },
            Segment { left: Some(5), value: 10, right: None },
            Segment { left: None, value: 7, right: Some(8) },
            Segment { left: None, value: 8, right: None },
        ]
    );
    assert_eq!(sword.read_spine(), Some(581078));
    assert_eq!(sword.sort_key(), Some((581078, vec![357, 489, 510, 78, 8], 58)));
    assert!(Sword::read("58;5,3").is_none());
    assert!(Sword::read("x:5,3").is_none());
    assert!(Sword::read("1:5,,3").is_none());
    let empty = Sword::forge(3, &vec![]);
    assert_eq!(empty.read_spine(), None);
    assert_eq!(empty.sort_key(), None);
}

#[test]
fn triangle_neighbours_and_jumps() {
    let t = Triangle {
        grid: vec![vec!['T'; 7], vec!['T'; 5], vec!['T'; 3], vec!['T'; 1]],
        start: (0, 0),
        exit: (3, 0),
    };
    assert_eq!(t.get_neighbours((1, 2)), vec![(1, 2), (1, 1), (1, 3), (0, 3)]);
    assert_eq!(t.get_neighbours((0, 1)), vec![(0, 1), (0, 0), (0, 2), (1, 0)]);
    assert_eq!(t.get_neighbours((0, 0)), vec![(0, 0), (0, 1)]);
    assert_eq!(t.get_neighbours((3, 0)), vec![(3, 0), (2, 1)]);
    assert_eq!(t.jump_counter_clockwise((0, 0)), (3, 0));
    assert_eq!(t.jump_counter_clockwise((0, 1)), (2, 1));
    assert_eq!(t.jump_counter_clockwise((1, 2)), (1, 2));
    assert_eq!(t.jump_counter_clockwise((3, 0)), (0, 6));
    assert_eq!(t.jump_counter_clockwise((0, 6)), (0, 0));
}

#[test]
fn die_rolls_by_its_rule() {
    let mut die = Die::read_str("1: faces=[1,2,3,4,5,6] seed=7").unwrap();
    assert_eq!((die.id, die.seed, die.pulse, die.index, die.roll_number), (1, 7, 7, 0, 0));
    assert!(die.check_roll());
    assert_eq!(die.roll(), 2);
    assert_eq!((die.pulse, die.index, die.roll_number), (9, 1, 1));
    assert_eq!(die.roll(), 2);
    assert_eq!((die.pulse, die.index, die.roll_number), (16, 1, 2));
    assert_eq!(die.roll(), 2);
    assert_eq!((die.pulse, die.index, die.roll_number), (12, 1, 3));
    let mut other = Die::new(2, vec![-1, 0, 10], 3);
    let rolled: Vec<i32> = (0..4).map(|_| other.roll()).collect();
    assert_eq!(rolled, vec![-1, 0, 0, 10]);
}

#[test]
fn die_that_cannot_roll() {
    assert!(!Die::new(1, vec![1], 0).check_roll());
    assert!(!Die::new(1, vec![], 5).check_roll());
    let mut worn = Die::new(1, vec![1], 5);
    worn.roll_number = usize::MAX;
    assert!(!worn.check_roll());
    let mut heavy = Die::new(1, vec![1], 5);
    heavy.pulse = usize::MAX;
    assert!(!heavy.check_roll());
}

#[test]
fn dice_are_read_from_text() {
    let dice = read_dice("1: faces=[1,2] seed=7\n2: faces=[-1,0,9] seed=13\n").unwrap();
    assert_eq!(dice.len(), 2);
    assert_eq!((dice[1].id, dice[1].faces.clone(), dice[1].seed), (2, vec![-1, 0, 9], 13));
    assert!(read_dice("1: faces=[1,2] seed=7\nnonsense").is_none());
    assert!(Die::read_str("1 faces=[1] seed=7").is_none());
    assert!(Die::read_str("1: faces=[1 seed=7").is_none());
    assert!(Die::read_str("1: faces=[] seed=7").is_none());
    assert!(Die::read_str("1: faces=[1]").is_none());
    assert!(Die::read_str("1: faces=[1] seed=7 more").is_some());
    assert_eq!(read_dice("").map(|d| d.len()), Some(0));
}

#[test]
fn nails_are_struck_level() {
    assert_eq!(count_strikes("3\n4\n7\n8\n"), Ok(10));
    assert_eq!(count_strikes_advanced("2\n4\n5\n6\n8"), Ok(8));
    assert_eq!(count_strikes("5"), Ok(0));
    assert_eq!(parse("3\n+4\r\n7"), Ok(vec![3, 4, 7]));
    assert_eq!(strikes_at(&vec![1, 9], 4), Some(8));
}

#[test]
fn nails_that_cannot_be_counted() {
    assert_eq!(count_strikes(""), Err(NailError::NoNails));
    assert_eq!(count_strikes_advanced(""), Err(NailError::NoNails));
    assert_eq!(count_strikes("3\nx"), Err(NailError::BadRow));
    assert_eq!(count_strikes("3\n\n4"), Err(NailError::BadRow));
    assert_eq!(count_strikes_advanced("-3"), Err(NailError::BadRow));
    assert_eq!(parse("99999999999999999999999"), Err(NailError::BadRow));
    let many = format!("0\n{}\n{}", usize::MAX, usize::MAX);
    assert_eq!(count_strikes(&many), Err(NailError::TooManyStrikes));
    assert_eq!(count_strikes_advanced(&many), Err(NailError::TooManyStrikes));
    let two = format!("0\n{}", usize::MAX);
    assert_eq!(count_strikes(&two), Ok(usize::MAX));
}

#[test]
fn race_gathers_power_step_by_step() {
    let race = Race {
        id: "A".to_string(),
        devices: vec![Device::Plus, Device::Minus, Device::Equal, Device::Equal],
    };
    assert_eq!(race.score(), 41);
    let sinking = Race { id: "B".to_string(), devices: vec![Device::Minus; 12] };
    assert_eq!(sinking.score(), 45);
    let idle = Race { id: "C".to_string(), devices: vec![] };
    assert_eq!(idle.score(), 0);
}

#[test]
fn race_on_a_track() {
    let race = Race { id: "A".to_string(), devices: vec![Device::Minus] };
    assert_eq!(race.score_on_track(&[Track::Plus, Track::S], 2), 42);
    assert_eq!(race.score_on_track(&[Track::Plus, Track::S], 0), 0);
    assert_eq!(race.score_on_track(&[], 5), 0);
    let idle = Race { id: "C".to_string(), devices: vec![] };
    assert_eq!(idle.score_on_track(&[Track::Plus], 3), 0);
    let long = Race { id: "D".to_string(), devices: vec![Device::Plus, Device::Equal, Device::Minus] };
    // Track of two, plan of three: + with Plus, = with Equal, + with Minus, = with Plus.
    assert_eq!(long.score_on_track(&[Track::Plus, Track::Equal], 2), 11 + 11 + 12 + 13);
}

#[test]
fn all_plans_of_five_three_three() {
    let plans = get_valid_action_plans();
    assert_eq!(plans.len(), 9240);
    let p = Device::Plus;
    let m = Device::Minus;
    let e = Device::Equal;
    assert_eq!(plans[0], vec![p, p, p, p, p, m, m, m, e, e, e]);
    assert_eq!(plans[9239], vec![e, e, e, m, m, m, p, p, p, p, p]);
    for plan in &plans {
        assert_eq!(plan.iter().filter(|d| **d == p).count(), 5);
        assert_eq!(plan.iter().filter(|d| **d == m).count(), 3);
    }
    assert_eq!(generate(vec![e], 1, 1, 0), vec![vec![e, p, m], vec![e, m, p]]);
}

#[test]
fn remainders_written_one_after_the_other() {
    assert_eq!(concat_ints(&[2, 4, 3, 1]), 1342);
    assert_eq!(concat_ints(&[0, 10, 0]), 100);
    assert_eq!(concat_ints(&[]), 0);
    assert_eq!(eni_1(2, 4, 5), 1342);
    assert_eq!(eni_1(3, 5, 16), 311193);
    assert_eq!(eni_1(7, 0, 5), 0);
    assert_eq!(eni_1(7, 3, 1), 0);
}

#[test]
fn rows_are_read_and_summed() {
    assert_eq!(parse_kv("A=4"), 4);
    assert_eq!(parse_kv("=17"), 17);
    assert_eq!(read_kv(&"A=4".chars().collect()), Some(4));
    assert_eq!(read_kv(&"A4".chars().collect()), None);
    assert_eq!(read_kv(&"A=x".chars().collect()), None);
    assert_eq!(read_kv(&"A=4=5".chars().collect()), None);
    let rows = parse_rows("A=4 B=4 C=6 X=3 Y=4 Z=5 M=11\nA=8 B=4 C=7 X=8 Y=4 Z=6 M=12");
    assert_eq!(
        read_rows("A=4 B=4 C=6 X=3 Y=4 Z=5 M=11\nA=8 B=4 C=7 X=8 Y=4 Z=6 M=12").unwrap(),
        rows
    );
    assert_eq!(rows[0], Row { a: 4, b: 4, c: 6, x: 3, y: 4, z: 5, m: 11 });
    assert_eq!(rows.len(), 2);
    assert_eq!(sum_triple(&rows[0], eni_1), Some(114644));
    assert_eq!(sum_triple(&rows[1], eni_1), Some(48661009));
    assert_eq!(sum_triple(&rows[0], |_, _, _| usize::MAX), None);
    assert!(read_rows("A=4 B=4 C=6 X=3 Y=4 Z=5").is_none());
    assert!(read_rows("A=4 B=4 C=6 X=3 Y=4 Z=5 M=11 N=1").is_none());
    assert_eq!(parse_rows(""), Vec::<Row>::new());
}

#[test]
fn potions_for_groups() {
    assert_eq!(count_potions("ABBAC", 1), 5);
    assert_eq!(count_potions("AxBCDDCAxD", 2), 28);
    assert_eq!(count_potions("xBxAAABCDxCC", 3), 30);
    assert_eq!(count_potions("", 3), 0);
    assert_eq!(count_potions("BC", 5), 6);
    assert_eq!(count_potions("xxx", 3), 0);
}

#[test]
fn turrets_rank_their_hits() {
    let p = |x, y| Point { x, y };
    assert_eq!(ranking_score(p(3, 5)), Some(9));
    assert_eq!(ranking_score(p(5, 3)), Some(3));
    assert_eq!(ranking_score(p(7, 1)), Some(6));
    assert_eq!(ranking_score(p(1, -5)), Some(0));
    assert_eq!(ranking_score(p(0, 0)), Some(0));
    assert_eq!(ranking_score(p(100_000, 200_000)), None);
    assert_eq!(meteor_intercept_position(p(6, 5)), Some(p(3, 2)));
    assert_eq!(meteor_intercept_position(p(7, 5)), Some(p(3, 1)));
    assert_eq!(meteor_intercept_position(p(-7, 5)), Some(p(-3, 9)));
    assert_eq!(meteor_intercept_position(p(i32::MIN, i32::MAX)), None);
}

fn example_dance() -> Dance {
    Dance {
        grid: vec![vec![2, 3, 4, 5], vec![3, 4, 5, 2], vec![4, 5, 2, 3], vec![5, 2, 3, 4]],
        round: 0,
    }
}

#[test]
fn dance_of_ten_rounds() {
    let mut dance = example_dance();
    assert_eq!(dance.get_number(), Ok(2345));
    assert!(dance.check_move());
    assert_eq!(dance.move_dancer(), Ok(()));
    assert_eq!(dance.grid[1], vec![3, 2, 4, 5, 2]);
    assert_eq!(dance.grid[0], vec![3, 4, 5]);
    assert_eq!(dance.get_number(), Ok(3345));
    assert_eq!(dance.get_round(), 1);
    for _ in 1..10 {
        assert!(dance.check_move());
        dance.move_dancer().unwrap();
    }
    assert_eq!(dance.get_round(), 10);
    assert_eq!(dance.get_number(), Ok(2323));
}

#[test]
fn dance_with_an_empty_column() {
    let mut dance = Dance { grid: vec![vec![], vec![7]], round: 0 };
    assert_eq!(dance.get_number(), Err(DanceError::EmptyColumn));
    assert!(dance.check_move());
    assert_eq!(dance.move_dancer(), Err(DanceError::EmptyColumn));
    assert_eq!(dance.get_round(), 1);
    assert_eq!(dance.grid, vec![vec![], vec![7]]);
    // The dancer of the second column would walk round an empty column.
    assert!(!dance.check_move());
    assert!(!Dance { grid: vec![], round: 0 }.check_move());
    assert_eq!(Dance { grid: vec![], round: 0 }.get_number(), Err(DanceError::BadNumber));
    let wide = Dance { grid: vec![vec![usize::MAX], vec![usize::MAX]], round: 0 };
    assert_eq!(wide.get_number(), Err(DanceError::BadNumber));
}

#[test]
fn dancer_walks_up_the_other_side() {
    // Dancer 6 round a column of 4: down 1..4, up 5..8; she ends going up
    // at the third dancer from the front and stands behind her.
    let mut dance = Dance { grid: vec![vec![6], vec![1, 2, 3, 4]], round: 0 };
    dance.move_dancer().unwrap();
    assert_eq!(dance.grid, vec![vec![], vec![1, 2, 3, 6, 4]]);
    // Dancer 4 ends going down at the last dancer and stands in front of her.
    let mut dance = Dance { grid: vec![vec![4], vec![1, 2, 3, 4]], round: 0 };
    dance.move_dancer().unwrap();
    assert_eq!(dance.grid, vec![vec![], vec![1, 2, 3, 4, 4]]);
    let mut dance = Dance { grid: vec![vec![8], vec![1, 2, 3, 4]], round: 0 };
    dance.move_dancer().unwrap();
    assert_eq!(dance.grid, vec![vec![], vec![1, 8, 2, 3, 4]]);
}
