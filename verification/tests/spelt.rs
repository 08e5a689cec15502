use state_search::crates::{parse_crates, read_crates};
use state_search::die::{parse_dice, read_dice, Die};
use state_search::runes::{parse_words, read_words};
use state_search::sword::Sword;
use state_search::point::Point;
use state_search::race::Segment;
use state_search::world::{get_shortest_distance, World};
use state_search::{coins, dig, elevation, fruit, gears, names, plant, termites, track, turret, twins, whispers};

fn cs(text: &str) -> Vec<char> {
    text.chars().collect()
}

#[test]
fn words_and_sizes_that_are_spelt_are_read_as_they_stand() {
    assert_eq!(parse_words("WORDS:THE,OWE"), vec![cs("THE"), cs("OWE")]);
    assert_eq!(read_words("WORDS:THE,OWE"), Some(parse_words("WORDS:THE,OWE")));
    assert_eq!(read_words("WORD:THE"), None);
    assert_eq!(parse_crates(" 3,1,3\n"), vec![3, 1, 3]);
    assert_eq!(read_crates("3,x"), None);
    assert_eq!(gears::parse("12\n8\n4\n"), vec![12, 8, 4]);
    assert_eq!(gears::read("12\n-8"), None);
}

#[test]
fn dice_and_swords_that_are_spelt_are_read_as_they_stand() {
    let die = Die::from_str("3: faces=[1,-2,3] seed=7");
    assert_eq!((die.id, die.seed, die.roll_number, die.index, die.pulse), (3, 7, 0, 0, 7));
    assert_eq!(die.faces, vec![1, -2, 3]);
    assert!(Die::read_str("3 faces=[1] seed=7").is_none());
    let dice = parse_dice("1: faces=[1,2] seed=5\n2: faces=[3] seed=9");
    assert_eq!(dice.len(), 2);
    assert_eq!(dice[1].faces, vec![3]);
    assert!(read_dice("1: faces=[1,2] seed=5\nnone").is_none());
    let sword = Sword::new("58:5,3,7,8,9,10,4,5,7,8,8");
    assert_eq!(sword.id, 58);
    assert_eq!(sword.read_spine(), Some(581078));
    assert_eq!(Sword::read("58:5,3,7,8,9,10,4,5,7,8,8").unwrap().read_spine(), Some(581078));
    assert!(Sword::read("58;5").is_none());
}

#[test]
fn fields_trees_and_rules_that_are_spelt_are_read_as_they_stand() {
    assert_eq!(dig::parse(".#\n#."), vec![vec![0, 1], vec![1, 0]]);
    assert_eq!(dig::read(".#\n#x"), None);
    let roots = fruit::parse("RR:A,@\nA:@");
    assert_eq!(roots.len(), 2);
    assert_eq!(roots[0].branches, vec![cs("A"), cs("@")]);
    assert!(fruit::read("RR").is_none());
    let rules = termites::parse("A:B,C\nB:A");
    assert_eq!(rules[0].output, vec![cs("B"), cs("C")]);
    assert!(termites::read("A").is_none());
    let branch = plant::parse(&cs("U5,R3"));
    assert_eq!(branch.len(), 2);
    assert_eq!(branch[1].dist, 3);
    assert!(plant::read(&cs("U5,,R3")).is_none());
}

#[test]
fn notes_that_are_spelt_are_read_as_they_stand() {
    let (listed, steps) = whispers::parse("Ann,Bo\n\nR1,L2");
    assert_eq!(listed, vec![cs("Ann"), cs("Bo")]);
    assert_eq!(steps.len(), 2);
    assert_eq!(steps[1].delta, -2);
    assert!(whispers::read("Ann,Bo").is_none());
    let (first, rules) = names::parse("Ab,Ba\n\nA > b\nb > a");
    assert_eq!(first, vec![cs("Ab"), cs("Ba")]);
    assert!(rules.validate("Ab"));
    assert!(names::read("Ab,Ba").is_none());
    let commands = twins::parse("ADD id=1 left=[1,a] right=[2,b]\nSWAP 1");
    assert_eq!(commands.len(), 2);
    assert_eq!(commands[1], twins::Command::Swap { id: 1 });
    assert!(twins::read("SWAP").is_none());
}

#[test]
fn worlds_maps_and_tracks_that_are_spelt_are_read_as_they_stand() {
    let world = World::new("R3");
    assert_eq!(get_shortest_distance(&world), get_shortest_distance(&World::read("R3").unwrap()));
    assert!(World::read("X3").is_none());
    assert_eq!(turret::parse_meteors("6 5\n6 7"), vec![Point { x: 6, y: 5 }, Point { x: 6, y: 7 }]);
    assert!(turret::read_meteors("6;5").is_none());
    let grid = elevation::parse_grid("S1\n2E");
    assert_eq!(grid.starts.len(), 1);
    assert_eq!(elevation::nearest_start(&grid), elevation::nearest_start(&elevation::read_grid("S1\n2E").unwrap()));
    assert!(elevation::read_grid("S1\n2x").is_none());
    let ring = vec![Segment::Plus, Segment::Minus, Segment::Equal, Segment::S];
    assert_eq!(track::parse_rect_track("S+\n=-"), ring);
    assert_eq!(track::parse_curvy_track("S+\n=-", 4), ring);
    assert!(track::read_curvy_track("S+\n=-", 3).is_none());
    assert!(track::read_rect_track("S+").is_none());
    assert_eq!(coins::Grid::from_str("12\n3").rows, vec![vec![1, 2], vec![3]]);
    assert!(coins::Grid::read_str("1a").is_none());
}
