use state_search::elevation::{read_grid, ring_shift_of, shortest_times, Grid};
use state_search::graph::StateGraph;
use state_search::maze::{find_distance, herb_of, Maze};
use state_search::point::Point;

fn p(x: i32, y: i32) -> Point {
    Point { x, y }
}

#[test]
fn ring_goes_the_shorter_way() {
    assert_eq!(ring_shift_of(0, 0), 0);
    assert_eq!(ring_shift_of(1, 9), 2);
    assert_eq!(ring_shift_of(9, 0), 1);
    assert_eq!(ring_shift_of(2, 7), 5);
    assert_eq!(ring_shift_of(3, 7), 4);
}

#[test]
fn grid_is_read_row_by_row() {
    let g = read_grid("S1#\n 9E\n").unwrap();
    assert_eq!(g.starts, vec![p(0, 0)]);
    assert_eq!(g.goals, vec![p(2, 1)]);
    assert_eq!(g.nodes.len(), 4);
    assert_eq!(g.nodes.get(&p(0, 0).key()), Some(&0));
    assert_eq!(g.nodes.get(&p(1, 0).key()), Some(&1));
    assert_eq!(g.nodes.get(&p(1, 1).key()), Some(&9));
    assert_eq!(g.nodes.get(&p(2, 1).key()), Some(&0));
    assert_eq!(g.nodes.get(&p(2, 0).key()), None);
    assert!(read_grid("S1x").is_none());
    assert!(read_grid("").unwrap().nodes.is_empty());
}

#[test]
fn times_along_a_corridor() {
    let g = read_grid("S19E").unwrap();
    let times = shortest_times(&g, g.starts[0]);
    assert_eq!(times.get(&p(0, 0).key()), Some(&0));
    assert_eq!(times.get(&p(1, 0).key()), Some(&2));
    assert_eq!(times.get(&p(2, 0).key()), Some(&5));
    assert_eq!(times.get(&g.goals[0].key()), Some(&7));
    assert_eq!(times.len(), 4);
}

#[test]
fn times_choose_the_cheaper_of_two_ways() {
    // Over the top: 0 -> 5 -> 0 costs 6 + 6 and two more steps at level 0.
    // Along the bottom every step costs 1.
    let g = read_grid("S5E\n000").unwrap();
    let times = shortest_times(&g, g.starts[0]);
    assert_eq!(times.get(&g.goals[0].key()), Some(&4));
    assert_eq!(times.get(&p(1, 0).key()), Some(&6));
}

#[test]
fn walls_cut_the_grid() {
    let g = read_grid("S#E").unwrap();
    let times = shortest_times(&g, g.starts[0]);
    assert_eq!(times.get(&g.goals[0].key()), None);
    assert_eq!(times.len(), 1);
}

#[test]
fn grid_edges_in_the_order_of_the_directions() {
    let g = read_grid("123\n456\n789").unwrap();
    let edges = g.neighbors(p(1, 1).key());
    assert_eq!(
        edges,
        vec![(p(2, 1).key(), 2), (p(0, 1).key(), 2), (p(1, 2).key(), 4), (p(1, 0).key(), 4)]
    );
    assert_eq!(g.neighbors(p(5, 5).key()), vec![]);
    let empty = Grid { nodes: Default::default(), starts: vec![], goals: vec![] };
    assert_eq!(empty.neighbors(0), vec![]);
}

#[test]
fn point_keys_go_back_and_forth() {
    for q in [p(0, 0), p(-1, 1), p(i32::MIN, i32::MAX), p(i32::MAX, i32::MIN), p(7, -9)] {
        assert_eq!(Point::from_key(q.key()), q);
    }
    assert_eq!(p(i32::MIN, i32::MIN).key(), 0);
    assert_eq!(p(i32::MAX, i32::MAX).key(), u64::MAX);
    assert_eq!(p(0, 0).key(), 0x8000_0000_8000_0000);
}

fn herb_garden() -> Maze {
    // #.#
    // A.B
    let mut m = Maze::new();
    assert!(m.insert(p(1, 0), '.'));
    assert!(m.insert(p(0, 1), 'A'));
    assert!(m.insert(p(1, 1), '.'));
    assert!(m.insert(p(2, 1), 'B'));
    m
}

#[test]
fn herbs_have_one_bit_each() {
    assert_eq!(herb_of('.'), 0);
    assert_eq!(herb_of('A'), 1);
    assert_eq!(herb_of('C'), 4);
    assert_eq!(herb_of('Z'), 1 << 25);
    assert_eq!(herb_of('a'), 0);
}

#[test]
fn maze_finds_cells_by_place() {
    let m = herb_garden();
    assert_eq!(m.len(), 4);
    assert_eq!(m.find(&p(1, 1)), Some(2));
    assert_eq!(m.find(&p(0, 0)), None);
    assert_eq!(m.symbol(1), 'A');
    assert_eq!(m.place(3), p(2, 1));
    assert_eq!(m.find_entrance(), Some(0));
    assert_eq!(m.gather_all(), 3);
}

#[test]
fn maze_insert_replaces_and_refuses() {
    let mut m = herb_garden();
    assert!(m.insert(p(0, 1), 'C'));
    assert_eq!(m.len(), 4);
    assert_eq!(m.symbol(1), 'C');
    assert!(!m.insert(p(9, 9), '#'));
    assert!(!m.insert(p(9, 9), 'a'));
    assert_eq!(m.len(), 4);
    assert_eq!(m.find(&p(9, 9)), None);
}

#[test]
fn all_herbs_and_back() {
    assert_eq!(find_distance(&herb_garden()), Some(6));
}

#[test]
fn maze_without_herbs_is_done_at_once() {
    let mut m = Maze::new();
    assert!(m.insert(p(3, 0), '.'));
    assert!(m.insert(p(3, 1), '.'));
    assert_eq!(find_distance(&m), Some(0));
}

#[test]
fn maze_with_a_herb_out_of_reach() {
    let mut m = herb_garden();
    assert!(m.insert(p(5, 5), 'C'));
    assert_eq!(find_distance(&m), None);
}

#[test]
fn maze_without_entrance() {
    let mut m = Maze::new();
    assert!(m.insert(p(0, 1), 'A'));
    assert_eq!(find_distance(&m), None);
    assert_eq!(find_distance(&Maze::new()), None);
}

#[test]
fn maze_edges_gather_what_grows() {
    let m = herb_garden();
    // From the middle cell with nothing gathered: right to B, left to A, up
    // to the entrance; nothing lies below.
    let from = 2 * 0x400_0000;
    assert_eq!(
        m.neighbors(from),
        vec![(3 * 0x400_0000 + 2, 1), (0x400_0000 + 1, 1), (0, 1)]
    );
    assert_eq!(m.neighbors(4 * 0x400_0000), vec![]);
}
