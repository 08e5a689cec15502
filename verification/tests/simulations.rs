use state_search::balloons::{colour_of, shoot_halves, shoot_line, shoot_ring};
use state_search::board::{Board, KnightMoves, State};
use state_search::die::{rolls_in_race, Die};
use state_search::graph::{StateGraph, TableGraph};
use state_search::order::rank;
use state_search::point::Point;
use state_search::search::distances_within;
use state_search::temple::{blocks_to_buy, layers_for};
use std::collections::VecDeque;

fn cs(s: &str) -> Vec<char> {
    s.chars().collect()
}

fn ring(s: &str, repeats: usize) -> VecDeque<char> {
    s.chars().cycle().take(repeats * s.chars().count()).collect()
}

#[test]
fn bolts_take_their_colours_in_turn() {
    let colours: Vec<char> = (0..7).map(colour_of).collect();
    assert_eq!(colours, cs("RGBRGBR"));
}

#[test]
fn bolts_for_a_line_of_balloons() {
    assert_eq!(shoot_line(&cs("GRBGGGBBBRRRRRRRR")), 7);
    assert_eq!(shoot_line(&cs("")), 1);
    assert_eq!(shoot_line(&cs("RRR")), 1);
    assert_eq!(shoot_line(&cs("G")), 1);
    assert_eq!(shoot_line(&cs("GG")), 2);
    assert_eq!(shoot_line(&cs("GR")), 2);
}

/// The ring shot bolt by bolt, with nothing looked ahead.
fn plain_ring(mut balloons: VecDeque<char>) -> usize {
    let mut index = 0;
    let mut bolt = Some('R');
    while !balloons.is_empty() {
        if bolt.is_none() {
            index += 1;
            bolt = Some(['R', 'G', 'B'][index % 3]);
            continue;
        }
        let even = balloons.len() % 2 == 0;
        let middle = (balloons.len() / 2).saturating_sub(1);
        let leader = balloons.pop_front();
        if bolt == leader && even {
            balloons.remove(middle);
        }
        bolt = None;
    }
    index + 1
}

#[test]
fn bolts_for_a_ring_of_balloons() {
    assert_eq!(shoot_ring(ring("GGBR", 5)), 14);
    for repeats in [1, 2, 3, 10, 50, 100] {
        assert_eq!(shoot_ring(ring("GGBR", repeats)), plain_ring(ring("GGBR", repeats)));
        assert_eq!(shoot_ring(ring("RGBBG", repeats)), plain_ring(ring("RGBBG", repeats)));
    }
    // Red bursts the first G, green the second, and blue the B and, the
    // ring being even then, the R opposite.
    assert_eq!(shoot_ring(ring("GGBR", 1)), 3);
    assert_eq!(shoot_ring(VecDeque::new()), 1);
    assert_eq!(shoot_ring(ring("R", 1)), 1);
    assert_eq!(shoot_ring(ring("R", 2)), 1);
    assert_eq!(shoot_ring(ring("G", 2)), 2);
}

#[test]
fn bolts_for_a_ring_in_two_halves() {
    for repeats in [1, 2, 5, 25, 50] {
        assert_eq!(
            shoot_halves(ring("GGBR", repeats), ring("GGBR", repeats)),
            shoot_ring(ring("GGBR", 2 * repeats))
        );
        assert_eq!(
            shoot_halves(ring("BBRGGRRGBBRGGBRGBBRRBRRRBGGRRRBGBGG", repeats), ring("BBRGGRRGBBRGGBRGBBRRBRRRBGGRRRBGBGG", repeats)),
            shoot_ring(ring("BBRGGRRGBBRGGBRGBBRRBRRRBGGRRRBGBGG", 2 * repeats))
        );
    }
    assert_eq!(shoot_halves(VecDeque::new(), VecDeque::new()), 1);
    assert_eq!(shoot_halves(VecDeque::new(), ring("R", 3)), 1);
    // An odd ring: the near half is one longer.
    let near: VecDeque<char> = "GRB".chars().collect();
    let far: VecDeque<char> = "RG".chars().collect();
    let whole: VecDeque<char> = "GRBRG".chars().collect();
    assert_eq!(shoot_halves(near, far), shoot_ring(whole));
}

#[test]
fn layers_of_a_temple() {
    assert_eq!(layers_for(0), 0);
    assert_eq!(layers_for(1), 1);
    assert_eq!(layers_for(2), 2);
    assert_eq!(layers_for(4), 2);
    assert_eq!(layers_for(13), 4);
    assert_eq!(layers_for(16), 4);
    assert_eq!(layers_for(17), 5);
    assert_eq!(layers_for(usize::MAX), 1 << 32);
    assert_eq!(blocks_to_buy(13), Some(21));
    assert_eq!(blocks_to_buy(1), Some(0));
    assert_eq!(blocks_to_buy(16), Some(0));
    assert_eq!(blocks_to_buy(10), Some(6 * 7));
    assert_eq!(blocks_to_buy(usize::MAX), Some((1 << 33) - 1));
    assert_eq!(blocks_to_buy(usize::MAX - (1 << 33)), Some(2 * ((1 << 33) - 3)));
    assert_eq!(blocks_to_buy(usize::MAX - (1 << 33) + 3), None);
}

fn p(x: i32, y: i32) -> Point {
    Point { x, y }
}

#[test]
fn sheep_within_reach_of_the_dragon() {
    let board = Board {
        width: 5,
        height: 5,
        shelters: vec![],
        init_state: State {
            dragon: p(0, 0),
            sheep: vec![p(1, 2), p(2, 4), p(0, 0), p(1, 1), p(100, 100), p(3, 3)],
            dragons_move: true,
        },
    };
    assert_eq!(board.count_sheep_in_range(0), 1);
    assert_eq!(board.count_sheep_in_range(1), 2);
    assert_eq!(board.count_sheep_in_range(2), 5);
    assert_eq!(board.count_sheep_in_range(3), 5);
}

#[test]
fn knight_moves_stop_at_the_last_squares() {
    assert_eq!(KnightMoves.neighbors(p(0, 0).key()).len(), 8);
    assert_eq!(
        KnightMoves.neighbors(p(i32::MAX, i32::MAX).key()),
        vec![(p(i32::MAX - 2, i32::MAX - 1).key(), 1), (p(i32::MAX - 1, i32::MAX - 2).key(), 1)]
    );
    assert_eq!(KnightMoves.neighbors(p(i32::MIN + 1, 0).key()).len(), 6);
}

#[test]
fn distances_up_to_a_limit() {
    let g = TableGraph { rows: vec![vec![(1, 2), (2, 9)], vec![(2, 3)], vec![(3, 1)], vec![]] };
    let near = distances_within(&g, &vec![(0, 0)], 5);
    assert_eq!(near.len(), 3);
    assert_eq!(near.get(&2), Some(&5));
    assert_eq!(near.get(&3), None);
    let nearer = distances_within(&g, &vec![(0, 0)], 4);
    assert_eq!(nearer.len(), 2);
    let all = distances_within(&g, &vec![(0, 0)], u64::MAX);
    assert_eq!(all.get(&3), Some(&6));
    assert_eq!(distances_within(&g, &vec![(0, 7)], 5).len(), 0);
}

#[test]
fn race_of_a_die_along_a_track() {
    let die = || Die::read_str("1: faces=[1,2,3,4,5,6] seed=7").unwrap();
    let mut d = die();
    assert_eq!(rolls_in_race(&vec![2, 2, 4], &mut d, 100), Some(5));
    assert_eq!(d.roll_number, 5);
    let mut d = die();
    assert_eq!(rolls_in_race(&vec![2, 2, 4], &mut d, 5), Some(5));
    let mut d = die();
    assert_eq!(rolls_in_race(&vec![2, 2, 4], &mut d, 4), None);
    assert_eq!(d.roll_number, 4);
    let mut d = die();
    assert_eq!(rolls_in_race(&vec![], &mut d, 0), Some(0));
    assert_eq!(d.roll_number, 0);
    let mut d = die();
    assert_eq!(rolls_in_race(&vec![9], &mut d, 50), None);
    assert_eq!(d.roll_number, 50);
    let mut broken = Die::new(1, vec![], 7);
    assert_eq!(rolls_in_race(&vec![1], &mut broken, 50), None);
    assert_eq!(broken.roll_number, 0);
}

#[test]
fn ranking_from_the_greatest_down() {
    assert_eq!(rank(&vec![5, 9, 5, 1]), vec![1, 2, 0, 3]);
    assert_eq!(rank(&vec![]), Vec::<usize>::new());
    assert_eq!(rank(&vec![i64::MIN, i64::MAX, 0]), vec![1, 2, 0]);
    assert_eq!(rank(&vec![7, 7, 7]), vec![2, 1, 0]);
}
