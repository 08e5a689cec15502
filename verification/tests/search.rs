use state_search::graph::{AnyOf, TableGraph};
use state_search::frontier::{Frontier, KeyedFrontier, LazyFrontier};
use state_search::search::{distances, nearest_goal, shortest_path, shortest_path_lazy, shortest_paths};

const A: u64 = 0;
const B: u64 = 1;
const C: u64 = 2;
const D: u64 = 3;

fn both_ways(edges: &[(u64, u64, u64)], nodes: usize) -> TableGraph {
    let mut rows = vec![Vec::new(); nodes];
    for &(from, to, cost) in edges {
        rows[from as usize].push((to, cost));
        rows[to as usize].push((from, cost));
    }
    TableGraph { rows }
}

fn diamond() -> TableGraph {
    both_ways(&[(A, B, 2), (B, D, 2), (A, C, 1), (C, D, 5)], 4)
}

#[test]
fn diamond_takes_the_cheaper_side() {
    let g = diamond();
    assert_eq!(shortest_path(&g, &vec![(A, 0)], D), Some(4));
}

#[test]
fn diamond_lazy_frontier_agrees() {
    let g = diamond();
    assert_eq!(shortest_path_lazy(&g, &vec![(A, 0)], D), Some(4));
}

#[test]
fn asking_twice_gives_the_same() {
    let g = diamond();
    let first = shortest_path(&g, &vec![(A, 0)], D);
    let second = shortest_path(&g, &vec![(A, 0)], D);
    assert_eq!(first, second);
}

#[test]
fn relaxed_twice_before_settled() {
    // 0 -> 3 directly costs 10, via 1 costs 7, via 1 and 2 costs 4:
    // state 3 is offered three times before it is settled.
    let g = TableGraph {
        rows: vec![
            vec![(3, 10), (1, 1)],
            vec![(3, 6), (2, 1)],
            vec![(3, 2)],
            vec![(4, 1)],
            vec![],
        ],
    };
    let keyed = shortest_path(&g, &vec![(0, 0)], 4);
    let lazy = shortest_path_lazy(&g, &vec![(0, 0)], 4);
    assert_eq!(keyed, Some(5));
    assert_eq!(lazy, keyed);
}

#[test]
fn no_sources_finds_nothing() {
    let g = diamond();
    assert_eq!(shortest_path(&g, &vec![], D), None);
}

#[test]
fn no_goals_gives_no_answers() {
    let g = diamond();
    assert_eq!(shortest_paths(&g, &vec![(A, 0)], &vec![]), Vec::<Option<u64>>::new());
    assert_eq!(nearest_goal(&g, &vec![(A, 0)], &AnyOf(vec![]), KeyedFrontier::new()), None);
}

#[test]
fn unreachable_goal_is_not_found() {
    let g = TableGraph { rows: vec![vec![(1, 3)], vec![], vec![(0, 1)]] };
    assert_eq!(shortest_path(&g, &vec![(0, 0)], 2), None);
    assert_eq!(shortest_path(&g, &vec![(0, 0)], 77), None);
}

#[test]
fn source_is_its_own_goal() {
    let g = diamond();
    assert_eq!(shortest_path(&g, &vec![(A, 7)], A), Some(7));
}

#[test]
fn several_sources_with_starting_distances() {
    let g = diamond();
    // From A at 10 the goal costs 14, from C at 1 it costs 6.
    assert_eq!(shortest_path(&g, &vec![(A, 10), (C, 1)], D), Some(6));
    assert_eq!(shortest_path(&g, &vec![(C, 1), (A, 10)], A), Some(2));
}

#[test]
fn per_goal_distances() {
    let g = TableGraph { rows: vec![vec![(1, 2), (2, 9)], vec![(2, 3)], vec![], vec![(0, 1)]] };
    let found = shortest_paths(&g, &vec![(0, 0)], &vec![2, 3, 0, 1, 2]);
    assert_eq!(found, vec![Some(5), None, Some(0), Some(2), Some(5)]);
}

#[test]
fn any_of_several_goals() {
    let g = diamond();
    let goal = AnyOf(vec![D, C]);
    assert_eq!(nearest_goal(&g, &vec![(A, 0)], &goal, LazyFrontier::new()), Some(1));
}

#[test]
fn distance_table_covers_what_is_reachable() {
    let g = TableGraph { rows: vec![vec![(1, 2), (2, 9)], vec![(2, 3)], vec![], vec![(0, 1)]] };
    let table = distances(&g, &vec![(0, 0)]);
    assert_eq!(table.len(), 3);
    assert_eq!(table.get(&0), Some(&0));
    assert_eq!(table.get(&1), Some(&2));
    assert_eq!(table.get(&2), Some(&5));
    assert_eq!(table.get(&3), None);
}

#[test]
fn totals_beyond_64_bits_are_not_routes() {
    let g = TableGraph { rows: vec![vec![(1, u64::MAX)], vec![(2, 1)], vec![]] };
    assert_eq!(shortest_path(&g, &vec![(0, 0)], 1), Some(u64::MAX));
    assert_eq!(shortest_path(&g, &vec![(0, 0)], 2), None);
    assert_eq!(shortest_path(&g, &vec![(0, 1)], 1), None);
}

#[test]
fn keyed_frontier_lowers_in_place() {
    let mut f = KeyedFrontier::new();
    assert_eq!(f.push(5, 9), None);
    f.decrease(5, 4);
    f.decrease(5, 6);
    f.decrease(7, 5);
    assert_eq!(f.pop_min(), Some((5, 4)));
    assert_eq!(f.change_priority(7, 1), Some(5));
    assert_eq!(f.change_priority(8, 1), None);
    assert_eq!(f.pop_min(), Some((7, 1)));
    assert_eq!(f.pop_min(), None);
}

#[test]
fn lazy_frontier_keeps_stale_entries_in_order() {
    let mut f = LazyFrontier::new();
    f.decrease(5, 9);
    f.decrease(6, 4);
    f.decrease(5, 4);
    f.decrease(5, 4);
    assert_eq!(f.len(), 3);
    assert_eq!(f.pop_min(), Some((6, 4)));
    assert_eq!(f.pop_min(), Some((5, 4)));
    assert_eq!(f.pop_min(), Some((5, 9)));
    assert_eq!(f.pop_min(), None);
}
