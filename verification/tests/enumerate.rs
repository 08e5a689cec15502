use state_search::enumerate::{count_terminal_states, Enumerator, Mark, TableGame, TurnGame};
use state_search::table::{fingerprint_of, same_state, TranspositionTable};

fn game(marks: Vec<Mark>, moves: Vec<Vec<u64>>) -> TableGame {
    let g = TableGame { marks, moves };
    assert!(g.check());
    g
}

fn brute_force(g: &TableGame, state: &Vec<i64>, expanded: &mut u64) -> u64 {
    if g.is_terminal(state) {
        return 1;
    }
    if g.is_dead(state) {
        return 0;
    }
    *expanded += 1;
    let mut total = 0;
    for next in g.successors(state) {
        total += brute_force(g, &next, expanded);
    }
    total
}

#[test]
fn one_terminal_move_counts_one() {
    let g = game(vec![Mark::Open, Mark::Terminal], vec![vec![1], vec![]]);
    assert_eq!(count_terminal_states(&vec![0], &g), Some(1));
}

#[test]
fn two_branches_count_two() {
    let g = game(
        vec![Mark::Open, Mark::Terminal, Mark::Terminal],
        vec![vec![1, 2], vec![], vec![]],
    );
    assert_eq!(count_terminal_states(&vec![0], &g), Some(2));
}

#[test]
fn shared_state_is_counted_on_every_way_but_expanded_once() {
    // Rows 1 and 2 both lead to row 3.
    let g = game(
        vec![Mark::Open, Mark::Open, Mark::Open, Mark::Open, Mark::Terminal],
        vec![vec![1, 2], vec![3], vec![3], vec![4], vec![]],
    );
    let mut plain_expansions = 0;
    let plain = brute_force(&g, &vec![0], &mut plain_expansions);
    let mut walk = Enumerator::new(&g);
    let counted = walk.count(&g, &vec![0]);
    assert_eq!(plain, 2);
    assert_eq!(counted, Some(plain));
    assert_eq!(plain_expansions, 5);
    assert_eq!(walk.expanded(), 4);
    assert_eq!(walk.remembered(&g, &vec![3]), Some(1));
    assert_eq!(walk.remembered(&g, &vec![0]), Some(2));
    assert_eq!(walk.remembered(&g, &vec![4]), None);
}

#[test]
fn dead_state_counts_nothing_and_is_not_expanded() {
    // Row 0 is dead although a terminal row could be reached from it.
    let g = game(vec![Mark::Dead, Mark::Terminal], vec![vec![1], vec![]]);
    let mut walk = Enumerator::new(&g);
    assert_eq!(walk.count(&g, &vec![0]), Some(0));
    assert_eq!(walk.expanded(), 0);
    assert_eq!(walk.remembered(&g, &vec![0]), None);
}

#[test]
fn dead_branch_adds_nothing() {
    let g = game(
        vec![Mark::Open, Mark::Dead, Mark::Open, Mark::Terminal],
        vec![vec![1, 2], vec![3], vec![3], vec![]],
    );
    let mut walk = Enumerator::new(&g);
    assert_eq!(walk.count(&g, &vec![0]), Some(1));
    assert_eq!(walk.expanded(), 2);
    assert_eq!(walk.remembered(&g, &vec![1]), None);
}

#[test]
fn open_state_without_moves_counts_nothing() {
    let g = game(vec![Mark::Open], vec![vec![]]);
    assert_eq!(count_terminal_states(&vec![0], &g), Some(0));
}

#[test]
fn state_outside_the_table_is_dead() {
    let g = game(vec![Mark::Terminal], vec![vec![]]);
    assert_eq!(count_terminal_states(&vec![5], &g), Some(0));
    assert_eq!(count_terminal_states(&vec![], &g), Some(0));
    assert_eq!(count_terminal_states(&vec![0, 0], &g), Some(0));
    assert_eq!(count_terminal_states(&vec![0], &g), Some(1));
}

#[test]
fn counts_beyond_32_bits() {
    // A ladder of 40 rungs with two ways from each rung to the next: 2^40 outcomes.
    let rungs = 40;
    let mut marks = vec![Mark::Open; rungs];
    marks.push(Mark::Terminal);
    let mut moves: Vec<Vec<u64>> = (0..rungs as u64).map(|r| vec![r + 1, r + 1]).collect();
    moves.push(vec![]);
    let g = game(marks, moves);
    assert_eq!(count_terminal_states(&vec![0], &g), Some(1u64 << 40));
}

#[test]
fn count_that_leaves_64_bits_is_none() {
    let rungs = 64;
    let mut marks = vec![Mark::Open; rungs];
    marks.push(Mark::Terminal);
    let mut moves: Vec<Vec<u64>> = (0..rungs as u64).map(|r| vec![r + 1, r + 1]).collect();
    moves.push(vec![]);
    let g = game(marks, moves);
    assert_eq!(count_terminal_states(&vec![0], &g), None);
    assert_eq!(count_terminal_states(&vec![1], &g), Some(1u64 << 63));
}

#[test]
fn table_check_refuses_backward_moves() {
    let g = TableGame { marks: vec![Mark::Open, Mark::Open], moves: vec![vec![1], vec![0]] };
    assert!(!g.check());
    let g = TableGame { marks: vec![Mark::Open, Mark::Open], moves: vec![vec![1]] };
    assert!(!g.check());
    let g = TableGame { marks: vec![Mark::Open], moves: vec![vec![0]] };
    assert!(!g.check());
}

#[test]
fn table_keeps_states_with_one_fingerprint_apart() {
    // 1_000_003 and 0 leave the same remainder, so the two states share a bucket.
    let a = vec![0i64];
    let b = vec![1_000_003i64];
    assert_eq!(fingerprint_of(&a), fingerprint_of(&b));
    assert!(!same_state(&a, &b));
    let mut table = TranspositionTable::new();
    assert_eq!(table.get(&a), None);
    table.insert(a.clone(), 7);
    assert_eq!(table.get(&a), Some(7));
    assert_eq!(table.get(&b), None);
    table.insert(b.clone(), 9);
    assert_eq!(table.get(&a), Some(7));
    assert_eq!(table.get(&b), Some(9));
    assert_eq!(table.get(&vec![0, 0]), None);
}

#[test]
fn fingerprint_follows_its_rule() {
    assert_eq!(fingerprint_of(&vec![]), 0);
    assert_eq!(fingerprint_of(&vec![5]), 5);
    assert_eq!(fingerprint_of(&vec![5, 2]), 157);
    assert_eq!(fingerprint_of(&vec![-1]), u64::MAX % 1_000_003);
}
