use state_search::board::{knight_move, Board, State};
use state_search::enumerate::{count_terminal_states, Enumerator, TurnGame};
use state_search::point::Point;

fn p(x: i32, y: i32) -> Point {
    Point { x, y }
}

fn board(width: i32, height: i32, dragon: Point, sheep: Vec<Point>, shelters: Vec<Point>) -> Board {
    Board { width, height, shelters, init_state: State { dragon, sheep, dragons_move: false } }
}

struct Plain {
    dragon: Point,
    sheep: Vec<Point>,
    dragons_move: bool,
}

fn inside(b: &Board, q: &Point) -> bool {
    q.x >= 0 && q.x < b.width && q.y >= 0 && q.y < b.height
}

/// The count by plain recursion over positions, with nothing remembered.
fn plain_count(b: &Board, s: &Plain) -> u64 {
    if s.sheep.is_empty() {
        return 1;
    }
    if s.sheep.iter().all(|q| !inside(b, q)) {
        return 0;
    }
    let mut count = 0;
    if s.dragons_move {
        for k in 0..8 {
            let (dx, dy) = knight_move(k);
            let to = p(s.dragon.x + dx as i32, s.dragon.y + dy as i32);
            if inside(b, &to) {
                let mut sheep = s.sheep.clone();
                if !b.shelters.contains(&to) {
                    if let Some(i) = sheep.iter().position(|q| *q == to) {
                        sheep.remove(i);
                    }
                }
                count += plain_count(b, &Plain { dragon: to, sheep, dragons_move: false });
            }
        }
    } else {
        let mut none_moved = true;
        for i in 0..s.sheep.len() {
            if inside(b, &s.sheep[i]) {
                let below = p(s.sheep[i].x, s.sheep[i].y + 1);
                if below != s.dragon || b.shelters.contains(&below) {
                    none_moved = false;
                    let mut sheep = s.sheep.clone();
                    sheep[i] = below;
                    count += plain_count(b, &Plain { dragon: s.dragon, sheep, dragons_move: true });
                }
            }
        }
        if none_moved {
            count += plain_count(
                b,
                &Plain { dragon: s.dragon, sheep: s.sheep.clone(), dragons_move: true },
            );
        }
    }
    count
}

fn plain_from_start(b: &Board) -> u64 {
    plain_count(
        b,
        &Plain {
            dragon: b.init_state.dragon,
            sheep: b.init_state.sheep.clone(),
            dragons_move: b.init_state.dragons_move,
        },
    )
}

#[test]
fn knight_moves_in_their_order() {
    let all: Vec<(i64, i64)> = (0..8).map(knight_move).collect();
    assert_eq!(all, vec![(2, 1), (2, -1), (-2, 1), (-2, -1), (1, 2), (1, -2), (-1, 2), (-1, -2)]);
}

#[test]
fn position_is_written_as_numbers() {
    let s = State { dragon: p(2, 3), sheep: vec![p(0, 1), p(4, -1)], dragons_move: true };
    assert_eq!(s.encode(), vec![1, 2, 3, 0, 1, 4, -1]);
    let s = State { dragon: p(0, 0), sheep: vec![], dragons_move: false };
    assert_eq!(s.encode(), vec![0, 0, 0]);
}

#[test]
fn inside_board_checks_all_four_edges() {
    let b = board(3, 2, p(0, 0), vec![], vec![]);
    assert!(b.inside_board(&p(0, 0)));
    assert!(b.inside_board(&p(2, 1)));
    assert!(!b.inside_board(&p(3, 1)));
    assert!(!b.inside_board(&p(2, 2)));
    assert!(!b.inside_board(&p(-1, 0)));
    assert!(!b.inside_board(&p(0, -1)));
}

#[test]
fn no_sheep_is_a_win_at_once() {
    let b = board(3, 3, p(1, 1), vec![], vec![]);
    assert_eq!(b.count_dragon_wins_sequences(), Some(1));
}

#[test]
fn sheep_off_the_board_is_lost() {
    let b = board(3, 3, p(1, 1), vec![p(0, 3), p(7, 0)], vec![]);
    assert_eq!(b.count_dragon_wins_sequences(), Some(0));
}

#[test]
fn one_sheep_caught_on_its_first_step() {
    // The sheep steps from (0, 0) to (0, 1); the dragon on (2, 0) takes it
    // there with the move (-2, 1). Later catches are impossible on a
    // board this small, and every other line of play lets the sheep out.
    let b = board(3, 3, p(2, 0), vec![p(0, 0)], vec![]);
    assert_eq!(b.count_dragon_wins_sequences(), Some(plain_from_start(&b)));
    assert!(b.count_dragon_wins_sequences().unwrap() >= 1);
}

#[test]
fn successors_of_a_sheep_turn() {
    let b = board(3, 3, p(0, 1), vec![p(0, 0), p(1, 0), p(2, 5)], vec![]);
    // Sheep 0 is blocked by the dragon, sheep 1 steps, sheep 2 is off the board.
    assert_eq!(b.successors(&vec![0, 0, 1, 0, 0, 1, 0, 2, 5]), vec![vec![1, 0, 1, 0, 0, 1, 1, 2, 5]]);
    // With a shelter under the dragon the first sheep may step too.
    let sheltered = board(3, 3, p(0, 1), vec![p(0, 0), p(1, 0), p(2, 5)], vec![p(0, 1)]);
    assert_eq!(
        sheltered.successors(&vec![0, 0, 1, 0, 0, 1, 0, 2, 5]),
        vec![vec![1, 0, 1, 0, 1, 1, 0, 2, 5], vec![1, 0, 1, 0, 0, 1, 1, 2, 5]]
    );
}

#[test]
fn blocked_sheep_pass_the_turn() {
    let b = board(3, 3, p(0, 1), vec![p(0, 0)], vec![]);
    assert_eq!(b.successors(&vec![0, 0, 1, 0, 0]), vec![vec![1, 0, 1, 0, 0]]);
}

#[test]
fn successors_of_a_dragon_turn() {
    let b = board(3, 3, p(0, 0), vec![p(2, 1), p(1, 2), p(2, 1)], vec![p(1, 2)]);
    // From the corner only (2, 1) and (1, 2) stay on the board. On (2, 1) the
    // first of the two sheep there is eaten; (1, 2) is a shelter.
    assert_eq!(
        b.successors(&vec![1, 0, 0, 2, 1, 1, 2, 2, 1]),
        vec![vec![0, 2, 1, 1, 2, 2, 1], vec![0, 1, 2, 2, 1, 1, 2, 2, 1]]
    );
}

#[test]
fn terminal_and_dead_positions() {
    let b = board(3, 3, p(0, 0), vec![], vec![]);
    assert!(b.is_terminal(&vec![0, 1, 1]));
    assert!(!b.is_terminal(&vec![0, 1, 1, 0, 0]));
    assert!(!b.is_terminal(&vec![5, 1, 1]));
    assert!(b.is_dead(&vec![5, 1, 1]));
    assert!(b.is_dead(&vec![0, 1]));
    assert!(b.is_dead(&vec![0, 1, 1, 2]));
    assert!(b.is_dead(&vec![0, 1, 1, 0, 3]));
    assert!(!b.is_dead(&vec![0, 1, 1, 0, 3, 0, 2]));
    assert!(!b.is_dead(&vec![0, 1, 1]));
}

#[test]
fn memo_agrees_with_plain_recursion_one_sheep() {
    let b = board(3, 3, p(1, 1), vec![p(0, 0)], vec![]);
    assert_eq!(b.count_dragon_wins_sequences(), Some(plain_from_start(&b)));
    let b = board(4, 3, p(3, 2), vec![p(1, 0)], vec![p(1, 2)]);
    assert_eq!(b.count_dragon_wins_sequences(), Some(plain_from_start(&b)));
}

#[test]
fn memo_agrees_with_plain_recursion_two_sheep() {
    let b = board(3, 3, p(2, 2), vec![p(0, 0), p(1, 0)], vec![]);
    assert_eq!(b.count_dragon_wins_sequences(), Some(plain_from_start(&b)));
}

#[test]
fn memo_agrees_with_plain_recursion_with_shelter() {
    let b = board(4, 3, p(0, 2), vec![p(1, 0), p(2, 0)], vec![p(1, 1)]);
    assert_eq!(b.count_dragon_wins_sequences(), Some(plain_from_start(&b)));
}

#[test]
fn memo_is_shared_between_calls() {
    let b = board(4, 4, p(0, 3), vec![p(1, 0), p(2, 0)], vec![p(1, 2)]);
    let mut memo = Enumerator::new(&b);
    let first = b.count_move_seqs(&b.init_state, &mut memo);
    let expanded = memo.expanded();
    let second = b.count_move_seqs(&b.init_state, &mut memo);
    assert_eq!(first, second);
    assert_eq!(memo.expanded(), expanded);
    assert_eq!(first, count_terminal_states(&b.init_state.encode(), &b));
}
