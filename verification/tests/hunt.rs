use state_search::board::Board;
use state_search::hunt::{among, count_eaten, spread};
use state_search::point::Point;

const FIELD: &str = "...SSS##.....
.S#.##..S#SS.
..S.##.S#..S.
.#..#S##..SS.
..SSSS.#.S.#.
.##..SS.#S.#S
SSS.#S#.#...S
......D......
.#.S#.##S.#S.
.S.#SS.#.S...
.##..S#.S.##.
.S#.S.#..#.SS
.##..SSS.....";

#[test]
fn sheep_eaten_turn_by_turn() {
    let board = Board::parse(FIELD).unwrap();
    assert_eq!(count_eaten(&board, 0), 0);
    assert_eq!(count_eaten(&board, 1), 4);
    assert_eq!(count_eaten(&board, 2), 17);
    assert_eq!(count_eaten(&board, 3), 31);
    assert_eq!(count_eaten(&board, 5), 43);
    assert_eq!(count_eaten(&board, 20), 43);
}

#[test]
fn sheep_on_a_small_board() {
    let board = Board::parse("S....\n.S#..\n..D..\nS.S.S\n.....\n...S.").unwrap();
    assert_eq!(count_eaten(&board, 1), 3);
    assert_eq!(count_eaten(&board, 2), 5);
    assert_eq!(count_eaten(&board, 3), 6);
    assert_eq!(count_eaten(&board, 30), 6);
}

#[test]
fn sheep_walks_onto_the_dragon_or_is_landed_on() {
    assert_eq!(count_eaten(&Board::parse("..S\nD..").unwrap(), 1), 1);
    assert_eq!(count_eaten(&Board::parse(".S.\n...\n...\nD..").unwrap(), 1), 1);
    assert_eq!(count_eaten(&Board::parse("D\nS").unwrap(), 5), 1);
    assert_eq!(count_eaten(&Board::parse("D\nS").unwrap(), 1), 0);
    assert_eq!(count_eaten(&Board::parse("D..").unwrap(), 5), 0);
}

#[test]
fn sheep_on_one_square_count_once() {
    let mut board = Board::parse("..S\nD..").unwrap();
    let again = board.init_state.sheep[0];
    board.init_state.sheep.push(again);
    assert_eq!(count_eaten(&board, 1), 1);
}

#[test]
fn shelter_keeps_a_sheep_from_the_dragon() {
    let open = Board::parse("..S\nD..").unwrap();
    assert_eq!(count_eaten(&open, 1), 1);
    let mut kept = Board::parse("..S\nD..").unwrap();
    kept.shelters.push(Point { x: 2, y: 0 });
    kept.shelters.push(Point { x: 2, y: 1 });
    assert_eq!(count_eaten(&kept, 1), 0);
    let mut half = Board::parse("..S\nD..").unwrap();
    half.shelters.push(Point { x: 2, y: 1 });
    assert_eq!(count_eaten(&half, 1), 1);
}

#[test]
fn knight_moves_spread_from_every_square() {
    let (cells, next) = spread(&vec![Point { x: 0, y: 0 }]);
    assert_eq!(next.len(), 8);
    assert_eq!(cells.len(), 8);
    assert!(among(&next, Point { x: 2, y: 1 }));
    assert!(among(&next, Point { x: -1, y: -2 }));
    assert!(!among(&next, Point { x: 0, y: 0 }));
    assert!(cells.contains(&Point { x: 1, y: 2 }.key()));
    let (_, two) = spread(&next);
    assert_eq!(two.len(), 33);
    assert!(among(&two, Point { x: 0, y: 0 }));
    let (_, corner) = spread(&vec![Point { x: i32::MAX, y: i32::MAX }]);
    assert_eq!(corner.len(), 2);
    let (none, empty) = spread(&Vec::new());
    assert!(none.is_empty() && empty.is_empty());
}
