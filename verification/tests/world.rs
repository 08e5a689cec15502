use state_search::compressor::CoordinateCompressor;
use state_search::graph::StateGraph;
use state_search::point::Point;
use state_search::world::{
    get_shortest_distance, parse_steps, shift_index, CollisionBox, Step, Turn, World,
};

fn p(x: i32, y: i32) -> Point {
    Point { x, y }
}

fn walled() -> World {
    // One wall on the line x = 1 from y = -5 to y = 5.
    World {
        walls: vec![CollisionBox::new(p(1, -5), p(1, 5))],
        start: p(0, 0),
        end: p(2, 0),
        reduced_xs: CoordinateCompressor::around(&vec![0, 1, 2]),
        reduced_ys: CoordinateCompressor::around(&vec![-5, 0, 5]),
    }
}

#[test]
fn boxes_overlap_when_they_share_a_point() {
    let a = CollisionBox::new(p(0, 0), p(4, 2));
    assert!(a.overlaps(&CollisionBox::new(p(4, 2), p(9, 9))));
    assert!(!a.overlaps(&CollisionBox::new(p(5, 0), p(9, 9))));
    assert!(!a.overlaps(&CollisionBox::new(p(0, 3), p(4, 3))));
    assert!(a.overlaps(&CollisionBox::new(p(2, -7), p(2, 7))));
    assert!(a.overlaps(&a));
}

#[test]
fn box_spans_its_corners_in_any_order() {
    let b = CollisionBox::new(p(5, -1), p(2, 3));
    assert_eq!(b, CollisionBox { x_min: 2, x_max: 5, y_min: -1, y_max: 3 });
}

#[test]
fn neighbour_steps_to_the_next_kept_coordinate() {
    let w = walled();
    // ys kept: -6 -5 -4 -1 0 1 4 5 6
    assert_eq!(w.get_neighbour(&p(0, 1), &p(0, 1)), Some(p(0, 4)));
    assert_eq!(w.get_neighbour(&p(0, 0), &p(0, -1)), Some(p(0, -1)));
    assert_eq!(w.get_neighbour(&p(-1, 0), &p(-1, 0)), None);
    assert_eq!(w.get_neighbour(&p(0, 6), &p(0, 1)), None);
    assert_eq!(w.get_neighbour(&p(0, 2), &p(0, 1)), None);
}

#[test]
fn neighbour_across_a_wall_is_refused() {
    let w = walled();
    assert_eq!(w.get_neighbour(&p(0, 0), &p(1, 0)), None);
    assert_eq!(w.get_neighbour(&p(2, 4), &p(-1, 0)), None);
    assert_eq!(w.get_neighbour(&p(0, 6), &p(1, 0)), Some(p(1, 6)));
    // The stretch from (1, 6) down to (1, 5) ends on the wall.
    assert_eq!(w.get_neighbour(&p(1, 6), &p(0, -1)), None);
}

#[test]
fn valid_neighbours_come_in_the_order_of_the_directions() {
    let w = walled();
    assert_eq!(w.get_valid_neighbours(&p(0, 0)), vec![p(0, 1), p(-1, 0), p(0, -1)]);
    assert_eq!(w.get_valid_neighbours(&p(7, 7)), vec![]);
}

#[test]
fn ids_and_points_go_back_and_forth() {
    let w = walled();
    let id = w.id_of(&p(2, 4)).unwrap();
    assert_eq!(id, 3 * 9 + 6);
    assert_eq!(w.point_at(id), p(2, 4));
    assert_eq!(w.id_of(&p(2, 2)), None);
}

#[test]
fn edges_carry_the_walked_distance() {
    let w = walled();
    let from = w.id_of(&p(0, 1)).unwrap();
    let up = w.id_of(&p(0, 4)).unwrap();
    let left = w.id_of(&p(-1, 1)).unwrap();
    let down = w.id_of(&p(0, 0)).unwrap();
    assert_eq!(w.neighbors(from), vec![(up, 3), (left, 1), (down, 1)]);
    assert_eq!(w.neighbors(45), vec![]);
}

#[test]
fn the_way_round_the_wall() {
    assert_eq!(get_shortest_distance(&walled()), Some(14));
}

#[test]
fn end_behind_closed_walls_is_not_found() {
    let mut w = walled();
    w.walls = vec![
        CollisionBox::new(p(1, -1), p(3, -1)),
        CollisionBox::new(p(1, 1), p(3, 1)),
        CollisionBox::new(p(1, -1), p(1, 1)),
        CollisionBox::new(p(3, -1), p(3, 1)),
    ];
    assert_eq!(get_shortest_distance(&w), None);
}

#[test]
fn start_off_the_kept_coordinates() {
    let mut w = walled();
    w.start = p(50, 50);
    assert_eq!(get_shortest_distance(&w), None);
    w.end = p(50, 50);
    assert_eq!(get_shortest_distance(&w), Some(0));
}

#[test]
fn steps_are_read_from_text() {
    assert_eq!(
        parse_steps(" L5,R12\n"),
        Some(vec![Step { turn: Turn::Left, count: 5 }, Step { turn: Turn::Right, count: 12 }])
    );
    assert_eq!(parse_steps("L5,,R1"), None);
    assert_eq!(parse_steps("X5"), None);
    assert_eq!(parse_steps("L"), None);
    assert_eq!(parse_steps("L99999999999"), None);
    assert_eq!(parse_steps(""), None);
    assert_eq!(parse_steps("R-3"), Some(vec![Step { turn: Turn::Right, count: -3 }]));
}

#[test]
fn world_is_built_wall_by_wall() {
    let w = World::read("R10,R10").unwrap();
    assert_eq!(w.start, p(0, 0));
    assert_eq!(w.end, p(10, 10));
    assert_eq!(
        w.walls,
        vec![CollisionBox::new(p(0, 0), p(9, 0)), CollisionBox::new(p(10, 0), p(10, 9))]
    );
    let xs: Vec<i32> = (0..w.reduced_xs.len()).map(|r| w.reduced_xs.coordinate_of(r)).collect();
    let ys: Vec<i32> = (0..w.reduced_ys.len()).map(|r| w.reduced_ys.coordinate_of(r)).collect();
    assert_eq!(xs, vec![-1, 0, 1, 9, 10, 11]);
    assert_eq!(ys, vec![-1, 0, 1, 9, 10, 11]);
    assert_eq!(get_shortest_distance(&w), Some(20));
}

#[test]
fn left_turns_go_the_other_way() {
    let w = World::read("L4").unwrap();
    assert_eq!(w.end, p(-4, 0));
    assert_eq!(w.walls, vec![CollisionBox::new(p(0, 0), p(-3, 0))]);
    let w = World::read("L1,L1,L1,L1").unwrap();
    assert_eq!(w.end, p(0, 0));
}

#[test]
fn world_detour_round_a_spiral_arm() {
    // The walls run right, down, and back left below the first one; the end
    // lies left of the start, behind the third wall's free end.
    let w = World::read("R4,R4,R8").unwrap();
    assert_eq!(w.end, p(-4, 4));
    assert_eq!(get_shortest_distance(&w), Some(8));
}

#[test]
fn world_that_leaves_32_bits_is_refused() {
    assert!(World::read("R2147483647,L1").is_some());
    assert!(World::read("R2147483647,R1,R1,R1,R1").is_some());
    assert!(World::read("R2147483647,L1,R1").is_none());
    assert!(World::read("R-2147483648").is_none());
    assert!(World::from_steps(&vec![]).is_some());
}

#[test]
fn shift_index_is_bounds_checked() {
    assert_eq!(shift_index(3, -3, 5), Some(0));
    assert_eq!(shift_index(3, -4, 5), None);
    assert_eq!(shift_index(3, 1, 5), Some(4));
    assert_eq!(shift_index(3, 2, 5), None);
    assert_eq!(shift_index(usize::MAX, i32::MAX, usize::MAX), None);
}
