use codingup_qualifs::{distance, Action, ActionKind, Input, QPos};

fn input_with_range(range: i32) -> Input {
    Input { max_distance: 100, seed_capacity: 1, range, seeds: vec![], plants: vec![] }
}

fn point(x: i32, y: i32) -> QPos {
    QPos { robot_pos: [x, y], range: 0 }
}

#[test]
fn distance_is_taxicab() {
    assert_eq!(distance([1, -2], [-3, 4]), 10);
    assert_eq!(distance([5, 5], [5, 5]), 0);
}

#[test]
fn plant_from_point_stops_at_radius() {
    let input = input_with_range(2);
    let (state, cost) = point(0, 0).apply_plant(&input, [5, 0]);
    assert_eq!(cost, 3);
    assert_eq!(state, point(3, 0));
}

#[test]
fn plant_from_point_diagonal_keeps_segment() {
    let input = input_with_range(2);
    let (state, cost) = point(0, 0).apply_plant(&input, [3, 3]);
    assert_eq!(cost, 4);
    // positions (3, 1), (2, 2), (1, 3): an up-left segment
    assert_eq!(state, QPos { robot_pos: [3, 1], range: -2 });
}

#[test]
fn plant_from_point_each_quadrant() {
    let input = input_with_range(1);
    let (s, c) = point(0, 0).apply_plant(&input, [-3, -3]);
    assert_eq!((s, c), (QPos { robot_pos: [-2, -3], range: -1 }, 5));
    let (s, c) = point(0, 0).apply_plant(&input, [3, -3]);
    assert_eq!((s, c), (QPos { robot_pos: [2, -3], range: 1 }, 5));
    let (s, c) = point(0, 0).apply_plant(&input, [-3, 3]);
    assert_eq!((s, c), (QPos { robot_pos: [-3, 2], range: 1 }, 5));
}

#[test]
fn plant_within_radius_costs_nothing() {
    let input = input_with_range(3);
    let (state, cost) = point(1, 1).apply_plant(&input, [2, 2]);
    assert_eq!(cost, 0);
    assert_eq!(state, point(1, 1));
}

#[test]
fn plant_shrinks_up_right_segment() {
    let input = input_with_range(2);
    let (state, cost) = QPos { robot_pos: [0, 0], range: 4 }.apply_plant(&input, [2, 2]);
    assert_eq!(cost, 0);
    assert_eq!(state, QPos { robot_pos: [1, 1], range: 2 });
}

#[test]
fn plant_shrinks_up_left_segment() {
    let input = input_with_range(2);
    let (state, cost) = QPos { robot_pos: [0, 0], range: -4 }.apply_plant(&input, [-2, 2]);
    assert_eq!(cost, 0);
    assert_eq!(state, QPos { robot_pos: [-1, 1], range: -2 });
}

#[test]
fn plant_beside_segment_uses_nearest_point() {
    let input = input_with_range(0);
    let (state, cost) = QPos { robot_pos: [0, 0], range: 10 }.apply_plant(&input, [2, 8]);
    assert_eq!(cost, 6);
    assert_eq!(state, point(2, 8));
}

#[test]
fn plant_beyond_segment_end() {
    let input = input_with_range(1);
    let (state, cost) = QPos { robot_pos: [0, 0], range: 2 }.apply_plant(&input, [6, 2]);
    // nearest position (2, 2), four steps away; three steps reach the radius
    assert_eq!(cost, 3);
    assert_eq!(state, point(5, 2));
}

#[test]
fn seed_from_point_is_exact() {
    let (state, cost) = point(3, 0).apply_seed([3, 5]);
    assert_eq!(cost, 5);
    assert_eq!(state, point(3, 5));
}

#[test]
fn seed_from_segment_uses_nearest_point() {
    let (state, cost) = QPos { robot_pos: [0, 0], range: 4 }.apply_seed([5, 1]);
    assert_eq!(cost, 4);
    assert_eq!(state, point(5, 1));
    let (state, cost) = QPos { robot_pos: [0, 0], range: -3 }.apply_seed([-3, 3]);
    assert_eq!(cost, 0);
    assert_eq!(state, point(-3, 3));
}

#[test]
fn apply_action_dispatches() {
    let input = input_with_range(1);
    let plant = Action { pos: [4, 0], kind: ActionKind::Plant };
    let collect = Action { pos: [4, 0], kind: ActionKind::Collect };
    assert_eq!(point(0, 0).apply_action(&input, &plant), (point(3, 0), 3));
    assert_eq!(point(0, 0).apply_action(&input, &collect), (point(4, 0), 4));
}

#[test]
fn default_state_is_origin() {
    assert_eq!(QPos::default(), point(0, 0));
}
