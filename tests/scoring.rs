use codingup_qualifs::{resolve, resolve_q_fast, unresolve, Action, ActionKind, Input, OutAction};

fn problem(max_distance: u32, seed_capacity: u32, range: i32) -> Input {
    Input { max_distance, seed_capacity, range, seeds: vec![], plants: vec![] }
}

fn plant(x: i32, y: i32) -> Action {
    Action { pos: [x, y], kind: ActionKind::Plant }
}

fn collect(x: i32, y: i32) -> Action {
    Action { pos: [x, y], kind: ActionKind::Collect }
}

#[test]
fn as_output_of_each_kind() {
    assert_eq!(plant(1, 2).as_output(), OutAction::Plant([1, 2]));
    assert_eq!(collect(1, 2).as_output(), OutAction::Collect);
}

#[test]
fn unresolve_places_collects_where_the_agent_stands() {
    let steps = vec![OutAction::Collect, OutAction::Move([1, 1]), OutAction::Collect, OutAction::Plant([2, 2])];
    assert_eq!(unresolve(&steps), vec![collect(0, 0), collect(1, 1), plant(2, 2)]);
}

#[test]
fn resolve_moves_to_each_target() {
    let input = problem(100, 1, 0);
    let (steps, count, dist) = resolve(&input, &[plant(2, 0), collect(2, 3), plant(0, 3)]);
    assert_eq!(
        steps,
        vec![
            OutAction::Move([2, 0]),
            OutAction::Plant([2, 0]),
            OutAction::Move([2, 3]),
            OutAction::Collect,
            OutAction::Move([0, 3]),
            OutAction::Plant([0, 3]),
        ]
    );
    assert_eq!(count, 2);
    assert_eq!(dist, 7);
}

#[test]
fn resolve_uses_the_radius() {
    let input = problem(100, 1, 2);
    let (steps, count, dist) = resolve(&input, &[plant(1, 1), plant(5, 0)]);
    // the first plant is within reach of the origin; the second needs three steps
    assert_eq!(count, 2);
    assert_eq!(dist, 3);
    assert_eq!(steps.len(), 3);
    assert_eq!(steps[0], OutAction::Plant([1, 1]));
    match steps[1] {
        OutAction::Move([x, y]) => assert!((x - 5).abs() + y.abs() <= 2 && x.abs() + y.abs() == 3),
        other => panic!("unexpected {:?}", other),
    }
    assert_eq!(steps[2], OutAction::Plant([5, 0]));
}

#[test]
fn resolve_picks_a_point_good_for_later_plants() {
    // any of (1, 1), (2, 0) reaches the first plant; only (2, 0) is on the way to the second
    let input = problem(100, 2, 1);
    let (steps, count, dist) = resolve(&input, &[plant(2, 1), plant(4, -1)]);
    assert_eq!(count, 2);
    assert_eq!(dist, 2 + 2);
    assert_eq!(steps[0], OutAction::Move([2, 0]));
}

#[test]
fn resolve_stops_at_the_budget_and_drops_trailing_collects() {
    let input = problem(5, 1, 0);
    let (steps, count, dist) = resolve(&input, &[plant(2, 0), collect(2, 2), plant(9, 9)]);
    assert_eq!(count, 1);
    assert_eq!(dist, 2);
    assert_eq!(steps, vec![OutAction::Move([2, 0]), OutAction::Plant([2, 0])]);
}

#[test]
fn resolve_of_nothing() {
    let input = problem(5, 1, 0);
    let (steps, count, dist) = resolve(&input, &[]);
    assert!(steps.is_empty());
    assert_eq!((count, dist), (0, 0));
}

#[test]
fn quick_score_with_and_without_budget() {
    let input = problem(5, 1, 0);
    let actions = [plant(2, 0), collect(2, 2), plant(9, 9)];
    assert_eq!(resolve_q_fast(&input, &actions, true), (1, 2));
    assert_eq!(resolve_q_fast(&input, &actions, false), (2, 2 + 2 + 14));
}

#[test]
fn quick_score_counts_plants_not_trailing_collects() {
    let input = problem(100, 1, 1);
    let actions = [plant(3, 0), collect(3, 4)];
    assert_eq!(resolve_q_fast(&input, &actions, true), (1, 2));
}

#[test]
fn resolve_with_no_budget_is_an_empty_route() {
    let input = Input { max_distance: 0, seed_capacity: 1, range: 0, seeds: vec![], plants: vec![[5, 0]] };
    let (steps, count, dist) = resolve(&input, &[plant(5, 0)]);
    assert!(steps.is_empty());
    assert_eq!((count, dist), (0, 0));
}
