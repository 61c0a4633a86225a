use std::collections::HashSet;

use codingup_qualifs::prim::{get_min, prim, prim2};
use codingup_qualifs::{check_actions, check_actions_at, resolve_fast, resolve_q_fast, Action, ActionKind, Input, QPos};

fn problem(max_distance: u32, seed_capacity: u32, range: i32) -> Input {
    Input { max_distance, seed_capacity, range, seeds: vec![], plants: vec![] }
}

fn plant(x: i32, y: i32) -> Action {
    Action { pos: [x, y], kind: ActionKind::Plant }
}

fn collect(x: i32, y: i32) -> Action {
    Action { pos: [x, y], kind: ActionKind::Collect }
}

#[test]
fn get_min_picks_the_cheapest_plant_of_the_set() {
    let input = problem(100, 1, 1);
    let plants = [[5, 5], [0, 4], [2, 0], [9, 9]];
    let graph: HashSet<usize> = [0usize, 1, 3].into_iter().collect();
    assert_eq!(get_min(&input, QPos::default(), &graph, &plants), Some((1, 3)));
    let all: HashSet<usize> = (0..4).collect();
    assert_eq!(get_min(&input, QPos::default(), &all, &plants), Some((2, 1)));
}

#[test]
fn get_min_of_an_empty_set() {
    let input = problem(100, 1, 1);
    let graph: HashSet<usize> = HashSet::new();
    assert_eq!(get_min(&input, QPos::default(), &graph, &[[1, 1]]), None);
}

// with equal edge costs the two forms may break ties apart and grow
// different trees, so these cases have no ties
#[test]
fn both_prim_forms_agree() {
    let cases: Vec<(i32, Vec<[i32; 2]>)> = vec![
        (0, vec![]),
        (0, vec![[3, 0], [1, 0], [2, 0]]),
        (1, vec![[3, 0], [-3, 0], [0, 3]]),
        (0, vec![[1, 0], [0, 3], [-6, 0]]),
    ];
    for (range, plants) in cases {
        let input = problem(1000, 1, range);
        assert_eq!(prim(&input, QPos::default(), &plants), prim2(&input, QPos::default(), &plants));
    }
    let input = problem(1000, 1, 0);
    assert_eq!(prim(&input, QPos::default(), &[[3, 0], [1, 0], [2, 0]]), 3);
}

#[test]
fn storage_check_of_whole_lists() {
    let input = problem(100, 2, 0);
    assert!(check_actions(&input, &[]));
    assert!(check_actions(&input, &[plant(1, 0), plant(2, 0), collect(0, 0), plant(3, 0)]));
    assert!(!check_actions(&input, &[plant(1, 0), plant(2, 0), plant(3, 0)]));
    assert!(check_actions(&input, &[collect(0, 0), plant(1, 0), plant(2, 0)]));
}

#[test]
fn storage_check_around_a_position() {
    let actions = [plant(0, 0), plant(0, 1), collect(0, 2), plant(0, 3), plant(0, 4), plant(0, 5)];
    assert!(check_actions_at(&problem(100, 3, 0), &actions, 4));
    assert!(!check_actions_at(&problem(100, 2, 0), &actions, 4));
    assert!(check_actions_at(&problem(100, 2, 0), &actions, 0));
    assert!(check_actions_at(&problem(100, 2, 0), &actions, 2));
    assert!(!check_actions_at(&problem(100, 1, 0), &actions, 6));
}

#[test]
fn both_quick_scores_agree() {
    let input = problem(6, 1, 1);
    let actions = [plant(3, 0), collect(3, 4), plant(0, 4), plant(9, 9)];
    assert_eq!(resolve_fast(&input, &actions, true), resolve_q_fast(&input, &actions, true));
    assert_eq!(resolve_fast(&input, &actions, false), resolve_q_fast(&input, &actions, false));
    assert_eq!(resolve_fast(&input, &actions, true), (1, 2));
}
