use std::time::{Duration, Instant};

use codingup_qualifs::prim::prim2;
use codingup_qualifs::search::{
    find_best_action, find_best_action_time_limit, plan_route, take_action, MyAction, Res, Transpositions, World,
};
use codingup_qualifs::{resolve, Action, ActionKind, Input, QPos};

fn problem(max_distance: u32, seed_capacity: u32, range: i32, plants: Vec<[i32; 2]>, seeds: Vec<[i32; 2]>) -> Input {
    Input { max_distance, seed_capacity, range, seeds, plants }
}

fn start_world(input: &Input) -> World {
    World {
        robot_pos: QPos::default(),
        seed_storage: input.seed_capacity,
        seeds: input.seeds.clone(),
        plants: input.plants.clone(),
    }
}

fn plant(x: i32, y: i32) -> Action {
    Action { pos: [x, y], kind: ActionKind::Plant }
}

fn collect(x: i32, y: i32) -> Action {
    Action { pos: [x, y], kind: ActionKind::Collect }
}

/// Least total planting cost over every visiting order, seeds ignored.
fn brute_force(input: &Input, pos: QPos, plants: &[[i32; 2]]) -> i32 {
    if plants.is_empty() {
        return 0;
    }
    let mut best = i32::MAX;
    for i in 0..plants.len() {
        let (next, cost) = pos.apply_plant(input, plants[i]);
        let mut rest = plants.to_vec();
        rest.remove(i);
        let total = cost + brute_force(input, next, &rest);
        best = best.min(total);
    }
    best
}

/// Pseudo-random positions in a small square.
fn positions(seed: u64, n: usize, span: i32) -> Vec<[i32; 2]> {
    let mut s = seed;
    let mut out = Vec::new();
    for _ in 0..n {
        s = s.wrapping_mul(6364136223846793005).wrapping_add(1442695040888963407);
        let x = ((s >> 33) % (2 * span as u64 + 1)) as i32 - span;
        s = s.wrapping_mul(6364136223846793005).wrapping_add(1442695040888963407);
        let y = ((s >> 33) % (2 * span as u64 + 1)) as i32 - span;
        out.push([x, y]);
    }
    out
}

#[test]
fn prim_of_no_plants_is_zero() {
    let input = problem(10, 1, 0, vec![], vec![]);
    assert_eq!(prim2(&input, QPos::default(), &[]), 0);
}

#[test]
fn prim_along_a_line() {
    let input = problem(10, 1, 0, vec![], vec![]);
    assert_eq!(prim2(&input, QPos::default(), &[[3, 0], [1, 0], [2, 0]]), 3);
}

#[test]
fn prim_star_from_origin() {
    let input = problem(10, 1, 1, vec![], vec![]);
    // each plant is 2 steps from reach of the origin, and farther from the others
    assert_eq!(prim2(&input, QPos::default(), &[[3, 0], [-3, 0], [0, 3]]), 2 + 2 + 2);
}

#[test]
fn prim_never_exceeds_best_order() {
    for seed in 0..30u64 {
        let plants = positions(seed, 5, 6);
        let range = (seed % 3) as i32;
        let input = problem(1000, 1, range, plants.clone(), vec![]);
        let bound = prim2(&input, QPos::default(), &plants);
        let best = brute_force(&input, QPos::default(), &plants);
        assert!(bound <= best as i64, "seed {}: {} > {}", seed, bound, best);
    }
}

#[test]
fn search_with_no_plant_is_solved() {
    let input = problem(10, 1, 0, vec![], vec![[1, 1]]);
    let mut world = start_world(&input);
    let mut memo = Transpositions::new();
    let start = Instant::now();
    let r = find_best_action(&input, &mut memo, &mut world, 10, &start, Duration::from_secs(5), 3, true);
    assert!(matches!(r, Some(Res::Solved)));
}

#[test]
fn search_at_depth_zero_is_solved() {
    let input = problem(10, 1, 0, vec![[1, 1]], vec![]);
    let mut world = start_world(&input);
    let mut memo = Transpositions::new();
    let start = Instant::now();
    let r = find_best_action(&input, &mut memo, &mut world, 10, &start, Duration::from_secs(5), 0, true);
    assert!(matches!(r, Some(Res::Solved)));
}

#[test]
fn search_under_a_tight_ceiling_finds_nothing() {
    let input = problem(10, 1, 0, vec![[3, 0]], vec![]);
    let mut world = start_world(&input);
    let mut memo = Transpositions::new();
    let start = Instant::now();
    let r = find_best_action(&input, &mut memo, &mut world, 3, &start, Duration::from_secs(5), 1, true);
    assert!(matches!(r, Some(Res::NoSolution)));
    let r = find_best_action(&input, &mut memo, &mut world, 4, &start, Duration::from_secs(5), 1, true);
    match r {
        Some(Res::SolutionFound { cost, action }) => {
            assert_eq!(cost, 3);
            assert_eq!(action.index, 0);
            assert_eq!(action.action, plant(3, 0));
        },
        other => panic!("unexpected {:?}", other),
    }
}

#[test]
fn search_collects_a_seed_when_storage_is_empty() {
    let input = problem(100, 1, 0, vec![[4, 0]], vec![[0, 2]]);
    let mut world = start_world(&input);
    world.seed_storage = 0;
    let mut memo = Transpositions::new();
    let start = Instant::now();
    let r = find_best_action(&input, &mut memo, &mut world, 100, &start, Duration::from_secs(5), 1, true);
    match r {
        Some(Res::SolutionFound { cost, action }) => {
            assert_eq!(action.action, collect(0, 2));
            assert_eq!(cost, 2 + 6);
        },
        other => panic!("unexpected {:?}", other),
    }
    // the world is handed back unchanged
    assert_eq!(world.seed_storage, 0);
    assert_eq!(world.plants, vec![[4, 0]]);
    assert_eq!(world.seeds, vec![[0, 2]]);
    assert_eq!(world.robot_pos, QPos::default());
}

#[test]
fn search_full_depth_on_a_line() {
    let input = problem(100, 3, 0, vec![[1, 0], [-2, 0], [-3, 0]], vec![]);
    let mut world = start_world(&input);
    let mut memo = Transpositions::new();
    let start = Instant::now();
    let r = find_best_action(&input, &mut memo, &mut world, 100, &start, Duration::from_secs(5), 3, true);
    match r {
        Some(Res::SolutionFound { cost, action }) => {
            assert_eq!(action.action, plant(1, 0));
            assert_eq!(cost, 1 + 3 + 1);
        },
        other => panic!("unexpected {:?}", other),
    }
}

fn cost_of(r: Option<Res>) -> Option<i32> {
    match r {
        Some(Res::SolutionFound { cost, .. }) => Some(cost),
        _ => None,
    }
}

#[test]
fn cached_search_matches_fresh_search() {
    for seed in 0..20u64 {
        let plants = positions(seed, 4, 5);
        let seeds = positions(seed + 100, 2, 5);
        let input = problem(1000, 2, (seed % 2) as i32, plants, seeds);
        let start = Instant::now();
        for depth in 1..4u32 {
            for &(first, second) in &[(1000, 500), (500, 1000), (700, 700)] {
                let mut world = start_world(&input);
                let mut warm = Transpositions::new();
                let _ = find_best_action(&input, &mut warm, &mut world, first, &start, Duration::from_secs(60), depth, true);
                let cached = find_best_action(&input, &mut warm, &mut world, second, &start, Duration::from_secs(60), depth, true);
                let mut cold = Transpositions::new();
                let fresh = find_best_action(&input, &mut cold, &mut world, second, &start, Duration::from_secs(60), depth, true);
                assert_eq!(cost_of(cached), cost_of(fresh), "seed {} depth {} ceilings {} {}", seed, depth, first, second);
            }
        }
    }
}

#[test]
fn cached_search_stays_under_the_ceiling() {
    for seed in 0..20u64 {
        let plants = positions(seed, 4, 5);
        let seeds = positions(seed + 100, 2, 5);
        let input = problem(1000, 2, (seed % 2) as i32, plants, seeds);
        let start = Instant::now();
        for depth in 1..4u32 {
            for &(first, second) in &[(1000, 12), (12, 1000), (8, 30)] {
                let mut world = start_world(&input);
                let mut warm = Transpositions::new();
                let _ = find_best_action(&input, &mut warm, &mut world, first, &start, Duration::from_secs(60), depth, true);
                let cached = find_best_action(&input, &mut warm, &mut world, second, &start, Duration::from_secs(60), depth, true);
                if let Some(cost) = cost_of(cached) {
                    assert!(cost < second);
                }
            }
        }
    }
}

#[test]
fn driver_with_no_time_still_answers() {
    let input = problem(100, 2, 0, vec![[1, 0], [2, 0]], vec![]);
    let mut world = start_world(&input);
    let mut memo = Transpositions::new();
    let r = find_best_action_time_limit(&input, &mut memo, &mut world, 100, Duration::from_secs(0));
    match r {
        Res::SolutionFound { cost, action } => {
            assert_eq!(action.action, plant(1, 0));
            assert_eq!(cost, 1);
        },
        other => panic!("unexpected {:?}", other),
    }
}

#[test]
fn driver_with_more_time_is_no_worse() {
    let input = problem(100, 3, 0, vec![[3, 0], [1, 0], [2, 0]], vec![]);
    let (short_route, short_travelled) = plan_route(&input, Duration::from_millis(0));
    let (long_route, long_travelled) = plan_route(&input, Duration::from_secs(2));
    let (_, short_count, short_dist) = resolve(&input, &short_route);
    let (_, long_count, long_dist) = resolve(&input, &long_route);
    assert_eq!(short_count, 3);
    assert_eq!(long_count, 3);
    assert!(long_dist <= short_dist);
    assert_eq!((short_travelled, long_travelled), (3, 3));
}

#[test]
fn end_to_end_two_plants_in_a_row() {
    let input = problem(10, 2, 0, vec![[1, 0], [2, 0]], vec![[0, 0]]);
    let (actions, travelled) = plan_route(&input, Duration::from_secs(2));
    assert_eq!(actions, vec![plant(1, 0), plant(2, 0)]);
    assert_eq!(travelled, 2);
    let (steps, count, dist) = resolve(&input, &actions);
    assert_eq!(count, 2);
    assert_eq!(dist, 2);
    assert_eq!(steps.len(), 4);
}

#[test]
fn planned_routes_keep_storage_within_capacity() {
    for seed in 0..10u64 {
        let plants = positions(seed, 6, 8);
        let seeds = positions(seed + 50, 3, 8);
        let cap = 1 + (seed % 3) as u32;
        let input = problem(200, cap, (seed % 2) as i32, plants, seeds);
        let (actions, travelled) = plan_route(&input, Duration::from_millis(50));
        let mut storage = cap as i64;
        for a in &actions {
            match a.kind {
                ActionKind::Plant => storage -= 1,
                ActionKind::Collect => storage = cap as i64,
            }
            assert!(0 <= storage && storage <= cap as i64);
        }
        assert!(travelled >= 0);
    }
}

#[test]
fn planning_beyond_the_budget_is_cut_by_resolve() {
    let input = problem(5, 3, 0, vec![[1, 0], [10, 0]], vec![]);
    let (actions, travelled) = plan_route(&input, Duration::from_millis(200));
    assert_eq!(actions, vec![plant(1, 0), plant(10, 0)]);
    assert_eq!(travelled, 10);
    let (steps, count, dist) = resolve(&input, &actions);
    assert_eq!((count, dist), (1, 1));
    assert_eq!(steps.len(), 2);
}

#[test]
fn entry_found_under_a_looser_ceiling_is_reused_when_still_under() {
    // under the ceiling 5 alone, the estimate of both plants (1 + 9) prunes
    // every candidate; the entry stored under 100 holds a solution of cost 1
    let input = problem(100, 3, 0, vec![[1, 0], [10, 0]], vec![]);
    let start = Instant::now();
    let mut world = start_world(&input);
    let mut cold = Transpositions::new();
    let fresh = find_best_action(&input, &mut cold, &mut world, 5, &start, Duration::from_secs(5), 1, true);
    assert!(matches!(fresh, Some(Res::NoSolution)));
    let mut warm = Transpositions::new();
    let first = find_best_action(&input, &mut warm, &mut world, 100, &start, Duration::from_secs(5), 1, true);
    assert_eq!(cost_of(first), Some(1));
    let reused = find_best_action(&input, &mut warm, &mut world, 5, &start, Duration::from_secs(5), 1, true);
    assert_eq!(cost_of(reused), Some(1));
    // a solution found under a tighter ceiling holds under a looser one
    let looser = find_best_action(&input, &mut warm, &mut world, 1000, &start, Duration::from_secs(5), 1, true);
    assert_eq!(cost_of(looser), Some(1));
}

#[test]
fn taking_actions_updates_the_world() {
    let input = problem(100, 2, 1, vec![[3, 0]], vec![[0, 2]]);
    let mut world = start_world(&input);
    world.seed_storage = 1;
    let dist = take_action(&input, &mut world, &MyAction { index: 0, action: plant(3, 0) });
    assert_eq!(dist, 2);
    assert_eq!(world.robot_pos, QPos { robot_pos: [2, 0], range: 0 });
    assert_eq!(world.seed_storage, 0);
    assert!(world.plants.is_empty());
    let dist = take_action(&input, &mut world, &MyAction { index: 0, action: collect(0, 2) });
    assert_eq!(dist, 4);
    assert_eq!(world.robot_pos, QPos { robot_pos: [0, 2], range: 0 });
    assert_eq!(world.seed_storage, 2);
    assert!(world.seeds.is_empty());
}
