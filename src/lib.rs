//! Route planning on the Manhattan plane: an agent plants fixed targets,
//! refilling a bounded seed storage at seed spots, within a travel budget.
pub mod io;
pub mod prim;
pub mod quantum;
pub mod search;

use vstd::prelude::*;

pub use io::{Input, OutAction};
pub use quantum::QPos;

use quantum::{step_cost, step_exact, step_state};

verus! {

/// Largest absolute coordinate of any position handled by the planner, chosen
/// so that every distance between two positions fits an `i32`.
pub const COORD_LIMIT: i32 = 268435456;

pub open spec fn abs(v: int) -> int {
    if v < 0 {
        -v
    } else {
        v
    }
}

/// Taxicab distance between two points of the plane.
pub open spec fn manhattan(a: (int, int), b: (int, int)) -> int {
    abs(a.0 - b.0) + abs(a.1 - b.1)
}

pub open spec fn pos_of(p: [i32; 2]) -> (int, int) {
    (p[0] as int, p[1] as int)
}

pub open spec fn in_bounds(p: (int, int)) -> bool {
    -COORD_LIMIT <= p.0 <= COORD_LIMIT && -COORD_LIMIT <= p.1 <= COORD_LIMIT
}

#[derive(Debug, Copy, Clone, PartialEq, Eq, Structural)]
pub enum ActionKind {
    Collect,
    Plant,
}

/// An abstract step of a plan: plant the plant at `pos`, or collect the seed at `pos`.
#[derive(Debug, Copy, Clone, PartialEq, Eq)]
pub struct Action {
    pub pos: [i32; 2],
    pub kind: ActionKind,
}

/// Manhattan distance between two positions.
pub fn distance(a: [i32; 2], b: [i32; 2]) -> (r: i32)
    requires
        manhattan(pos_of(a), pos_of(b)) <= i32::MAX,
    ensures
        r == manhattan(pos_of(a), pos_of(b)),
{
    let d0 = a[0] as i64 - b[0] as i64;
    let d1 = a[1] as i64 - b[1] as i64;
    let a0 = if d0 < 0 { -d0 } else { d0 };
    let a1 = if d1 < 0 { -d1 } else { d1 };
    (a0 + a1) as i32
}

impl Action {
    /// The concrete step of this action; a collect happens where the agent stands.
    pub fn as_output(&self) -> (r: OutAction)
        ensures
            r == (match self.kind {
                ActionKind::Plant => OutAction::Plant(self.pos),
                ActionKind::Collect => OutAction::Collect,
            }),
    {
        match self.kind {
            ActionKind::Plant => OutAction::Plant(self.pos),
            ActionKind::Collect => OutAction::Collect,
        }
    }
}

/// The agent state after the first `k` actions, from the origin.
pub open spec fn replay_state(reach: int, actions: Seq<Action>, k: int) -> QPos
    decreases k,
{
    if k <= 0 {
        QPos { robot_pos: [0, 0], range: 0 }
    } else {
        step_state(replay_state(reach, actions, k - 1), reach, actions[k - 1])
    }
}

/// The distance travelled by the first `k` actions, from the origin.
pub open spec fn replay_cost(reach: int, actions: Seq<Action>, k: int) -> int
    decreases k,
{
    if k <= 0 {
        0
    } else {
        replay_cost(reach, actions, k - 1) + step_cost(replay_state(reach, actions, k - 1), reach, actions[k - 1])
    }
}

/// Number of plant actions among the first `k`.
pub open spec fn plants_among(actions: Seq<Action>, k: int) -> int
    decreases k,
{
    if k <= 0 {
        0
    } else {
        plants_among(actions, k - 1) + (if actions[k - 1].kind == ActionKind::Plant { 1int } else { 0int })
    }
}

/// Length of the longest prefix of the first `k` actions that ends with a plant (0 if none).
pub open spec fn last_plant_end(actions: Seq<Action>, k: int) -> int
    decreases k,
{
    if k <= 0 {
        0
    } else if actions[k - 1].kind == ActionKind::Plant {
        k
    } else {
        last_plant_end(actions, k - 1)
    }
}

pub open spec fn positions_in_bounds(actions: Seq<Action>) -> bool {
    forall|i: int| 0 <= i < actions.len() ==> in_bounds(pos_of(#[trigger] actions[i].pos))
}

/// Scores an action list by replaying it with the segment model, without
/// checking seed storage: takes actions while the distance stays within the
/// budget (when `limit_distance`), and returns the number of plants taken and
/// the distance up to the last plant taken.
pub fn resolve_q_fast(input: &Input, actions: &[Action], limit_distance: bool) -> (r: (usize, i32))
    requires
        input.reach_ok(),
        positions_in_bounds(actions@),
        actions@.len() <= 0x1000_0000,
        !limit_distance ==> replay_cost(input.range as int, actions@, actions@.len() as int) <= i32::MAX,
        limit_distance ==> input.max_distance <= i32::MAX,
    ensures
        exists|m: int|
            0 <= m <= actions@.len()
            && (limit_distance ==> replay_cost(input.range as int, actions@, m) <= input.max_distance)
            && (m < actions@.len() ==> limit_distance && replay_cost(input.range as int, actions@, m + 1) > input.max_distance)
            && r.0 == plants_among(actions@, m)
            && r.1 == replay_cost(input.range as int, actions@, last_plant_end(actions@, m)),
{
    let ghost reach = input.range as int;
    let ghost acts = actions@;
    let mut pos = QPos::default();
    let mut distance_traveled: i64 = 0;
    let mut distance_back: i64 = 0;
    let mut plant_count: usize = 0;
    let mut i: usize = 0;
    let ghost mut over = false;
    while i < actions.len()
        invariant
            input.reach_ok(),
            reach == input.range,
            over ==> (limit_distance && i < acts.len() && replay_cost(reach, acts, i + 1) > input.max_distance),
            0 <= distance_back <= distance_traveled,
            acts == actions@,
            positions_in_bounds(acts),
            acts.len() <= 0x1000_0000,
            !limit_distance ==> replay_cost(reach, acts, acts.len() as int) <= i32::MAX,
            limit_distance ==> input.max_distance <= i32::MAX,
            i <= acts.len(),
            pos == replay_state(reach, acts, i as int),
            pos.wf(),
            distance_traveled == replay_cost(reach, acts, i as int),
            0 <= distance_traveled <= i * 4 * COORD_LIMIT,
            limit_distance ==> distance_traveled <= input.max_distance,
            plant_count == plants_among(acts, i as int),
            plant_count <= i,
            distance_back == distance_traveled - replay_cost(reach, acts, last_plant_end(acts, i as int)),
        ensures
            i == acts.len() || over,
        decreases acts.len() - i,
    {
        proof {
            assert(in_bounds(pos_of(acts[i as int].pos)));
            quantum::lemma_cost_bound(pos, pos_of(acts[i as int].pos), reach);
            assert(i * 4 * COORD_LIMIT + 4 * COORD_LIMIT == (i + 1) * 4 * COORD_LIMIT) by (nonlinear_arith);
        }
        let action = &actions[i];
        let (new_pos, dist) = pos.apply_action(input, action);
        if limit_distance && distance_traveled + dist as i64 > input.max_distance as i64 {
            proof {
                over = true;
            }
            break;
        }
        pos = new_pos;
        distance_traveled = distance_traveled + dist as i64;
        match action.kind {
            ActionKind::Plant => {
                plant_count = plant_count + 1;
                distance_back = 0;
            },
            ActionKind::Collect => {
                distance_back = distance_back + dist as i64;
            },
        }
        i += 1;
    }
    proof {
        lemma_last_plant_end(acts, i as int);
        lemma_replay_cost_monotone(reach, acts, last_plant_end(acts, i as int), i as int);
        if !limit_distance {
            lemma_replay_cost_monotone(reach, acts, i as int, acts.len() as int);
        }
        assert(i == acts.len() || over);
        assert(0 <= i <= acts.len()
            && (limit_distance ==> replay_cost(reach, acts, i as int) <= input.max_distance)
            && (i < acts.len() ==> limit_distance && replay_cost(reach, acts, i + 1) > input.max_distance));
    }
    let travelled = distance_traveled - distance_back;
    proof {
        assert(travelled == replay_cost(reach, acts, last_plant_end(acts, i as int)));
        assert(travelled <= distance_traveled);
        if !limit_distance {
            assert(distance_traveled <= replay_cost(reach, acts, acts.len() as int));
        }
        assert(travelled <= i32::MAX);
    }
    (plant_count, travelled as i32)
}

proof fn lemma_last_plant_end(actions: Seq<Action>, k: int)
    requires
        0 <= k <= actions.len(),
    ensures
        0 <= last_plant_end(actions, k) <= k,
    decreases k,
{
    if k > 0 {
        lemma_last_plant_end(actions, k - 1);
    }
}

proof fn lemma_replay_cost_monotone(reach: int, actions: Seq<Action>, j: int, k: int)
    requires
        0 <= j <= k <= actions.len(),
    ensures
        replay_cost(reach, actions, j) <= replay_cost(reach, actions, k),
    decreases k - j,
{
    if j < k {
        lemma_replay_cost_monotone(reach, actions, j, k - 1);
        quantum::lemma_step_cost_nonneg(replay_state(reach, actions, k - 1), reach, actions[k - 1]);
    }
}

/// The actions taken after the first `k` concrete steps, and where the agent stands.
pub open spec fn unresolve_upto(actions: Seq<OutAction>, k: int) -> (Seq<Action>, [i32; 2])
    decreases k,
{
    if k <= 0 {
        (Seq::empty(), [0, 0])
    } else {
        let (done, at) = unresolve_upto(actions, k - 1);
        match actions[k - 1] {
            OutAction::Move(p) => (done, p),
            OutAction::Plant(p) => (done.push(Action { pos: p, kind: ActionKind::Plant }), at),
            OutAction::Collect => (done.push(Action { pos: at, kind: ActionKind::Collect }), at),
        }
    }
}

/// Recovers abstract actions from concrete steps: a collect takes place where
/// the latest move left the agent (the origin before any move).
pub fn unresolve(actions: &[OutAction]) -> (r: Vec<Action>)
    ensures
        r@ == unresolve_upto(actions@, actions@.len() as int).0,
{
    let mut moves: Vec<Action> = Vec::new();
    let mut robot_pos: [i32; 2] = [0, 0];
    let mut i: usize = 0;
    while i < actions.len()
        invariant
            i <= actions@.len(),
            (moves@, robot_pos) == unresolve_upto(actions@, i as int),
        decreases actions@.len() - i,
    {
        match actions[i] {
            OutAction::Move(pos) => robot_pos = pos,
            OutAction::Plant(pos) => moves.push(Action { pos: pos, kind: ActionKind::Plant }),
            OutAction::Collect => moves.push(Action { pos: robot_pos, kind: ActionKind::Collect }),
        }
        i += 1;
    }
    moves
}

/// Distance moved by the first `k` concrete steps, from the origin.
pub open spec fn route_cost(outs: Seq<OutAction>, k: int) -> int
    decreases k,
{
    if k <= 0 {
        0
    } else {
        route_cost(outs, k - 1) + match outs[k - 1] {
            OutAction::Move(p) => manhattan(pos_of(unresolve_upto(outs, k - 1).1), pos_of(p)),
            _ => 0,
        }
    }
}

/// Every concrete plant step happens within `reach` of its plant.
pub open spec fn route_in_range(outs: Seq<OutAction>, reach: int) -> bool {
    forall|k: int| #![trigger outs[k]]
        0 <= k < outs.len() ==> match outs[k] {
            OutAction::Plant(p) => manhattan(pos_of(unresolve_upto(outs, k).1), pos_of(p)) <= reach,
            _ => true,
        }
}

/// Every move goes to a new position and is followed by an action, so at most
/// one move precedes each action.
pub open spec fn moves_tidy(outs: Seq<OutAction>) -> bool {
    forall|k: int| #![trigger outs[k]]
        0 <= k < outs.len() ==> match outs[k] {
            OutAction::Move(p) => pos_of(p) != pos_of(unresolve_upto(outs, k).1) && k + 1 < outs.len() && !(outs[k
                + 1] is Move),
            _ => true,
        }
}

/// The abstract actions `done` are `actions` up to positions.
pub open spec fn same_actions(done: Seq<Action>, actions: Seq<Action>) -> bool {
    &&& done.len() == actions.len()
    &&& forall|i: int| #![trigger done[i]]
        0 <= i < done.len() ==> done[i].kind == actions[i].kind && pos_of(done[i].pos) == pos_of(actions[i].pos)
}

proof fn lemma_route_prefix(outs: Seq<OutAction>, x: OutAction, k: int)
    requires
        0 <= k <= outs.len(),
    ensures
        unresolve_upto(outs.push(x), k) == unresolve_upto(outs, k),
        route_cost(outs.push(x), k) == route_cost(outs, k),
    decreases k,
{
    if k > 0 {
        lemma_route_prefix(outs, x, k - 1);
        assert(outs.push(x)[k - 1] == outs[k - 1]);
    }
}

/// The replayed states `states[k]` after each prefix `k` of `actions`, each
/// step exact, up to the longest prefix `m` within the budget.
pub open spec fn replayed(input: &Input, actions: Seq<Action>, states: Seq<QPos>, m: int) -> bool {
    &&& 0 <= m <= actions.len()
    &&& states.len() == m + 1
    &&& forall|k: int| 0 <= k <= m ==> #[trigger] states[k] == replay_state(input.range as int, actions, k)
    &&& forall|k: int| 0 <= k <= m ==> (#[trigger] states[k]).wf()
    &&& forall|k: int| 0 <= k < m ==> step_exact(#[trigger] states[k], input.range as int, actions[k], states[k + 1])
    &&& replay_cost(input.range as int, actions, m) <= input.max_distance
    &&& (m < actions.len() ==> replay_cost(input.range as int, actions, m + 1) > input.max_distance)
}

/// Replays `actions` while the distance stays within the budget.
fn replay_within_budget(input: &Input, actions: &[Action]) -> (r: (Vec<QPos>, usize, i64, usize, Ghost<int>))
    requires
        input.reach_ok(),
        input.max_distance <= i32::MAX,
        positions_in_bounds(actions@),
        actions@.len() <= 0x1000_0000,
    ensures
        replayed(input, actions@, r.0@, r.4@),
        r.1 == last_plant_end(actions@, r.4@),
        r.2 == replay_cost(input.range as int, actions@, r.1 as int),
        0 <= r.2 <= input.max_distance,
        r.3 == plants_among(actions@, r.4@),
{
    let ghost reach = input.range as int;
    let ghost acts = actions@;
    let mut states: Vec<QPos> = Vec::new();
    states.push(QPos::default());
    let mut travelled: i64 = 0;
    let mut last_end: usize = 0;
    let mut cost_at_end: i64 = 0;
    let mut plant_count: usize = 0;
    let mut i: usize = 0;
    let ghost mut over = false;
    while i < actions.len()
        invariant
            input.reach_ok(),
            reach == input.range,
            acts == actions@,
            input.max_distance <= i32::MAX,
            positions_in_bounds(acts),
            acts.len() <= 0x1000_0000,
            i <= acts.len(),
            over ==> (i < acts.len() && replay_cost(reach, acts, i + 1) > input.max_distance),
            states@.len() == i + 1,
            forall|k: int| 0 <= k <= i ==> #[trigger] states@[k] == replay_state(reach, acts, k),
            forall|k: int| 0 <= k <= i ==> (#[trigger] states@[k]).wf(),
            forall|k: int| 0 <= k < i ==> step_exact(#[trigger] states@[k], reach, acts[k], states@[k + 1]),
            travelled == replay_cost(reach, acts, i as int),
            0 <= travelled <= input.max_distance,
            last_end == last_plant_end(acts, i as int),
            cost_at_end == replay_cost(reach, acts, last_end as int),
            plant_count == plants_among(acts, i as int),
            plant_count <= i,
        ensures
            i == acts.len() || over,
        decreases acts.len() - i,
    {
        proof {
            assert(in_bounds(pos_of(acts[i as int].pos)));
            quantum::lemma_cost_bound(states@[i as int], pos_of(acts[i as int].pos), reach);
        }
        let (new_pos, dist) = states[i].apply_action(input, &actions[i]);
        if travelled + dist as i64 > input.max_distance as i64 {
            proof {
                over = true;
            }
            break;
        }
        travelled = travelled + dist as i64;
        states.push(new_pos);
        match actions[i].kind {
            ActionKind::Plant => {
                plant_count = plant_count + 1;
                last_end = i + 1;
                cost_at_end = travelled;
            },
            ActionKind::Collect => {},
        }
        i += 1;
    }
    proof {
        lemma_last_plant_end(acts, i as int);
        lemma_replay_cost_monotone(reach, acts, last_end as int, i as int);
        lemma_replay_cost_monotone(reach, acts, 0, last_end as int);
    }
    (states, last_end, cost_at_end, plant_count, Ghost(i as int))
}

/// A point of each of the first `end + 1` states, from the last backward, each
/// the nearest to the next one.
fn place_points(states: &Vec<QPos>, end: usize) -> (points: Vec<[i32; 2]>)
    requires
        end < states@.len(),
        end <= 0x1000_0000,
        forall|j: int| 0 <= j < states@.len() ==> (#[trigger] states@[j]).wf(),
    ensures
        points@.len() == end + 1,
        forall|j: int| 0 <= j <= end ==> states@[j].contains(pos_of(#[trigger] points@[j])),
        forall|j: int| 0 < j <= end ==> pos_of(#[trigger] points@[j - 1]) == states@[j - 1].closest_to(
            pos_of(points@[j]),
        ),
{
    let mut points: Vec<[i32; 2]> = vec![[0, 0]; end + 1];
    points.set(end, states[end].robot_pos);
    let mut k: usize = end;
    while k > 0
        invariant
            k <= end,
            end < states@.len(),
            points@.len() == end + 1,
            forall|j: int| 0 <= j < states@.len() ==> (#[trigger] states@[j]).wf(),
            forall|j: int| k <= j <= end ==> states@[j].contains(pos_of(#[trigger] points@[j])),
            forall|j: int| k < j <= end ==> pos_of(#[trigger] points@[j - 1]) == states@[j - 1].closest_to(
                pos_of(points@[j]),
            ),
        decreases k,
    {
        proof {
            quantum::lemma_contains_in_bounds(states@[k as int], pos_of(points@[k as int]));
            quantum::lemma_dist_to_is_min(states@[k - 1], pos_of(points@[k as int]));
        }
        let p = states[k - 1].closest_point(points[k]);
        points.set(k - 1, p);
        k -= 1;
    }
    points
}

/// The concrete steps of the first `end` actions: a move to each placed point
/// that differs from the previous one, then the action.
#[verifier::rlimit(100)]
fn emit_steps(
    input: &Input,
    actions: &[Action],
    states: &Vec<QPos>,
    points: &Vec<[i32; 2]>,
    end: usize,
    Ghost(m): Ghost<int>,
) -> (out: Vec<OutAction>)
    requires
        replayed(input, actions@, states@, m),
        end <= m,
        end <= 0x1000_0000,
        points@.len() == end + 1,
        forall|q: int| 0 <= q <= end ==> states@[q].contains(pos_of(#[trigger] points@[q])),
        forall|q: int| 0 < q <= end ==> pos_of(#[trigger] points@[q - 1]) == states@[q - 1].closest_to(
            pos_of(points@[q]),
        ),
    ensures
        route_cost(out@, out@.len() as int) == replay_cost(input.range as int, actions@, end as int),
        route_in_range(out@, input.range as int),
        same_actions(unresolve_upto(out@, out@.len() as int).0, actions@.take(end as int)),
        moves_tidy(out@),
{
    let ghost reach = input.range as int;
    let ghost acts = actions@;
    let mut out: Vec<OutAction> = Vec::new();
    let mut j: usize = 1;
    proof {
        assert(same_actions(unresolve_upto(out@, 0).0, acts.take(0)));
    }
    while j <= end
        invariant
            1 <= j <= end + 1,
            end <= m,
            end <= 0x1000_0000,
            reach == input.range,
            acts == actions@,
            replayed(input, acts, states@, m),
            points@.len() == end + 1,
            forall|q: int| 0 <= q <= end ==> states@[q].contains(pos_of(#[trigger] points@[q])),
            forall|q: int| 0 < q <= end ==> pos_of(#[trigger] points@[q - 1]) == states@[q - 1].closest_to(
                pos_of(points@[q]),
            ),
            pos_of(unresolve_upto(out@, out@.len() as int).1) == pos_of(points@[j - 1]),
            route_cost(out@, out@.len() as int) == replay_cost(reach, acts, j - 1),
            route_in_range(out@, reach),
            same_actions(unresolve_upto(out@, out@.len() as int).0, acts.take(j - 1)),
            moves_tidy(out@),
        decreases end + 1 - j,
    {
        let ghost q = pos_of(points@[j as int]);
        let ghost s = states@[j - 1];
        let ghost a = acts[j - 1];
        proof {
            quantum::lemma_dist_to_is_min(s, q);
            assert(step_exact(s, reach, a, states@[j as int]));
            assert(s.dist_to(q) == step_cost(s, reach, a));
            assert(manhattan(pos_of(points@[j - 1]), q) == step_cost(s, reach, a));
        }
        let ghost start_len = out@.len();
        let ghost at_start = out@;
        let moved = points[j][0] != points[j - 1][0] || points[j][1] != points[j - 1][1];
        if moved {
            let ghost before = out@;
            out.push(OutAction::Move(points[j]));
            proof {
                lemma_route_prefix(before, OutAction::Move(points@[j as int]), before.len() as int);
                assert(out@[before.len() as int] == OutAction::Move(points@[j as int]));
                assert forall|k2: int| #![trigger out@[k2]] 0 <= k2 < out@.len() implies match out@[k2] {
                    OutAction::Plant(p) => manhattan(pos_of(unresolve_upto(out@, k2).1), pos_of(p)) <= reach,
                    _ => true,
                } by {
                    if k2 < before.len() {
                        assert(out@[k2] == before[k2]);
                        lemma_route_prefix(before, OutAction::Move(points@[j as int]), k2);
                    }
                }
            }
        }
        proof {
            assert(pos_of(unresolve_upto(out@, out@.len() as int).1) == q);
            assert(route_cost(out@, out@.len() as int) == replay_cost(reach, acts, j as int));
        }
        let ghost before = out@;
        let step = actions[j - 1].as_output();
        out.push(step);
        proof {
            lemma_route_prefix(before, step, before.len() as int);
            assert(out@[before.len() as int] == step);
            assert forall|k2: int| #![trigger out@[k2]] 0 <= k2 < out@.len() implies match out@[k2] {
                OutAction::Plant(p) => manhattan(pos_of(unresolve_upto(out@, k2).1), pos_of(p)) <= reach,
                _ => true,
            } by {
                if k2 < before.len() {
                    assert(out@[k2] == before[k2]);
                    lemma_route_prefix(before, step, k2);
                }
            }
            assert forall|k2: int| #![trigger out@[k2]] 0 <= k2 < out@.len() implies match out@[k2] {
                OutAction::Move(p) => pos_of(p) != pos_of(unresolve_upto(out@, k2).1) && k2 + 1 < out@.len() && !(out@[k2
                    + 1] is Move),
                _ => true,
            } by {
                if k2 < start_len {
                    assert(out@[k2] == at_start[k2]);
                    lemma_route_prefix(before, step, k2);
                    if moved {
                        lemma_route_prefix(at_start, OutAction::Move(points@[j as int]), k2);
                        assert(before[k2] == at_start[k2]);
                    }
                    if k2 + 1 < start_len {
                        assert(out@[k2 + 1] == at_start[k2 + 1]);
                    }
                } else if k2 < before.len() {
                    assert(moved);
                    assert(k2 == start_len);
                    lemma_route_prefix(before, step, k2);
                    lemma_route_prefix(at_start, OutAction::Move(points@[j as int]), k2);
                }
            }
            let done = unresolve_upto(out@, out@.len() as int).0;
            let prev = unresolve_upto(before, before.len() as int).0;
            assert(acts.take(j as int) =~= acts.take(j - 1).push(a));
            assert forall|i2: int| #![trigger done[i2]] 0 <= i2 < done.len() implies done[i2].kind == acts.take(
                j as int,
            )[i2].kind && pos_of(done[i2].pos) == pos_of(acts.take(j as int)[i2].pos) by {
                if i2 < prev.len() {
                    assert(done[i2] == prev[i2]);
                }
            }
        }
        j += 1;
    }
    out
}

/// Resolves an action list into concrete steps: takes the longest prefix whose
/// distance stays within the budget, up to its last plant, and places each
/// action at a point of its reachable segment so that the route costs exactly
/// the replayed distance. Returns the steps, the number of plants and the distance.
pub fn resolve(input: &Input, actions: &[Action]) -> (r: (Vec<OutAction>, usize, i32))
    requires
        input.reach_ok(),
        input.max_distance <= i32::MAX,
        positions_in_bounds(actions@),
        actions@.len() <= 0x1000_0000,
    ensures
        exists|m: int|
            0 <= m <= actions@.len()
            && replay_cost(input.range as int, actions@, m) <= input.max_distance
            && (m < actions@.len() ==> replay_cost(input.range as int, actions@, m + 1) > input.max_distance)
            && r.1 == plants_among(actions@, m)
            && r.2 == replay_cost(input.range as int, actions@, last_plant_end(actions@, m))
            && same_actions(unresolve_upto(r.0@, r.0@.len() as int).0, actions@.take(last_plant_end(actions@, m)))
            && route_cost(r.0@, r.0@.len() as int) == r.2,
        route_in_range(r.0@, input.range as int),
        moves_tidy(r.0@),
{
    let (states, end, cost, plant_count, Ghost(m)) = replay_within_budget(input, actions);
    proof {
        lemma_last_plant_end(actions@, m);
    }
    let points = place_points(&states, end);
    let out = emit_steps(input, actions, &states, &points, end, Ghost(m));
    (out, plant_count, cost as i32)
}

/// Same score as `resolve_q_fast`: the segment states already hold every
/// position reachable at least cost, so no search over single positions is needed.
pub fn resolve_fast(input: &Input, actions: &[Action], limit_distance: bool) -> (r: (usize, i32))
    requires
        input.reach_ok(),
        positions_in_bounds(actions@),
        actions@.len() <= 0x1000_0000,
        !limit_distance ==> replay_cost(input.range as int, actions@, actions@.len() as int) <= i32::MAX,
        limit_distance ==> input.max_distance <= i32::MAX,
    ensures
        exists|m: int|
            0 <= m <= actions@.len()
            && (limit_distance ==> replay_cost(input.range as int, actions@, m) <= input.max_distance)
            && (m < actions@.len() ==> limit_distance && replay_cost(input.range as int, actions@, m + 1) > input.max_distance)
            && r.0 == plants_among(actions@, m)
            && r.1 == replay_cost(input.range as int, actions@, last_plant_end(actions@, m)),
{
    resolve_q_fast(input, actions, limit_distance)
}

/// Seed storage after the first `k` actions, from a full storage of `cap`
/// (a plant takes one seed, a collect fills the storage).
pub open spec fn storage_after(cap: int, actions: Seq<Action>, k: int) -> int
    decreases k,
{
    if k <= 0 {
        cap
    } else if actions[k - 1].kind == ActionKind::Collect {
        cap
    } else {
        storage_after(cap, actions, k - 1) - 1
    }
}

/// No plant of `actions` finds the storage empty.
pub open spec fn storage_feasible(cap: int, actions: Seq<Action>) -> bool {
    forall|k: int|
        0 <= k < actions.len() && #[trigger] actions[k].kind == ActionKind::Plant ==> storage_after(cap, actions, k) > 0
}

/// Whether the seed storage suffices for every plant of `actions`.
pub fn check_actions(input: &Input, actions: &[Action]) -> (r: bool)
    ensures
        r == storage_feasible(input.seed_capacity as int, actions@),
{
    let ghost cap = input.seed_capacity as int;
    let mut seed = input.seed_capacity;
    let mut i: usize = 0;
    while i < actions.len()
        invariant
            cap == input.seed_capacity,
            i <= actions@.len(),
            seed == storage_after(cap, actions@, i as int),
            forall|k: int|
                0 <= k < i && #[trigger] actions@[k].kind == ActionKind::Plant ==> storage_after(cap, actions@, k) > 0,
        decreases actions@.len() - i,
    {
        match actions[i].kind {
            ActionKind::Collect => seed = input.seed_capacity,
            ActionKind::Plant => {
                if seed == 0 {
                    return false;
                }
                seed -= 1;
            },
        }
        i += 1;
    }
    true
}

/// Number of plants in a row from `i` onward, up to the next collect.
pub open spec fn plants_from(actions: Seq<Action>, i: int) -> int
    decreases actions.len() - i,
{
    if i < 0 || i >= actions.len() || actions[i].kind == ActionKind::Collect {
        0
    } else {
        1 + plants_from(actions, i + 1)
    }
}

/// Number of plants in a row just before `i`, back to the previous collect.
pub open spec fn plants_before(actions: Seq<Action>, i: int) -> int
    decreases i,
{
    if i <= 0 || i > actions.len() || actions[i - 1].kind == ActionKind::Collect {
        0
    } else {
        1 + plants_before(actions, i - 1)
    }
}

/// Whether one storage fill covers the run of plants, between two collects,
/// that surrounds position `index`.
pub fn check_actions_at(input: &Input, actions: &[Action], index: usize) -> (r: bool)
    requires
        index <= actions@.len(),
    ensures
        r == (plants_from(actions@, index as int) + plants_before(actions@, index as int) <= input.seed_capacity),
{
    let mut i: usize = index;
    while i < actions.len()
        invariant
            index <= i <= actions@.len(),
            plants_from(actions@, index as int) == (i - index) + plants_from(actions@, i as int),
        ensures
            plants_from(actions@, index as int) == (i - index) + plants_from(actions@, i as int),
            plants_from(actions@, i as int) == 0,
        decreases actions@.len() - i,
    {
        if let ActionKind::Collect = actions[i].kind {
            break;
        }
        i += 1;
    }
    let mut j: usize = index;
    while j > 0
        invariant
            j <= index <= actions@.len(),
            plants_before(actions@, index as int) == (index - j) + plants_before(actions@, j as int),
        ensures
            plants_before(actions@, index as int) == (index - j) + plants_before(actions@, j as int),
            plants_before(actions@, j as int) == 0,
        decreases j,
    {
        if let ActionKind::Collect = actions[j - 1].kind {
            break;
        }
        j -= 1;
    }
    ((i - index) as u128) + ((index - j) as u128) <= input.seed_capacity as u128
}

} // verus!
