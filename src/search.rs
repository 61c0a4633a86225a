use std::time::{Duration, Instant};

use vstd::prelude::*;

use crate::io::Input;
use crate::prim::{all_in_bounds, estimate_cap, lemma_max_plant_cost, prim2};
use crate::quantum::{lemma_cost_bound, max, step_cost, step_state, QPos};
use crate::{in_bounds, pos_of, Action, ActionKind, COORD_LIMIT};

verus! {

/// A chosen action, with the index of its target in the world's plant or seed list.
#[derive(Debug, Copy, Clone)]
pub struct MyAction {
    pub index: usize,
    pub action: Action,
}

/// Outcome of a bounded search.
#[derive(Debug, Copy, Clone)]
pub enum Res {
    /// No plant is left, or the lookahead is exhausted.
    Solved,
    /// The best first action found, and the cost of the lookahead plan it starts.
    SolutionFound { cost: i32, action: MyAction },
    /// No plan stays under the cost ceiling.
    NoSolution,
}

/// What remains to be done, and where the agent stands.
#[derive(Debug)]
pub struct World {
    pub robot_pos: QPos,
    pub seed_storage: u32,
    pub seeds: Vec<[i32; 2]>,
    pub plants: Vec<[i32; 2]>,
}

/// A world as the contracts see it.
pub struct WorldView {
    pub pos: QPos,
    pub storage: int,
    pub seeds: Seq<[i32; 2]>,
    pub plants: Seq<[i32; 2]>,
}

impl View for World {
    type V = WorldView;

    open spec fn view(&self) -> WorldView {
        WorldView {
            pos: self.robot_pos,
            storage: self.seed_storage as int,
            seeds: self.seeds@,
            plants: self.plants@,
        }
    }
}

/// A world that the search can work on, for the problem `input`.
pub open spec fn world_ok(w: WorldView, input: &Input) -> bool {
    &&& input.reach_ok()
    &&& w.pos.wf()
    &&& 0 <= w.storage <= input.seed_capacity
    &&& all_in_bounds(w.plants)
    &&& all_in_bounds(w.seeds)
    &&& w.plants.len() <= u32::MAX
    &&& w.seeds.len() <= u32::MAX
}

/// `a` may be taken in `w`: a plant needs a seed in storage, a collect a storage not full.
pub open spec fn legal(w: WorldView, cap: int, a: MyAction) -> bool {
    match a.action.kind {
        ActionKind::Plant => w.storage > 0 && a.index < w.plants.len() && w.plants[a.index as int]
            == a.action.pos,
        ActionKind::Collect => w.storage < cap && a.index < w.seeds.len() && w.seeds[a.index as int]
            == a.action.pos,
    }
}

/// The world after taking `a` in `w`.
pub open spec fn next_world(w: WorldView, reach: int, cap: int, a: MyAction) -> WorldView {
    match a.action.kind {
        ActionKind::Plant => WorldView {
            pos: step_state(w.pos, reach, a.action),
            storage: w.storage - 1,
            seeds: w.seeds,
            plants: w.plants.remove(a.index as int),
        },
        ActionKind::Collect => WorldView {
            pos: step_state(w.pos, reach, a.action),
            storage: cap,
            seeds: w.seeds.remove(a.index as int),
            plants: w.plants,
        },
    }
}

/// Every action of `plan` is legal in turn, starting from `w`.
pub open spec fn run_legal(w: WorldView, reach: int, cap: int, plan: Seq<MyAction>) -> bool
    decreases plan.len(),
{
    if plan.len() == 0 {
        true
    } else {
        legal(w, cap, plan[0]) && run_legal(next_world(w, reach, cap, plan[0]), reach, cap, plan.drop_first())
    }
}

/// Distance travelled by `plan` from `w`.
pub open spec fn run_cost(w: WorldView, reach: int, cap: int, plan: Seq<MyAction>) -> int
    decreases plan.len(),
{
    if plan.len() == 0 {
        0
    } else {
        step_cost(w.pos, reach, plan[0].action) + run_cost(
            next_world(w, reach, cap, plan[0]),
            reach,
            cap,
            plan.drop_first(),
        )
    }
}

/// The world after `plan`.
pub open spec fn run_end(w: WorldView, reach: int, cap: int, plan: Seq<MyAction>) -> WorldView
    decreases plan.len(),
{
    if plan.len() == 0 {
        w
    } else {
        run_end(next_world(w, reach, cap, plan[0]), reach, cap, plan.drop_first())
    }
}

pub open spec fn plant_count(plan: Seq<MyAction>) -> int
    decreases plan.len(),
{
    if plan.len() == 0 {
        0
    } else {
        (if plan[0].action.kind == ActionKind::Plant { 1int } else { 0int }) + plant_count(plan.drop_first())
    }
}

/// `plan` is a legal lookahead plan of `depth` plants from `w`: it plants
/// `depth` times, or until no plant is left.
pub open spec fn lookahead_plan(w: WorldView, reach: int, cap: int, depth: int, plan: Seq<MyAction>) -> bool {
    &&& run_legal(w, reach, cap, plan)
    &&& plant_count(plan) <= depth
    &&& (plant_count(plan) == depth || run_end(w, reach, cap, plan).plants.len() == 0)
}

pub open spec fn child_depth(depth: int, a: MyAction) -> int {
    if a.action.kind == ActionKind::Plant {
        depth - 1
    } else {
        depth
    }
}

/// Every lookahead plan from `w` that starts with `a` and costs less than
/// `bound` is cut: at some step, that step's cost plus the bound `estimate_cap`
/// of the estimate there reaches what is left of `bound`.
pub open spec fn handled(w: WorldView, reach: int, cap: int, depth: int, a: MyAction, bound: int) -> bool
    decreases w.plants.len() + w.seeds.len(), 0int,
{
    !legal(w, cap, a) || {
        let n = next_world(w, reach, cap, a);
        let c = step_cost(w.pos, reach, a.action);
        c + estimate_cap(n.pos, n.plants, reach) >= bound || cut_off(n, reach, cap, child_depth(depth, a), bound - c)
    }
}

/// Every lookahead plan of `depth` from `w` that costs less than `bound` is
/// cut by the estimate (see `handled`); with nothing left to plant, only a
/// `bound` of at most zero.
pub open spec fn cut_off(w: WorldView, reach: int, cap: int, depth: int, bound: int) -> bool
    decreases w.plants.len() + w.seeds.len(), 1int,
{
    if w.plants.len() == 0 || depth <= 0 {
        bound <= 0
    } else {
        forall|a: MyAction| #[trigger] legal(w, cap, a) ==> handled(w, reach, cap, depth, a, bound)
    }
}

/// A lower bound is cut whenever a higher one is.
pub proof fn lemma_cut_off_mono(w: WorldView, reach: int, cap: int, depth: int, b1: int, b2: int)
    requires
        cut_off(w, reach, cap, depth, b1),
        b2 <= b1,
    ensures
        cut_off(w, reach, cap, depth, b2),
    decreases w.plants.len() + w.seeds.len(), 1int,
{
    if w.plants.len() > 0 && depth > 0 {
        assert forall|a: MyAction| #[trigger] legal(w, cap, a) implies handled(w, reach, cap, depth, a, b2) by {
            assert(handled(w, reach, cap, depth, a, b1));
            lemma_handled_mono(w, reach, cap, depth, a, b1, b2);
        }
    }
}

pub proof fn lemma_handled_mono(w: WorldView, reach: int, cap: int, depth: int, a: MyAction, b1: int, b2: int)
    requires
        handled(w, reach, cap, depth, a, b1),
        b2 <= b1,
    ensures
        handled(w, reach, cap, depth, a, b2),
    decreases w.plants.len() + w.seeds.len(), 0int,
{
    if legal(w, cap, a) {
        let n = next_world(w, reach, cap, a);
        let c = step_cost(w.pos, reach, a.action);
        if !(c + estimate_cap(n.pos, n.plants, reach) >= b1) {
            lemma_cut_off_mono(n, reach, cap, child_depth(depth, a), b1 - c, b2 - c);
        }
    }
}

pub open spec fn plant_action(w: WorldView, i: int) -> MyAction {
    MyAction { index: i as usize, action: Action { pos: w.plants[i], kind: ActionKind::Plant } }
}

pub open spec fn seed_action(w: WorldView, i: int) -> MyAction {
    MyAction { index: i as usize, action: Action { pos: w.seeds[i], kind: ActionKind::Collect } }
}

pub open spec fn candidate(w: WorldView, i: int, plants: bool) -> MyAction {
    if plants {
        plant_action(w, i)
    } else {
        seed_action(w, i)
    }
}

/// `a` is cut under `bound` by its own estimate cap, or stands in `v` with an
/// estimate no larger than that cap.
pub open spec fn ranked_or_cut(w: WorldView, reach: int, cap: int, v: Seq<(usize, i64)>, a: MyAction, bound: int) -> bool {
    let n = next_world(w, reach, cap, a);
    let c = step_cost(w.pos, reach, a.action);
    c + estimate_cap(n.pos, n.plants, reach) >= bound || exists|k: int|
        0 <= k < v.len() && (#[trigger] v[k]).0 == a.index && v[k].1 <= c + estimate_cap(n.pos, n.plants, reach)
}

/// `action` starts a legal lookahead plan of `depth` from `w` that costs `cost`,
/// under `ceiling`.
pub open spec fn found_sound(w: WorldView, reach: int, cap: int, depth: int, ceiling: int, cost: i32, action: MyAction) -> bool {
    &&& w.plants.len() > 0
    &&& depth > 0
    &&& cost < ceiling
    &&& exists|plan: Seq<MyAction>|
        #![trigger lookahead_plan(w, reach, cap, depth, plan)]
        plan.len() > 0 && plan[0] == action && lookahead_plan(w, reach, cap, depth, plan)
            && run_cost(w, reach, cap, plan) == cost
}

/// `res` is a truthful outcome of a search of `depth` from `w` under the cost `ceiling`.
pub open spec fn res_sound(w: WorldView, reach: int, cap: int, depth: int, ceiling: int, res: Res) -> bool {
    match res {
        Res::Solved => w.plants.len() == 0 || depth == 0,
        Res::SolutionFound { cost, action } => {
            &&& found_sound(w, reach, cap, depth, ceiling, cost, action)
            &&& cut_off(w, reach, cap, depth, cost as int)
        },
        Res::NoSolution => {
            &&& w.plants.len() > 0
            &&& depth > 0
            &&& !last_plant_fits(w, reach, ceiling)
            &&& cut_off(w, reach, cap, depth, ceiling)
        },
    }
}

/// A single plant is left, a seed is in storage, and planting it costs less than `ceiling`.
pub open spec fn last_plant_fits(w: WorldView, reach: int, ceiling: int) -> bool {
    &&& w.plants.len() == 1
    &&& w.storage > 0
    &&& w.pos.plant_cost(pos_of(w.plants[0]), reach) < ceiling
}

/// Key of a transposition entry: agent anchor and extent, seed storage,
/// remaining seeds and plants, lookahead depth.
type TableKey = ([i32; 2], i32, u32, Vec<[i32; 2]>, Vec<[i32; 2]>, u32);

/// Transposition table: for a world and a lookahead depth, the cost ceiling of
/// the search that filled the entry and its outcome, held in a private
/// hashbrown::HashMap whose contents `table_entries` names.
#[verifier::external_body]
pub struct Transpositions {
    map: hashbrown::HashMap<TableKey, (i32, Res)>,
}

pub type TableEntries = Map<(WorldView, int), (i32, Res)>;

/// What the table holds, keyed by world and depth: the contents of its
/// hashbrown::HashMap, each key read as the world and depth it was built from.
pub uninterp spec fn table_entries(t: Transpositions) -> TableEntries;

impl Transpositions {
    /// Relies on hashbrown::HashMap::new: a map with no entry.
    #[verifier::external_body]
    fn empty() -> (r: Transpositions)
        ensures
            table_entries(r) == TableEntries::empty(),
    {
        Transpositions { map: hashbrown::HashMap::new() }
    }

    /// A table with no entry.
    pub fn new() -> (r: Transpositions)
        ensures
            table_entries(r) == TableEntries::empty(),
    {
        Transpositions::empty()
    }

    /// Relies on hashbrown::HashMap::get: the value under an equal key, if any.
    /// The key holds every field of the world, and equal keys are equal worlds.
    #[verifier::external_body]
    fn lookup(&self, w: &World, depth: u32) -> (r: Option<(i32, Res)>)
        ensures
            table_entries(*self).contains_key((w@, depth as int)) ==> r == Some(
                table_entries(*self)[(w@, depth as int)],
            ),
            !table_entries(*self).contains_key((w@, depth as int)) ==> r.is_none(),
    {
        let key = (w.robot_pos.robot_pos, w.robot_pos.range, w.seed_storage, w.seeds.clone(), w.plants.clone(), depth);
        self.map.get(&key).copied()
    }

    /// Relies on hashbrown::HashMap::insert: the key now maps to `v`, other keys are kept.
    #[verifier::external_body]
    fn store(&mut self, w: &World, depth: u32, v: (i32, Res))
        ensures
            table_entries(*final(self)) == table_entries(*old(self)).insert((w@, depth as int), v),
    {
        let key = (w.robot_pos.robot_pos, w.robot_pos.range, w.seed_storage, w.seeds.clone(), w.plants.clone(), depth);
        self.map.insert(key, v);
    }
}

/// Every entry of the table is a truthful outcome under the ceiling stored
/// with it, and none is `Solved`.
pub open spec fn table_ok(t: Transpositions, reach: int, cap: int) -> bool {
    forall|k: (WorldView, int)| #[trigger] table_entries(t).contains_key(k) ==> res_sound(
        k.0,
        reach,
        cap,
        k.1,
        table_entries(t)[k].0 as int,
        table_entries(t)[k].1,
    ) && !(table_entries(t)[k].1 is Solved)
}

/// std::time::Instant, carried as an opaque start time to `time_is_up`.
#[verifier::external_type_specification]
#[verifier::external_body]
pub struct ExInstant(Instant);

/// Relies on Instant::now: the current time; nothing is assumed of it.
pub assume_specification[ Instant::now ]() -> Instant;

/// Relies on Instant::elapsed and the order of Duration: whether `limit` has
/// passed since `start`. Nothing is assumed of the answer.
#[verifier::external_body]
fn time_is_up(start: &Instant, limit: Duration) -> bool {
    start.elapsed() >= limit
}

/// Taking `a` first and then `rest` is legal, costs and ends as expected.
pub proof fn lemma_prepend(w: WorldView, reach: int, cap: int, a: MyAction, rest: Seq<MyAction>)
    requires
        legal(w, cap, a),
    ensures
        run_legal(w, reach, cap, seq![a] + rest) == run_legal(next_world(w, reach, cap, a), reach, cap, rest),
        run_cost(w, reach, cap, seq![a] + rest) == step_cost(w.pos, reach, a.action) + run_cost(
            next_world(w, reach, cap, a),
            reach,
            cap,
            rest,
        ),
        run_end(w, reach, cap, seq![a] + rest) == run_end(next_world(w, reach, cap, a), reach, cap, rest),
        plant_count(seq![a] + rest) == (if a.action.kind == ActionKind::Plant { 1int } else { 0int })
            + plant_count(rest),
        (seq![a] + rest)[0] == a,
        (seq![a] + rest).len() > 0,
{
    assert((seq![a] + rest).drop_first() =~= rest);
}

/// Sorts candidates by ascending estimate.
fn sort_by_estimate(v: &mut Vec<(usize, i64)>, Ghost(bound): Ghost<int>) -> (moved: Ghost<Seq<int>>)
    requires
        forall|i: int| 0 <= i < old(v)@.len() ==> (#[trigger] old(v)@[i]).0 < bound,
    ensures
        final(v)@.len() == old(v)@.len(),
        forall|i: int| 0 <= i < final(v)@.len() ==> (#[trigger] final(v)@[i]).0 < bound,
        forall|i: int, j: int| 0 <= i < j < final(v)@.len() ==> final(v)@[i].1 <= final(v)@[j].1,
        old(v)@.len() <= 1 ==> final(v)@ == old(v)@,
        moved@.len() == old(v)@.len(),
        forall|a: int| 0 <= a < old(v)@.len() ==> 0 <= #[trigger] moved@[a] < final(v)@.len() && final(v)@[moved@[a]] == old(v)@[a],
{
    let ghost start = v@;
    let ghost mut perm: Seq<int> = Seq::new(v@.len(), |i: int| i);
    let n = v.len();
    let mut i: usize = 1;
    while i < n
        invariant
            v@.len() == n,
            1 <= i || n == 0,
            i <= n || n == 0,
            forall|k: int| 0 <= k < v@.len() ==> (#[trigger] v@[k]).0 < bound,
            forall|a: int, b: int| 0 <= a < b < i && b < n ==> v@[a].1 <= v@[b].1,
            n <= 1 ==> v@ == start,
            start == old(v)@,
            start.len() == n,
            perm.len() == n,
            forall|a: int| 0 <= a < n ==> 0 <= #[trigger] perm[a] < n && v@[perm[a]] == start[a],
        decreases n - i,
    {
        let mut j: usize = i;
        while j > 0 && v[j - 1].1 > v[j].1
            invariant
                v@.len() == n,
                0 <= j <= i < n,
                forall|k: int| 0 <= k < v@.len() ==> (#[trigger] v@[k]).0 < bound,
                forall|a: int, b: int| 0 <= a < b <= i && b != j && a != j ==> v@[a].1 <= v@[b].1,
                forall|a: int, b: int| 0 <= a < j && j < b <= i ==> v@[a].1 <= v@[b].1,
            forall|b: int| j < b <= i ==> v@[j as int].1 <= #[trigger] v@[b].1,
            start == old(v)@,
            start.len() == n,
            perm.len() == n,
            forall|a: int| 0 <= a < n ==> 0 <= #[trigger] perm[a] < n && v@[perm[a]] == start[a],
            decreases j,
        {
            let x = v[j - 1];
            let y = v[j];
            v.set(j - 1, y);
            v.set(j, x);
            proof {
                let jj = j as int;
                perm = Seq::new(n as nat, |a: int| if perm[a] == jj - 1 { jj } else if perm[a] == jj { jj - 1 } else { perm[a] });
            }
            j -= 1;
        }
        i += 1;
    }
    Ghost(perm)
}

proof fn lemma_sorted_keeps_ranked(
    w: WorldView,
    reach: int,
    cap: int,
    before: Seq<(usize, i64)>,
    after: Seq<(usize, i64)>,
    moved: Seq<int>,
    n: int,
    bound: int,
    plants: bool,
)
    requires
        moved.len() == before.len(),
        forall|a: int| 0 <= a < before.len() ==> 0 <= #[trigger] moved[a] < after.len() && after[moved[a]] == before[a],
        forall|i: int| 0 <= i < n ==> #[trigger] ranked_or_cut(w, reach, cap, before,
            candidate(w, i, plants), bound),
    ensures
        forall|i: int| 0 <= i < n ==> #[trigger] ranked_or_cut(w, reach, cap, after,
            candidate(w, i, plants), bound),
{
    assert forall|i: int| 0 <= i < n implies #[trigger] ranked_or_cut(w, reach, cap, after,
        candidate(w, i, plants), bound) by {
        let a = candidate(w, i, plants);
        assert(ranked_or_cut(w, reach, cap, before, a, bound));
        let nw = next_world(w, reach, cap, a);
        let c = step_cost(w.pos, reach, a.action);
        if !(c + estimate_cap(nw.pos, nw.plants, reach) >= bound) {
            let k = choose|k: int| 0 <= k < before.len() && (#[trigger] before[k]).0 == a.index
                && before[k].1 <= c + estimate_cap(nw.pos, nw.plants, reach);
            let b = moved[k];
            assert(after[b].0 == a.index);
        }
    }
}

/// Candidate plants with their estimated total cost (step cost plus the
/// spanning tree bound of the plants left), cheapest first, keeping those
/// under `min_cost`. `None` when time runs out.
fn rank_plants(
    input: &Input,
    state: &mut World,
    min_cost: i32,
    start: &Instant,
    limit: Duration,
    force: bool,
) -> (r: Option<Vec<(usize, i64)>>)
    requires
        world_ok(old(state)@, input),
    ensures
        final(state)@ == old(state)@,
        force ==> r.is_some(),
        r matches Some(v) ==> forall|i: int| 0 <= i < v@.len() ==> (#[trigger] v@[i]).0 < old(state)@.plants.len(),
        r matches Some(v) ==> (old(state)@.plants.len() == 1 && old(state)@.pos.plant_cost(
            pos_of(old(state)@.plants[0]),
            input.range as int,
        ) < min_cost ==> v@.len() == 1 && v@[0].0 == 0 && v@[0].1 == old(state)@.pos.plant_cost(
            pos_of(old(state)@.plants[0]),
            input.range as int,
        )),
        r matches Some(v) ==> forall|i: int| 0 <= i < old(state)@.plants.len() ==> #[trigger] ranked_or_cut(
            old(state)@,
            input.range as int,
            input.seed_capacity as int,
            v@,
            plant_action(old(state)@, i),
            min_cost as int,
        ),
        r matches Some(v) ==> forall|i: int, j: int| 0 <= i < j < v@.len() ==> v@[i].1 <= v@[j].1,
{
    let ghost orig = state@;
    let ghost reach = input.range as int;
    let ghost cap = input.seed_capacity as int;
    let ghost single = orig.plants.len() == 1 && orig.pos.plant_cost(pos_of(orig.plants[0]), input.range as int)
        < min_cost;
    let pos = state.robot_pos;
    let mut out: Vec<(usize, i64)> = Vec::new();
    let mut index: usize = 0;
    while index < state.plants.len()
        invariant
            state@ == orig,
            orig == old(state)@,
            pos == orig.pos,
            index <= orig.plants.len(),
            world_ok(orig, input),
            forall|i: int| 0 <= i < out@.len() ==> (#[trigger] out@[i]).0 < orig.plants.len(),
            single == (orig.plants.len() == 1 && orig.pos.plant_cost(pos_of(orig.plants[0]), input.range as int)
                < min_cost),
            single ==> (out@.len() == index && (index == 1 ==> out@[0] == (0usize, orig.pos.plant_cost(
                pos_of(orig.plants[0]),
                input.range as int,
            ) as i64))),
            reach == input.range,
            cap == input.seed_capacity,
            forall|i: int| 0 <= i < index ==> #[trigger] ranked_or_cut(orig, reach, cap, out@, plant_action(orig, i), min_cost as int),
        decreases state.plants@.len() - index,
    {
        if !force && time_is_up(start, limit) {
            return None;
        }
        let plant = state.plants[index];
        let (new_pos, dist) = pos.apply_plant(input, plant);
        let ghost a = plant_action(orig, index as int);
        let ghost before = out@;
        proof {
            lemma_max_plant_cost(new_pos, orig.plants.remove(index as int), reach);
            assert(next_world(orig, reach, cap, a).pos == new_pos);
            assert(next_world(orig, reach, cap, a).plants == orig.plants.remove(index as int));
        }
        if dist < min_cost {
            state.plants.remove(index);
            proof {
                lemma_cost_bound(pos, pos_of(plant), input.range as int);
            }
            let tree = prim2(input, new_pos, state.plants.as_slice());
            proof {
                assert(state.plants@ == orig.plants.remove(index as int));
                assert(state.plants@.len() == orig.plants.len() - 1);
                if single {
                    assert(tree == 0);
                    assert(index == 0);
                }
            }
            state.plants.insert(index, plant);
            proof {
                assert(state.plants@ =~= orig.plants);
            }
            if tree < (min_cost - dist) as i64 {
                out.push((index, tree + dist as i64));
                proof {
                    assert(out@[before.len() as int].0 == a.index);
                }
            }
        }
        proof {
            assert forall|i: int| 0 <= i < index + 1 implies #[trigger] ranked_or_cut(orig, reach, cap, out@, plant_action(orig, i), min_cost as int) by {
                if i < index {
                    assert(ranked_or_cut(orig, reach, cap, before, plant_action(orig, i), min_cost as int));
                    let n = next_world(orig, reach, cap, plant_action(orig, i));
                    let c = step_cost(orig.pos, reach, plant_action(orig, i).action);
                    if !(c + estimate_cap(n.pos, n.plants, reach) >= min_cost) {
                        let k = choose|k: int| 0 <= k < before.len() && (#[trigger] before[k]).0 == plant_action(orig, i).index
                            && before[k].1 <= c + estimate_cap(n.pos, n.plants, reach);
                        assert(out@[k] == before[k]);
                    }
                }
            }
        }
        index += 1;
    }
    if !force && time_is_up(start, limit) {
        return None;
    }
    let ghost unsorted = out@;
    let moved = sort_by_estimate(&mut out, Ghost(orig.plants.len() as int));
    proof {
        assert forall|i: int| 0 <= i < orig.plants.len() implies #[trigger] ranked_or_cut(orig, reach, cap, unsorted, candidate(orig, i, true), min_cost as int) by {
            assert(ranked_or_cut(orig, reach, cap, unsorted, plant_action(orig, i), min_cost as int));
        }
        lemma_sorted_keeps_ranked(orig, reach, cap, unsorted, out@, moved@, orig.plants.len() as int, min_cost as int, true);
        assert forall|i: int| 0 <= i < orig.plants.len() implies #[trigger] ranked_or_cut(orig, reach, cap, out@, plant_action(orig, i), min_cost as int) by {
            assert(ranked_or_cut(orig, reach, cap, out@, candidate(orig, i, true), min_cost as int));
        }
    }
    Some(out)
}

/// Candidate seeds with their estimated total cost, as for plants.
fn rank_seeds(
    input: &Input,
    state: &World,
    min_cost: i32,
    start: &Instant,
    limit: Duration,
    force: bool,
) -> (r: Option<Vec<(usize, i64)>>)
    requires
        world_ok(state@, input),
    ensures
        force ==> r.is_some(),
        r matches Some(v) ==> forall|i: int| 0 <= i < v@.len() ==> (#[trigger] v@[i]).0 < state@.seeds.len(),
        r matches Some(v) ==> forall|i: int| 0 <= i < state@.seeds.len() ==> #[trigger] ranked_or_cut(
            state@,
            input.range as int,
            input.seed_capacity as int,
            v@,
            seed_action(state@, i),
            min_cost as int,
        ),
        r matches Some(v) ==> forall|i: int, j: int| 0 <= i < j < v@.len() ==> v@[i].1 <= v@[j].1,
{
    let ghost w = state@;
    let ghost reach = input.range as int;
    let ghost cap = input.seed_capacity as int;
    let pos = state.robot_pos;
    let mut out: Vec<(usize, i64)> = Vec::new();
    let mut index: usize = 0;
    while index < state.seeds.len()
        invariant
            world_ok(state@, input),
            w == state@,
            pos == state.robot_pos,
            index <= w.seeds.len(),
            reach == input.range,
            cap == input.seed_capacity,
            forall|i: int| 0 <= i < out@.len() ==> (#[trigger] out@[i]).0 < state@.seeds.len(),
            forall|i: int| 0 <= i < index ==> #[trigger] ranked_or_cut(w, reach, cap, out@, seed_action(w, i), min_cost as int),
        decreases state.seeds@.len() - index,
    {
        if !force && time_is_up(start, limit) {
            return None;
        }
        let seed = state.seeds[index];
        let (new_pos, dist) = pos.apply_seed(seed);
        let ghost a = seed_action(w, index as int);
        let ghost before = out@;
        proof {
            lemma_max_plant_cost(new_pos, w.plants, reach);
            assert(next_world(w, reach, cap, a).pos == new_pos);
            assert(next_world(w, reach, cap, a).plants == w.plants);
        }
        if dist < min_cost {
            let tree = prim2(input, new_pos, state.plants.as_slice());
            if tree < (min_cost - dist) as i64 {
                out.push((index, tree + dist as i64));
                proof {
                    assert(out@[before.len() as int].0 == a.index);
                }
            }
        }
        proof {
            assert forall|i: int| 0 <= i < index + 1 implies #[trigger] ranked_or_cut(w, reach, cap, out@, seed_action(w, i), min_cost as int) by {
                if i < index {
                    assert(ranked_or_cut(w, reach, cap, before, seed_action(w, i), min_cost as int));
                    let n = next_world(w, reach, cap, seed_action(w, i));
                    let c = step_cost(w.pos, reach, seed_action(w, i).action);
                    if !(c + estimate_cap(n.pos, n.plants, reach) >= min_cost) {
                        let k = choose|k: int| 0 <= k < before.len() && (#[trigger] before[k]).0 == seed_action(w, i).index
                            && before[k].1 <= c + estimate_cap(n.pos, n.plants, reach);
                        assert(out@[k] == before[k]);
                    }
                }
            }
        }
        index += 1;
    }
    if !force && time_is_up(start, limit) {
        return None;
    }
    let ghost unsorted = out@;
    let moved = sort_by_estimate(&mut out, Ghost(state@.seeds.len() as int));
    proof {
        assert forall|i: int| 0 <= i < w.seeds.len() implies #[trigger] ranked_or_cut(w, reach, cap, unsorted, candidate(w, i, false), min_cost as int) by {
            assert(ranked_or_cut(w, reach, cap, unsorted, seed_action(w, i), min_cost as int));
        }
        lemma_sorted_keeps_ranked(w, reach, cap, unsorted, out@, moved@, w.seeds.len() as int, min_cost as int, false);
        assert forall|i: int| 0 <= i < w.seeds.len() implies #[trigger] ranked_or_cut(w, reach, cap, out@, seed_action(w, i), min_cost as int) by {
            assert(ranked_or_cut(w, reach, cap, out@, candidate(w, i, false), min_cost as int));
        }
    }
    Some(out)
}

proof fn lemma_remove_in_bounds(s: Seq<[i32; 2]>, i: int)
    requires
        all_in_bounds(s),
        0 <= i < s.len(),
    ensures
        all_in_bounds(s.remove(i)),
{
    assert forall|k: int| 0 <= k < s.remove(i).len() implies in_bounds(pos_of(#[trigger] s.remove(i)[k])) by {
        if k < i {
            assert(s.remove(i)[k] == s[k]);
        } else {
            assert(s.remove(i)[k] == s[k + 1]);
        }
    }
}

/// The best candidate found so far is a truthful outcome, or there is none and
/// `min_cost` is still the ceiling.
pub open spec fn best_ok(
    w: WorldView,
    reach: int,
    cap: int,
    depth: int,
    max_cost: int,
    min_cost: i32,
    min_action: Option<MyAction>,
) -> bool {
    &&& min_cost <= max_cost
    &&& match min_action {
        None => min_cost == max_cost,
        Some(a) => found_sound(w, reach, cap, depth, max_cost, min_cost, a),
    }
}

/// After taking the legal `a` in `w`, a truthful outcome `child` of the rest of
/// the search gives a lookahead plan that starts with `a`.
proof fn lemma_extend(
    w: WorldView,
    reach: int,
    cap: int,
    depth: int,
    a: MyAction,
    child_depth: int,
    child_ceiling: int,
    child: Res,
)
    requires
        legal(w, cap, a),
        depth > 0,
        w.plants.len() > 0,
        child_depth == (if a.action.kind == ActionKind::Plant { depth - 1 } else { depth }),
        res_sound(next_world(w, reach, cap, a), reach, cap, child_depth, child_ceiling, child),
        !(child is NoSolution),
    ensures
        ({
            let cost = step_cost(w.pos, reach, a.action) + match child {
                Res::SolutionFound { cost, .. } => cost as int,
                _ => 0int,
            };
            exists|plan: Seq<MyAction>|
                #![trigger lookahead_plan(w, reach, cap, depth, plan)]
                plan.len() > 0 && plan[0] == a && lookahead_plan(w, reach, cap, depth, plan)
                    && run_cost(w, reach, cap, plan) == cost
        }),
{
    let nw = next_world(w, reach, cap, a);
    match child {
        Res::SolutionFound { cost, action } => {
            let rest = choose|plan: Seq<MyAction>|
                #![trigger lookahead_plan(nw, reach, cap, child_depth, plan)]
                plan.len() > 0 && plan[0] == action && lookahead_plan(nw, reach, cap, child_depth, plan)
                    && run_cost(nw, reach, cap, plan) == cost;
            lemma_prepend(w, reach, cap, a, rest);
            let plan = seq![a] + rest;
            assert(lookahead_plan(w, reach, cap, depth, plan));
        },
        _ => {
            let rest = Seq::<MyAction>::empty();
            lemma_prepend(w, reach, cap, a, rest);
            let plan = seq![a] + rest;
            assert(run_end(nw, reach, cap, rest) == nw);
            assert(lookahead_plan(w, reach, cap, depth, plan));
            assert(run_cost(w, reach, cap, plan) == step_cost(w.pos, reach, a.action));
        },
    }
}

/// The rule for reusing an entry found under the ceiling `bound` in a search
/// under `ceiling`: as it is under the same ceiling; under a looser one only a
/// found solution; under a tighter one a lack of solution, or a solution still
/// under it.
pub open spec fn reusable(bound: i32, ceiling: i32, res: Res) -> bool {
    if bound == ceiling {
        true
    } else if bound > ceiling {
        match res {
            Res::NoSolution => true,
            Res::SolutionFound { cost, .. } => cost < ceiling,
            Res::Solved => false,
        }
    } else {
        res is SolutionFound
    }
}

fn reuse_allowed(bound: i32, ceiling: i32, res: &Res) -> (r: bool)
    ensures
        r == reusable(bound, ceiling, *res),
{
    if bound == ceiling {
        true
    } else if bound > ceiling {
        match res {
            Res::NoSolution => true,
            Res::SolutionFound { cost, .. } => *cost < ceiling,
            Res::Solved => false,
        }
    } else {
        match res {
            Res::SolutionFound { .. } => true,
            _ => false,
        }
    }
}

/// An entry that is a truthful outcome under the ceiling it was computed with
/// stays truthful under any ceiling for which the reuse rule takes it.
pub proof fn lemma_reuse_sound(w: WorldView, reach: int, cap: int, depth: int, bound: i32, ceiling: i32, res: Res)
    requires
        res_sound(w, reach, cap, depth, bound as int, res),
        reusable(bound, ceiling, res),
    ensures
        res_sound(w, reach, cap, depth, ceiling as int, res),
{
    if res is NoSolution && bound != ceiling {
        lemma_cut_off_mono(w, reach, cap, depth, bound as int, ceiling as int);
    }
}

/// After trying the legal `a` with a child search under `old_min - c`, `a` is
/// handled under the best bound `new_min` found so far.
proof fn lemma_child_handled(
    w: WorldView,
    reach: int,
    cap: int,
    depth: int,
    a: MyAction,
    old_min: int,
    new_min: int,
    child: Res,
)
    requires
        legal(w, cap, a),
        new_min <= old_min,
        res_sound(
            next_world(w, reach, cap, a),
            reach,
            cap,
            child_depth(depth, a),
            old_min - step_cost(w.pos, reach, a.action),
            child,
        ),
        match child {
            Res::SolutionFound { cost, .. } => new_min <= step_cost(w.pos, reach, a.action) + cost,
            Res::Solved => new_min <= step_cost(w.pos, reach, a.action),
            Res::NoSolution => new_min == old_min,
        },
    ensures
        handled(w, reach, cap, depth, a, new_min),
{
    let n = next_world(w, reach, cap, a);
    let c = step_cost(w.pos, reach, a.action);
    reveal_with_fuel(cut_off, 2);
    match child {
        Res::SolutionFound { cost, .. } => {
            lemma_cut_off_mono(n, reach, cap, child_depth(depth, a), cost as int, new_min - c);
        },
        Res::NoSolution => {},
        Res::Solved => {},
    }
}

/// Every candidate of `n` (plants, or seeds) is handled under `bound`: those
/// tried before position `k` of `ranked` were, and the others are cut by their
/// estimate cap.
proof fn lemma_all_handled(
    w: WorldView,
    reach: int,
    cap: int,
    depth: int,
    ranked: Seq<(usize, i64)>,
    k: int,
    n: int,
    rank_bound: int,
    bound: int,
    plants: bool,
)
    requires
        0 <= k <= ranked.len(),
        n <= usize::MAX,
        bound <= rank_bound,
        forall|i: int, j: int| 0 <= i < j < ranked.len() ==> ranked[i].1 <= ranked[j].1,
        k >= ranked.len() || ranked[k].1 >= bound,
        forall|i: int| 0 <= i < n ==> #[trigger] ranked_or_cut(w, reach, cap, ranked,
            candidate(w, i, plants), rank_bound),
        forall|k2: int| 0 <= k2 < k ==> handled(w, reach, cap, depth,
            candidate(w, #[trigger] ranked[k2].0 as int, plants), bound),
    ensures
        forall|i: int| 0 <= i < n ==> #[trigger] handled(w, reach, cap, depth,
            candidate(w, i, plants), bound),
{
    assert forall|i: int| 0 <= i < n implies #[trigger] handled(w, reach, cap, depth,
        candidate(w, i, plants), bound) by {
        let a = candidate(w, i, plants);
        assert(ranked_or_cut(w, reach, cap, ranked, a, rank_bound));
        let nw = next_world(w, reach, cap, a);
        let c = step_cost(w.pos, reach, a.action);
        if !(c + estimate_cap(nw.pos, nw.plants, reach) >= rank_bound) {
            let k1 = choose|k1: int| 0 <= k1 < ranked.len() && (#[trigger] ranked[k1]).0 == a.index
                && ranked[k1].1 <= c + estimate_cap(nw.pos, nw.plants, reach);
            if k1 < k {
                assert(ranked[k1].0 as int == i);
                assert(handled(w, reach, cap, depth,
                    candidate(w, ranked[k1].0 as int, plants), bound));
            } else {
                assert(ranked[k1].1 >= ranked[k].1);
            }
        }
    }
}

proof fn lemma_plants_all_handled(
    w: WorldView,
    reach: int,
    cap: int,
    depth: int,
    ranked: Seq<(usize, i64)>,
    k: int,
    rank_bound: int,
    bound: int,
)
    requires
        0 <= k <= ranked.len(),
        w.plants.len() <= usize::MAX,
        bound <= rank_bound,
        forall|i: int, j: int| 0 <= i < j < ranked.len() ==> ranked[i].1 <= ranked[j].1,
        k >= ranked.len() || ranked[k].1 >= bound,
        forall|i: int| 0 <= i < w.plants.len() ==> #[trigger] ranked_or_cut(w, reach, cap, ranked, plant_action(w, i), rank_bound),
        forall|k2: int| 0 <= k2 < k ==> handled(w, reach, cap, depth, plant_action(w, #[trigger] ranked[k2].0 as int), bound),
    ensures
        forall|i: int| 0 <= i < w.plants.len() ==> #[trigger] handled(w, reach, cap, depth, plant_action(w, i), bound),
{
    assert forall|i: int| 0 <= i < w.plants.len() implies #[trigger] ranked_or_cut(w, reach, cap, ranked, candidate(w, i, true), rank_bound) by {
        assert(ranked_or_cut(w, reach, cap, ranked, plant_action(w, i), rank_bound));
    }
    assert forall|k2: int| 0 <= k2 < k implies handled(w, reach, cap, depth, candidate(w, #[trigger] ranked[k2].0 as int, true), bound) by {
        assert(handled(w, reach, cap, depth, plant_action(w, ranked[k2].0 as int), bound));
    }
    lemma_all_handled(w, reach, cap, depth, ranked, k, w.plants.len() as int, rank_bound, bound, true);
    assert forall|i: int| 0 <= i < w.plants.len() implies #[trigger] handled(w, reach, cap, depth, plant_action(w, i), bound) by {
        assert(handled(w, reach, cap, depth, candidate(w, i, true), bound));
    }
}

proof fn lemma_seeds_all_handled(
    w: WorldView,
    reach: int,
    cap: int,
    depth: int,
    ranked: Seq<(usize, i64)>,
    k: int,
    rank_bound: int,
    bound: int,
)
    requires
        0 <= k <= ranked.len(),
        w.seeds.len() <= usize::MAX,
        bound <= rank_bound,
        forall|i: int, j: int| 0 <= i < j < ranked.len() ==> ranked[i].1 <= ranked[j].1,
        k >= ranked.len() || ranked[k].1 >= bound,
        forall|i: int| 0 <= i < w.seeds.len() ==> #[trigger] ranked_or_cut(w, reach, cap, ranked, seed_action(w, i), rank_bound),
        forall|k2: int| 0 <= k2 < k ==> handled(w, reach, cap, depth, seed_action(w, #[trigger] ranked[k2].0 as int), bound),
    ensures
        forall|i: int| 0 <= i < w.seeds.len() ==> #[trigger] handled(w, reach, cap, depth, seed_action(w, i), bound),
{
    assert forall|i: int| 0 <= i < w.seeds.len() implies #[trigger] ranked_or_cut(w, reach, cap, ranked, candidate(w, i, false), rank_bound) by {
        assert(ranked_or_cut(w, reach, cap, ranked, seed_action(w, i), rank_bound));
    }
    assert forall|k2: int| 0 <= k2 < k implies handled(w, reach, cap, depth, candidate(w, #[trigger] ranked[k2].0 as int, false), bound) by {
        assert(handled(w, reach, cap, depth, seed_action(w, ranked[k2].0 as int), bound));
    }
    lemma_all_handled(w, reach, cap, depth, ranked, k, w.seeds.len() as int, rank_bound, bound, false);
    assert forall|i: int| 0 <= i < w.seeds.len() implies #[trigger] handled(w, reach, cap, depth, seed_action(w, i), bound) by {
        assert(handled(w, reach, cap, depth, candidate(w, i, false), bound));
    }
}

/// Bounded search: the best first action of a plan of `depth` plants (seed
/// collections not counted) from `state`, whose cost stays under `max_cost`.
/// Entries of `memo` are reused when their ceiling makes them valid under
/// `max_cost`. Unless `force_compute`, gives up (`None`) once `time_limit` has
/// passed since `start`. `state` is handed back as it came. A solution comes
/// with a legal lookahead plan of that cost, and every cheaper plan is cut by
/// the estimate (`cut_off`); no solution means every plan under the ceiling is
/// cut, and never that a last plant that fits is left.
#[verifier::rlimit(100)]
pub fn find_best_action(
    input: &Input,
    memo: &mut Transpositions,
    state: &mut World,
    max_cost: i32,
    start: &Instant,
    time_limit: Duration,
    depth: u32,
    force_compute: bool,
) -> (r: Option<Res>)
    requires
        world_ok(old(state)@, input),
        table_ok(*old(memo), input.range as int, input.seed_capacity as int),
    ensures
        final(state)@ == old(state)@,
        table_ok(*final(memo), input.range as int, input.seed_capacity as int),
        force_compute ==> r.is_some(),
        r matches Some(res) ==> res_sound(
            old(state)@,
            input.range as int,
            input.seed_capacity as int,
            depth as int,
            max_cost as int,
            res,
        ),
        (old(state)@.plants.len() == 0 || depth == 0) ==> r == Some(Res::Solved) && table_entries(*final(memo))
            == table_entries(*old(memo)),
    decreases old(state)@.plants.len() + old(state)@.seeds.len(),
{
    if state.plants.len() == 0 || depth == 0 {
        return Some(Res::Solved);
    }
    let ghost w = state@;
    let ghost reach = input.range as int;
    let ghost cap = input.seed_capacity as int;
    match memo.lookup(state, depth) {
        Some((bound, res)) => {
            proof {
                assert(table_entries(*memo).contains_key((w, depth as int)));
            }
            if reuse_allowed(bound, max_cost, &res) {
                proof {
                    lemma_reuse_sound(w, reach, cap, depth as int, bound, max_cost, res);
                }
                return Some(res);
            }
        },
        None => {},
    }
    let pos = state.robot_pos;
    let mut min_cost = max_cost;
    let mut min_action: Option<MyAction> = None;
    let ghost single = last_plant_fits(w, reach, max_cost as int);
    if state.seed_storage > 0 {
        let ranked = match rank_plants(input, state, min_cost, start, time_limit, force_compute) {
            Some(v) => v,
            None => {
                return None;
            },
        };
        let mut k: usize = 0;
        while k < ranked.len()
            invariant
                state@ == w,
                w == old(state)@,
                pos == w.pos,
                world_ok(w, input),
                w.plants.len() > 0,
                w.storage > 0,
                depth > 0,
                reach == input.range,
                cap == input.seed_capacity,
                table_ok(*memo, reach, cap),
                best_ok(w, reach, cap, depth as int, max_cost as int, min_cost, min_action),
                forall|i: int| 0 <= i < ranked@.len() ==> (#[trigger] ranked@[i]).0 < w.plants.len(),
                single == last_plant_fits(w, reach, max_cost as int),
                single ==> ranked@.len() == 1 && ranked@[0].0 == 0 && ranked@[0].1 == w.pos.plant_cost(
                    pos_of(w.plants[0]),
                    reach,
                ),
                single ==> (k == 0 || min_action is Some),
                k == 0 ==> min_action is None,
                k <= ranked@.len(),
                forall|i: int, j: int| 0 <= i < j < ranked@.len() ==> ranked@[i].1 <= ranked@[j].1,
                forall|i: int| 0 <= i < w.plants.len() ==> #[trigger] ranked_or_cut(w, reach, cap, ranked@, plant_action(w, i), max_cost as int),
                forall|k2: int| 0 <= k2 < k ==> handled(w, reach, cap, depth as int, plant_action(w, #[trigger] ranked@[k2].0 as int), min_cost as int),
            ensures
                single ==> min_action is Some,
                single == last_plant_fits(w, reach, max_cost as int),
                k >= ranked@.len() || ranked@[k as int].1 >= min_cost,
                k <= ranked@.len(),
                forall|k2: int| 0 <= k2 < k ==> handled(w, reach, cap, depth as int, plant_action(w, #[trigger] ranked@[k2].0 as int), min_cost as int),
            decreases ranked@.len() - k,
        {
            if !force_compute && time_is_up(start, time_limit) {
                return None;
            }
            let ghost old_min = min_cost;
            let (index, est) = ranked[k];
            proof {
                if single && k == 0 {
                    assert(est == w.pos.plant_cost(pos_of(w.plants[0]), reach));
                    assert(est < min_cost);
                }
            }
            if est >= min_cost as i64 {
                break;
            }
            let plant = state.plants[index];
            let (new_pos, dist) = pos.apply_plant(input, plant);
            let ghost a = MyAction { index, action: Action { pos: plant, kind: ActionKind::Plant } };
            if dist < min_cost {
                state.robot_pos = new_pos;
                state.seed_storage = state.seed_storage - 1;
                state.plants.remove(index);
                proof {
                    lemma_remove_in_bounds(w.plants, index as int);
                    assert(state@ == next_world(w, reach, cap, a));
                    assert(state.plants@.len() == w.plants.len() - 1);
                }
                let res = find_best_action(
                    input,
                    memo,
                    state,
                    min_cost - dist,
                    start,
                    time_limit,
                    depth - 1,
                    force_compute,
                );
                state.plants.insert(index, plant);
                state.seed_storage = state.seed_storage + 1;
                state.robot_pos = pos;
                proof {
                    assert(state.plants@ =~= w.plants);
                }
                match res {
                    None => {
                        return None;
                    },
                    Some(Res::NoSolution) => {
                        proof {
                            lemma_child_handled(w, reach, cap, depth as int, a, old_min as int, min_cost as int, Res::NoSolution);
                        }
                    },
                    Some(child) => {
                        let cost = match child {
                            Res::SolutionFound { cost: c, .. } => dist + c,
                            _ => dist,
                        };
                        if cost < min_cost {
                            proof {
                                lemma_extend(w, reach, cap, depth as int, a, depth - 1, (min_cost - dist) as int, child);
                            }
                            min_cost = cost;
                            min_action = Some(MyAction { index, action: Action { pos: plant, kind: ActionKind::Plant } });
                        }
                        proof {
                            lemma_child_handled(w, reach, cap, depth as int, a, old_min as int, min_cost as int, child);
                        }
                    },
                }
                proof {
                    assert(handled(w, reach, cap, depth as int, a, min_cost as int));
                }
            } else {
                proof {
                    lemma_max_plant_cost(new_pos, w.plants.remove(index as int), reach);
                }
            }
            proof {
                assert(plant_action(w, index as int) == MyAction { index, action: Action { pos: plant, kind: ActionKind::Plant } });
                assert forall|k2: int| 0 <= k2 < k + 1 implies handled(w, reach, cap, depth as int, plant_action(w, #[trigger] ranked@[k2].0 as int), min_cost as int) by {
                    if k2 < k {
                        lemma_handled_mono(w, reach, cap, depth as int, plant_action(w, ranked@[k2].0 as int), old_min as int, min_cost as int);
                    }
                }
            }
            k += 1;
        }
        proof {
            lemma_plants_all_handled(w, reach, cap, depth as int, ranked@, k as int, max_cost as int, min_cost as int);
        }
    } else {
        proof {
            assert forall|i: int| 0 <= i < w.plants.len() implies #[trigger] handled(w, reach, cap, depth as int, plant_action(w, i), min_cost as int) by {}
        }
    }
    if state.seed_storage < input.seed_capacity {
        let ghost rank_min = min_cost;
        let ranked = match rank_seeds(input, state, min_cost, start, time_limit, force_compute) {
            Some(v) => v,
            None => {
                return None;
            },
        };
        let mut k: usize = 0;
        while k < ranked.len()
            invariant
                state@ == w,
                w == old(state)@,
                pos == w.pos,
                world_ok(w, input),
                w.plants.len() > 0,
                w.storage < cap,
                depth > 0,
                reach == input.range,
                cap == input.seed_capacity,
                table_ok(*memo, reach, cap),
                best_ok(w, reach, cap, depth as int, max_cost as int, min_cost, min_action),
                forall|i: int| 0 <= i < ranked@.len() ==> (#[trigger] ranked@[i]).0 < w.seeds.len(),
                single ==> min_action is Some,
                single == last_plant_fits(w, reach, max_cost as int),
                k <= ranked@.len(),
                min_cost <= rank_min,
                forall|i: int, j: int| 0 <= i < j < ranked@.len() ==> ranked@[i].1 <= ranked@[j].1,
                forall|i: int| 0 <= i < w.seeds.len() ==> #[trigger] ranked_or_cut(w, reach, cap, ranked@, seed_action(w, i), rank_min as int),
                forall|k2: int| 0 <= k2 < k ==> handled(w, reach, cap, depth as int, seed_action(w, #[trigger] ranked@[k2].0 as int), min_cost as int),
                forall|i: int| 0 <= i < w.plants.len() ==> #[trigger] handled(w, reach, cap, depth as int, plant_action(w, i), min_cost as int),
            ensures
                k >= ranked@.len() || ranked@[k as int].1 >= min_cost,
                k <= ranked@.len(),
                min_cost <= rank_min,
                forall|k2: int| 0 <= k2 < k ==> handled(w, reach, cap, depth as int, seed_action(w, #[trigger] ranked@[k2].0 as int), min_cost as int),
                forall|i: int| 0 <= i < w.plants.len() ==> #[trigger] handled(w, reach, cap, depth as int, plant_action(w, i), min_cost as int),
            decreases ranked@.len() - k,
        {
            if !force_compute && time_is_up(start, time_limit) {
                return None;
            }
            let ghost old_min = min_cost;
            let (index, est) = ranked[k];
            if est >= min_cost as i64 {
                break;
            }
            let seed = state.seeds[index];
            let (new_pos, dist) = pos.apply_seed(seed);
            let ghost a = MyAction { index, action: Action { pos: seed, kind: ActionKind::Collect } };
            if dist < min_cost {
                let old_storage = state.seed_storage;
                state.robot_pos = new_pos;
                state.seed_storage = input.seed_capacity;
                state.seeds.remove(index);
                proof {
                    lemma_remove_in_bounds(w.seeds, index as int);
                    assert(state@ == next_world(w, reach, cap, a));
                }
                let res = find_best_action(
                    input,
                    memo,
                    state,
                    min_cost - dist,
                    start,
                    time_limit,
                    depth,
                    force_compute,
                );
                state.seeds.insert(index, seed);
                state.seed_storage = old_storage;
                state.robot_pos = pos;
                proof {
                    assert(state.seeds@ =~= w.seeds);
                }
                match res {
                    None => {
                        return None;
                    },
                    Some(Res::NoSolution) => {
                        proof {
                            lemma_child_handled(w, reach, cap, depth as int, a, old_min as int, min_cost as int, Res::NoSolution);
                        }
                    },
                    Some(child) => {
                        let cost = match child {
                            Res::SolutionFound { cost: c, .. } => dist + c,
                            _ => dist,
                        };
                        if cost < min_cost {
                            proof {
                                lemma_extend(w, reach, cap, depth as int, a, depth as int, (min_cost - dist) as int, child);
                            }
                            min_cost = cost;
                            min_action = Some(MyAction { index, action: Action { pos: seed, kind: ActionKind::Collect } });
                        }
                        proof {
                            lemma_child_handled(w, reach, cap, depth as int, a, old_min as int, min_cost as int, child);
                        }
                    },
                }
            } else {
                proof {
                    lemma_max_plant_cost(new_pos, w.plants, reach);
                }
            }
            proof {
                assert(seed_action(w, index as int) == a);
                assert(handled(w, reach, cap, depth as int, a, min_cost as int));
                assert forall|k2: int| 0 <= k2 < k + 1 implies handled(w, reach, cap, depth as int, seed_action(w, #[trigger] ranked@[k2].0 as int), min_cost as int) by {
                    if k2 < k {
                        lemma_handled_mono(w, reach, cap, depth as int, seed_action(w, ranked@[k2].0 as int), old_min as int, min_cost as int);
                    }
                }
                assert forall|i: int| 0 <= i < w.plants.len() implies #[trigger] handled(w, reach, cap, depth as int, plant_action(w, i), min_cost as int) by {
                    lemma_handled_mono(w, reach, cap, depth as int, plant_action(w, i), old_min as int, min_cost as int);
                }
            }
            k += 1;
        }
        proof {
            lemma_seeds_all_handled(w, reach, cap, depth as int, ranked@, k as int, rank_min as int, min_cost as int);
        }
    } else {
        proof {
            assert forall|i: int| 0 <= i < w.seeds.len() implies #[trigger] handled(w, reach, cap, depth as int, seed_action(w, i), min_cost as int) by {}
        }
    }
    proof {
        assert forall|a: MyAction| #[trigger] legal(w, cap, a) implies handled(w, reach, cap, depth as int, a, min_cost as int) by {
            if a.action.kind == ActionKind::Plant {
                assert(a == plant_action(w, a.index as int));
            } else {
                assert(a == seed_action(w, a.index as int));
            }
        }
        assert(cut_off(w, reach, cap, depth as int, min_cost as int));
    }
    let res = match min_action {
        Some(a) => Res::SolutionFound { cost: min_cost, action: a },
        None => Res::NoSolution,
    };
    memo.store(state, depth, (max_cost, res));
    proof {
        assert forall|key: (WorldView, int)| #[trigger] table_entries(*memo).contains_key(key) implies res_sound(
            key.0,
            reach,
            cap,
            key.1,
            table_entries(*memo)[key].0 as int,
            table_entries(*memo)[key].1,
        ) && !(table_entries(*memo)[key].1 is Solved) by {}
    }
    Some(res)
}

/// Anytime driver: runs the bounded search for depth 1, 2, ... up to the number
/// of plants left, sharing `memo`, until `time_limit` has passed, and returns
/// the outcome of the deepest search that completed. Depth 1 always completes.
pub fn find_best_action_time_limit(
    input: &Input,
    memo: &mut Transpositions,
    state: &mut World,
    max_cost: i32,
    time_limit: Duration,
) -> (r: Res)
    requires
        world_ok(old(state)@, input),
        table_ok(*old(memo), input.range as int, input.seed_capacity as int),
    ensures
        final(state)@ == old(state)@,
        table_ok(*final(memo), input.range as int, input.seed_capacity as int),
        exists|d: int|
            1 <= d <= max(1, old(state)@.plants.len() as int) && res_sound(
                old(state)@,
                input.range as int,
                input.seed_capacity as int,
                d,
                max_cost as int,
                r,
            ),
{
    let ghost w = state@;
    let start = Instant::now();
    let first = find_best_action(input, memo, state, max_cost, &start, time_limit, 1, true);
    let mut last = match first {
        Some(res) => res,
        None => Res::NoSolution,
    };
    let ghost mut last_depth: int = 1;
    let max_depth = state.plants.len() as u32;
    let mut d: u32 = 1;
    while d < max_depth
        invariant
            state@ == w,
            world_ok(w, input),
            table_ok(*memo, input.range as int, input.seed_capacity as int),
            1 <= last_depth <= max(1, max_depth as int),
            max_depth == w.plants.len(),
            res_sound(w, input.range as int, input.seed_capacity as int, last_depth, max_cost as int, last),
        decreases max_depth - d,
    {
        d += 1;
        match find_best_action(input, memo, state, max_cost, &start, time_limit, d, false) {
            Some(res) => {
                last = res;
                proof {
                    last_depth = d as int;
                }
            },
            None => {
                break;
            },
        }
    }
    last
}

/// The world at the start: at the origin, with a full storage, nothing done.
pub open spec fn initial_world(input: &Input) -> WorldView {
    WorldView {
        pos: QPos { robot_pos: [0, 0], range: 0 },
        storage: input.seed_capacity as int,
        seeds: input.seeds@,
        plants: input.plants@,
    }
}

pub open spec fn actions_of(plan: Seq<MyAction>) -> Seq<Action> {
    plan.map_values(|m: MyAction| m.action)
}

/// Each step costs nothing below zero, so neither does a plan.
pub proof fn lemma_run_cost_nonneg(w: WorldView, reach: int, cap: int, plan: Seq<MyAction>)
    ensures
        run_cost(w, reach, cap, plan) >= 0,
    decreases plan.len(),
{
    if plan.len() > 0 {
        lemma_run_cost_nonneg(next_world(w, reach, cap, plan[0]), reach, cap, plan.drop_first());
    }
}

/// Extending a plan by one legal action.
pub proof fn lemma_append(w: WorldView, reach: int, cap: int, plan: Seq<MyAction>, a: MyAction)
    requires
        run_legal(w, reach, cap, plan),
        legal(run_end(w, reach, cap, plan), cap, a),
    ensures
        run_legal(w, reach, cap, plan.push(a)),
        run_cost(w, reach, cap, plan.push(a)) == run_cost(w, reach, cap, plan) + step_cost(
            run_end(w, reach, cap, plan).pos,
            reach,
            a.action,
        ),
        run_end(w, reach, cap, plan.push(a)) == next_world(run_end(w, reach, cap, plan), reach, cap, a),
    decreases plan.len(),
{
    if plan.len() > 0 {
        assert(plan.push(a).drop_first() =~= plan.drop_first().push(a));
        assert(plan.push(a)[0] == plan[0]);
        lemma_append(next_world(w, reach, cap, plan[0]), reach, cap, plan.drop_first(), a);
    } else {
        assert(plan.push(a).drop_first() =~= plan);
        assert(plan.push(a)[0] == a);
        let nw = next_world(w, reach, cap, a);
        assert(run_legal(nw, reach, cap, plan));
        assert(run_cost(nw, reach, cap, plan) == 0);
        assert(run_end(nw, reach, cap, plan) == nw);
    }
}

fn copy_positions(v: &Vec<[i32; 2]>) -> (r: Vec<[i32; 2]>)
    ensures
        r@ == v@,
{
    let mut r: Vec<[i32; 2]> = Vec::new();
    let mut i: usize = 0;
    while i < v.len()
        invariant
            i <= v@.len(),
            r@ == v@.subrange(0, i as int),
        decreases v@.len() - i,
    {
        r.push(v[i]);
        i += 1;
        proof {
            assert(r@ =~= v@.subrange(0, i as int));
        }
    }
    proof {
        assert(r@ =~= v@);
    }
    r
}

/// Planning stops in `w` with at most `bound` left to travel: no last plant
/// fits, and at some lookahead depth every plan under `bound` is cut.
pub open spec fn stuck(w: WorldView, reach: int, cap: int, bound: int) -> bool {
    &&& !last_plant_fits(w, reach, bound)
    &&& exists|d: int| 1 <= d && #[trigger] cut_off(w, reach, cap, d, bound)
}

/// Takes the legal `action` in `state`: moves the agent, uses or refills the
/// seed storage, and removes the target. Returns the distance travelled.
pub fn take_action(input: &Input, state: &mut World, action: &MyAction) -> (dist: i32)
    requires
        world_ok(old(state)@, input),
        legal(old(state)@, input.seed_capacity as int, *action),
    ensures
        final(state)@ == next_world(old(state)@, input.range as int, input.seed_capacity as int, *action),
        dist == step_cost(old(state)@.pos, input.range as int, action.action),
        0 <= dist <= 4 * COORD_LIMIT,
        world_ok(final(state)@, input),
{
    let ghost w = state@;
    proof {
        assert(in_bounds(pos_of(action.action.pos))) by {
            if action.action.kind == ActionKind::Plant {
                assert(in_bounds(pos_of(w.plants[action.index as int])));
            } else {
                assert(in_bounds(pos_of(w.seeds[action.index as int])));
            }
        }
        lemma_cost_bound(w.pos, pos_of(action.action.pos), input.range as int);
    }
    let (new_pos, dist) = state.robot_pos.apply_action(input, &action.action);
    state.robot_pos = new_pos;
    match action.action.kind {
        ActionKind::Plant => {
            state.seed_storage = state.seed_storage - 1;
            state.plants.remove(action.index);
            proof {
                lemma_remove_in_bounds(w.plants, action.index as int);
            }
        },
        ActionKind::Collect => {
            state.seed_storage = input.seed_capacity;
            state.seeds.remove(action.index);
            proof {
                lemma_remove_in_bounds(w.seeds, action.index as int);
            }
        },
    }
    dist
}

/// Plans a route: from the origin with a full storage, repeatedly asks the
/// anytime driver for the next action (giving it `time_per_action`) and takes
/// it, until no plant is left or no action is found. The ceiling is the budget
/// left while some plan fits it; once none does, planning goes on beyond the
/// budget (bounded only by `i32`), for `resolve` to cut the route at the
/// budget. Returns the actions taken and the distance travelled; the actions
/// form a legal plan, and a last plant that still fits is never left behind.
pub fn plan_route(input: &Input, time_per_action: Duration) -> (r: (Vec<Action>, i32))
    requires
        input.wf(),
        input.plants@.len() <= u32::MAX,
        input.seeds@.len() <= u32::MAX,
    ensures
        exists|plan: Seq<MyAction>|
            #![trigger run_legal(initial_world(input), input.range as int, input.seed_capacity as int, plan)]
            run_legal(initial_world(input), input.range as int, input.seed_capacity as int, plan)
                && r.0@ == actions_of(plan)
                && r.1 == run_cost(initial_world(input), input.range as int, input.seed_capacity as int, plan)
                && (run_end(initial_world(input), input.range as int, input.seed_capacity as int, plan).plants.len() == 0
                    || stuck(
                    run_end(initial_world(input), input.range as int, input.seed_capacity as int, plan),
                    input.range as int,
                    input.seed_capacity as int,
                    i32::MAX - r.1,
                )),
        0 <= r.1 < i32::MAX,
{
    let ghost reach = input.range as int;
    let ghost cap = input.seed_capacity as int;
    let ghost init = initial_world(input);
    let mut state = World {
        robot_pos: QPos::default(),
        seed_storage: input.seed_capacity,
        seeds: copy_positions(&input.seeds),
        plants: copy_positions(&input.plants),
    };
    proof {
        assert(state@ == init);
    }
    let mut distance_traveled: i32 = 0;
    let mut actions: Vec<Action> = Vec::new();
    let mut memo = Transpositions::new();
    let ghost mut plan: Seq<MyAction> = Seq::empty();
    let mut within_budget = true;
    proof {
        assert(actions@ =~= actions_of(plan));
    }
    while state.plants.len() > 0
        invariant
            input.wf(),
            reach == input.range,
            cap == input.seed_capacity,
            init == initial_world(input),
            world_ok(state@, input),
            table_ok(memo, reach, cap),
            run_legal(init, reach, cap, plan),
            state@ == run_end(init, reach, cap, plan),
            distance_traveled == run_cost(init, reach, cap, plan),
            0 <= distance_traveled < i32::MAX,
            within_budget ==> distance_traveled <= input.max_distance,
            actions@ == actions_of(plan),
        ensures
            state@.plants.len() == 0 || stuck(state@, reach, cap, i32::MAX - distance_traveled),
        decreases state.plants@.len() + state.seeds@.len(), within_budget as int,
    {
        let max_dist = if within_budget {
            input.max_distance as i32 - distance_traveled + 1
        } else {
            i32::MAX - distance_traveled
        };
        let res = find_best_action_time_limit(input, &mut memo, &mut state, max_dist, time_per_action);
        match res {
            Res::SolutionFound { cost, action } => {
                let ghost w = state@;
                proof {
                    let d = choose|d: int| 1 <= d && res_sound(w, reach, cap, d, max_dist as int, res);
                    let p = choose|p: Seq<MyAction>|
                        #![trigger lookahead_plan(w, reach, cap, d, p)]
                        p.len() > 0 && p[0] == action && lookahead_plan(w, reach, cap, d, p)
                            && run_cost(w, reach, cap, p) == cost;
                    lemma_run_cost_nonneg(next_world(w, reach, cap, action), reach, cap, p.drop_first());
                    assert(legal(w, cap, action));
                }
                let dist = take_action(input, &mut state, &action);
                distance_traveled = distance_traveled + dist;
                actions.push(action.action);
                proof {
                    lemma_append(init, reach, cap, plan, action);
                    plan = plan.push(action);
                    assert(actions@ =~= actions_of(plan));
                    assert(state@ == next_world(w, reach, cap, action));
                }
            },
            _ => {
                if within_budget {
                    within_budget = false;
                } else {
                    proof {
                        let d = choose|d: int| 1 <= d && res_sound(state@, reach, cap, d, max_dist as int, res);
                    }
                    break;
                }
            },
        }
    }
    (actions, distance_traveled)
}

/// Along a legal plan the seed storage never drops below zero nor rises above
/// the capacity: this holds after every prefix of the plan.
pub proof fn lemma_storage_within_capacity(w: WorldView, reach: int, cap: int, plan: Seq<MyAction>)
    requires
        run_legal(w, reach, cap, plan),
        0 <= w.storage <= cap,
    ensures
        forall|k: int|
            0 <= k <= plan.len() ==> 0 <= #[trigger] run_end(w, reach, cap, plan.take(k)).storage <= cap,
    decreases plan.len(),
{
    assert forall|k: int| 0 <= k <= plan.len() implies 0 <= #[trigger] run_end(w, reach, cap, plan.take(k)).storage
        <= cap by {
        if k > 0 {
            let nw = next_world(w, reach, cap, plan[0]);
            lemma_storage_within_capacity(nw, reach, cap, plan.drop_first());
            assert(plan.take(k).drop_first() =~= plan.drop_first().take(k - 1));
            assert(plan.take(k)[0] == plan[0]);
            assert(run_end(w, reach, cap, plan.take(k)) == run_end(nw, reach, cap, plan.drop_first().take(k - 1)));
        } else {
            assert(plan.take(0).len() == 0);
        }
    }
}

} // verus!
