use std::collections::HashSet;

use vstd::prelude::*;

use crate::io::Input;
use crate::quantum::{lemma_cost_bound, max, plant_state, QPos};
use crate::{in_bounds, pos_of, COORD_LIMIT};

verus! {

pub open spec fn all_in_bounds(ps: Seq<[i32; 2]>) -> bool {
    forall|i: int| 0 <= i < ps.len() ==> in_bounds(pos_of(#[trigger] ps[i]))
}

/// Cost of the `k`-th edge of a tree: from the node `parents[k]` to the plant `order[k]`.
pub open spec fn edge_cost(
    plants: Seq<[i32; 2]>,
    reach: int,
    order: Seq<int>,
    parents: Seq<int>,
    nodes: Seq<QPos>,
    k: int,
) -> int {
    nodes[parents[k]].plant_cost(pos_of(plants[order[k]]), reach)
}

/// Sum of the costs of the first `k` edges.
pub open spec fn tree_weight(
    plants: Seq<[i32; 2]>,
    reach: int,
    order: Seq<int>,
    parents: Seq<int>,
    nodes: Seq<QPos>,
    k: int,
) -> int
    decreases k,
{
    if k <= 0 {
        0
    } else {
        tree_weight(plants, reach, order, parents, nodes, k - 1) + edge_cost(plants, reach, order, parents, nodes, k - 1)
    }
}

/// `order[k]` was attached before step `k2`.
pub open spec fn attached_before(order: Seq<int>, k2: int, j: int) -> bool {
    exists|k: int| 0 <= k < k2 && order[k] == j
}

/// The first `k` steps of Prim's algorithm from `pos` over `plants`: node `i + 1`
/// is the state reached by planting `order[i]` from node `parents[i]`, every
/// plant is attached at most once, and each step takes an edge of least cost
/// from any node so far to any plant not yet attached.
pub open spec fn prim_steps(
    pos: QPos,
    plants: Seq<[i32; 2]>,
    reach: int,
    order: Seq<int>,
    parents: Seq<int>,
    nodes: Seq<QPos>,
    k: int,
) -> bool {
    &&& 0 <= k <= plants.len()
    &&& order.len() == k
    &&& parents.len() == k
    &&& nodes.len() == k + 1
    &&& nodes[0] == pos
    &&& forall|i: int| 0 <= i < k ==> 0 <= #[trigger] parents[i] <= i
    &&& forall|i: int| 0 <= i < k ==> 0 <= #[trigger] order[i] < plants.len()
    &&& forall|i1: int, i2: int| 0 <= i1 < i2 < k ==> order[i1] != order[i2]
    &&& forall|i: int| 0 <= i < k ==> #[trigger] nodes[i + 1] == plant_state(
        nodes[parents[i]],
        pos_of(plants[order[i]]),
        reach,
    )
    &&& forall|i: int, m: int, j: int|
        #![trigger edge_cost(plants, reach, order, parents, nodes, i), nodes[m].plant_cost(pos_of(plants[j]), reach)]
        0 <= i < k && 0 <= m <= i && 0 <= j < plants.len() && !attached_before(order, i, j)
            ==> edge_cost(plants, reach, order, parents, nodes, i) <= nodes[m].plant_cost(pos_of(plants[j]), reach)
}

/// The largest cost of planting one of `ps` from `s`.
pub open spec fn max_plant_cost(s: QPos, ps: Seq<[i32; 2]>, reach: int) -> int
    decreases ps.len(),
{
    if ps.len() == 0 {
        0
    } else {
        max(s.plant_cost(pos_of(ps.last()), reach), max_plant_cost(s, ps.drop_last(), reach))
    }
}

/// An upper bound of the spanning-tree estimate from `s` over `ps`: as many
/// times the costliest single plant as there are plants.
pub open spec fn estimate_cap(s: QPos, ps: Seq<[i32; 2]>, reach: int) -> int {
    ps.len() * max_plant_cost(s, ps, reach)
}

pub proof fn lemma_max_plant_cost(s: QPos, ps: Seq<[i32; 2]>, reach: int)
    ensures
        max_plant_cost(s, ps, reach) >= 0,
        forall|j: int| 0 <= j < ps.len() ==> #[trigger] s.plant_cost(pos_of(ps[j]), reach) <= max_plant_cost(s, ps, reach),
        estimate_cap(s, ps, reach) >= 0,
    decreases ps.len(),
{
    if ps.len() > 0 {
        lemma_max_plant_cost(s, ps.drop_last(), reach);
        assert forall|j: int| 0 <= j < ps.len() implies #[trigger] s.plant_cost(pos_of(ps[j]), reach) <= max_plant_cost(s, ps, reach) by {
            if j < ps.len() - 1 {
                assert(ps.drop_last()[j] == ps[j]);
            }
        }
    }
    let m = max_plant_cost(s, ps, reach);
    let n = ps.len() as int;
    assert(n * m >= 0) by (nonlinear_arith)
        requires n >= 0, m >= 0;
}

/// A greedy tree weighs at most as many times the costliest plant from the root.
proof fn lemma_tree_weight_cap(
    pos: QPos,
    plants: Seq<[i32; 2]>,
    reach: int,
    order: Seq<int>,
    parents: Seq<int>,
    nodes: Seq<QPos>,
    n: int,
    k: int,
)
    requires
        prim_steps(pos, plants, reach, order, parents, nodes, n),
        0 <= k <= n,
    ensures
        tree_weight(plants, reach, order, parents, nodes, k) <= k * max_plant_cost(pos, plants, reach),
    decreases k,
{
    let m = max_plant_cost(pos, plants, reach);
    if k > 0 {
        lemma_tree_weight_cap(pos, plants, reach, order, parents, nodes, n, k - 1);
        lemma_max_plant_cost(pos, plants, reach);
        let j = order[k - 1];
        assert(!attached_before(order, k - 1, j)) by {
            if attached_before(order, k - 1, j) {
                let q = choose|q: int| 0 <= q < k - 1 && order[q] == j;
                assert(order[q] != order[k - 1]);
            }
        }
        assert(edge_cost(plants, reach, order, parents, nodes, k - 1) <= nodes[0].plant_cost(pos_of(plants[j]), reach));
        assert((k - 1) * m + m == k * m) by (nonlinear_arith);
    }
}

/// Lower bound of the remaining cost: the weight of a spanning tree grown by
/// Prim's algorithm from `pos` over all `plants`, with planting costs as edges.
pub fn prim2(input: &Input, pos: QPos, plants: &[[i32; 2]]) -> (r: i64)
    requires
        input.reach_ok(),
        pos.wf(),
        all_in_bounds(plants@),
        plants@.len() <= u32::MAX,
    ensures
        exists|order: Seq<int>, parents: Seq<int>, nodes: Seq<QPos>|
            prim_steps(pos, plants@, input.range as int, order, parents, nodes, plants@.len() as int)
                && r == tree_weight(plants@, input.range as int, order, parents, nodes, plants@.len() as int),
        0 <= r <= estimate_cap(pos, plants@, input.range as int),
{
    let ghost reach = input.range as int;
    let ghost ps = plants@;
    proof {
        lemma_max_plant_cost(pos, plants@, reach);
    }
    let n = plants.len();
    if n == 0 {
        proof {
            let order = Seq::<int>::empty();
            let parents = Seq::<int>::empty();
            let nodes = seq![pos];
            assert(prim_steps(pos, ps, reach, order, parents, nodes, 0)
                && 0 == tree_weight(ps, reach, order, parents, nodes, 0));
        }
        return 0;
    }
    // (plant index, tree node index, cost from that node)
    let mut graph: Vec<(usize, usize, i64)> = Vec::new();
    let mut i: usize = 0;
    while i < n
        invariant
            i <= n,
            n == plants@.len(),
            ps == plants@,
            input.reach_ok(),
            reach == input.range,
            pos.wf(),
            all_in_bounds(ps),
            graph@.len() == i,
            forall|g: int| 0 <= g < i ==> {
                &&& (#[trigger] graph@[g]).0 == g
                &&& graph@[g].1 == 0
                &&& graph@[g].2 == pos.plant_cost(pos_of(ps[g]), reach)
            },
        decreases n - i,
    {
        let (_, dist) = pos.apply_plant(input, plants[i]);
        graph.push((i, 0, dist as i64));
        i += 1;
    }
    let mut tree: Vec<QPos> = Vec::new();
    tree.push(pos);
    let mut tree_dist: i64 = 0;
    let ghost mut order: Seq<int> = Seq::empty();
    let ghost mut parents: Seq<int> = Seq::empty();
    let mut step: usize = 0;
    proof {
        assert forall|j: int| 0 <= j < n && !#[trigger] attached_before(order, 0, j) implies
            exists|g: int| 0 <= g < graph@.len() && #[trigger] graph@[g].0 == j by {
            assert(graph@[j].0 == j);
        }
    }
    while step < n
        invariant
            step <= n,
            n == ps.len(),
            ps == plants@,
            input.reach_ok(),
            reach == input.range,
            n <= u32::MAX,
            all_in_bounds(ps),
            prim_steps(pos, ps, reach, order, parents, tree@, step as int),
            tree_dist == tree_weight(ps, reach, order, parents, tree@, step as int),
            0 <= tree_dist <= step * 4 * COORD_LIMIT,
            forall|m: int| 0 <= m < tree@.len() ==> (#[trigger] tree@[m]).wf(),
            graph@.len() == n - step,
            forall|g1: int, g2: int| 0 <= g1 < g2 < graph@.len() ==> graph@[g1].0 != graph@[g2].0,
            forall|g: int| 0 <= g < graph@.len() ==> {
                &&& (#[trigger] graph@[g]).0 < n
                &&& graph@[g].1 < tree@.len()
                &&& !attached_before(order, step as int, graph@[g].0 as int)
                &&& graph@[g].2 == tree@[graph@[g].1 as int].plant_cost(pos_of(ps[graph@[g].0 as int]), reach)
                &&& forall|m: int| 0 <= m < tree@.len() ==>
                    graph@[g].2 <= #[trigger] tree@[m].plant_cost(pos_of(ps[graph@[g].0 as int]), reach)
            },
            forall|j: int| 0 <= j < n && !#[trigger] attached_before(order, step as int, j) ==>
                exists|g: int| 0 <= g < graph@.len() && #[trigger] graph@[g].0 == j,
        decreases n - step,
    {
        // the cheapest edge from the tree to a plant not yet attached
        let mut best: usize = 0;
        let mut j: usize = 1;
        while j < graph.len()
            invariant
                graph@.len() == n - step,
                step < n,
                best < graph@.len(),
                1 <= j <= graph@.len(),
                forall|g: int| 0 <= g < j ==> graph@[best as int].2 <= #[trigger] graph@[g].2,
            decreases graph@.len() - j,
        {
            if graph[j].2 < graph[best].2 {
                best = j;
            }
            j += 1;
        }
        let (plant_index, tree_index, _) = graph[best];
        proof {
            lemma_cost_bound(tree@[tree_index as int], pos_of(ps[plant_index as int]), reach);
        }
        let (new_pos, new_dist) = tree[tree_index].apply_plant(input, plants[plant_index]);
        let ghost old_graph = graph@;
        let ghost old_tree = tree@;
        let ghost old_order = order;
        let ghost old_parents = parents;
        graph.swap_remove(best);
        proof {
            order = order.push(plant_index as int);
            parents = parents.push(tree_index as int);
            assert(step * 4 * COORD_LIMIT + 4 * COORD_LIMIT == (step + 1) * 4 * COORD_LIMIT) by (nonlinear_arith);
        }
        tree_dist = tree_dist + new_dist as i64;
        tree.push(new_pos);
        proof {
            assert forall|k: int| 0 <= k <= step implies tree_weight(ps, reach, order, parents, tree@, k)
                == tree_weight(ps, reach, old_order, old_parents, old_tree, k) by {
                lemma_tree_weight_prefix(ps, reach, old_order, old_parents, old_tree, order, parents, tree@, k);
            }
            assert(tree_weight(ps, reach, order, parents, tree@, step + 1)
                == tree_weight(ps, reach, old_order, old_parents, old_tree, step as int) + new_dist);
            assert forall|g1: int, g2: int| 0 <= g1 < g2 < graph@.len() implies graph@[g1].0 != graph@[g2].0 by {
                if g1 == best as int {
                    assert(graph@[g1] == old_graph[old_graph.len() - 1]);
                } else if g2 == best as int {
                    assert(graph@[g2] == old_graph[old_graph.len() - 1]);
                }
            }
            assert forall|g: int| 0 <= g < graph@.len() implies !attached_before(order, step + 1, #[trigger] graph@[g].0 as int) by {
                let og = if g == best as int { old_graph.len() - 1 } else { g };
                assert(graph@[g] == old_graph[og]);
                assert(og != best as int);
                if attached_before(order, step + 1, graph@[g].0 as int) {
                    let k = choose|k: int| 0 <= k < step + 1 && order[k] == graph@[g].0 as int;
                    if k < step {
                        assert(attached_before(old_order, step as int, graph@[g].0 as int));
                    }
                }
            }
            assert forall|jj: int| 0 <= jj < n && !#[trigger] attached_before(order, step + 1, jj) implies
                exists|g: int| 0 <= g < graph@.len() && #[trigger] graph@[g].0 == jj by {
                assert(!attached_before(old_order, step as int, jj)) by {
                    if attached_before(old_order, step as int, jj) {
                        let k = choose|k: int| 0 <= k < step && old_order[k] == jj;
                        assert(order[k] == jj);
                    }
                }
                assert(jj != plant_index) by {
                    assert(order[step as int] == plant_index);
                }
                let og = choose|g: int| 0 <= g < old_graph.len() && #[trigger] old_graph[g].0 == jj;
                if og == old_graph.len() - 1 {
                    assert(graph@[best as int].0 == jj);
                } else {
                    assert(graph@[og].0 == jj);
                }
            }
            assert forall|i: int, m: int, jj: int|
                #![trigger edge_cost(ps, reach, order, parents, tree@, i), tree@[m].plant_cost(pos_of(ps[jj]), reach)]
                0 <= i < step + 1 && 0 <= m <= i && 0 <= jj < n && !attached_before(order, i, jj)
                    implies edge_cost(ps, reach, order, parents, tree@, i) <= tree@[m].plant_cost(pos_of(ps[jj]), reach) by {
                if i < step {
                    assert(!attached_before(old_order, i, jj)) by {
                        if attached_before(old_order, i, jj) {
                            let k = choose|k: int| 0 <= k < i && old_order[k] == jj;
                            assert(order[k] == jj);
                        }
                    }
                    assert(edge_cost(ps, reach, order, parents, tree@, i) == edge_cost(ps, reach, old_order, old_parents, old_tree, i));
                } else {
                    assert(!attached_before(old_order, step as int, jj)) by {
                        if attached_before(old_order, step as int, jj) {
                            let k = choose|k: int| 0 <= k < step && old_order[k] == jj;
                            assert(order[k] == jj);
                        }
                    }
                    let og = choose|g: int| 0 <= g < old_graph.len() && #[trigger] old_graph[g].0 == jj;
                    assert(old_graph[best as int].2 <= old_graph[og].2);
                }
            }
            assert(prim_steps(pos, ps, reach, order, parents, tree@, step + 1));
        }
        // the new node may offer cheaper edges
        let ghost mid_graph = graph@;
        relax(input, &mut graph, &tree, plants);
        proof {
            assert forall|jj: int| 0 <= jj < n && !#[trigger] attached_before(order, step + 1, jj) implies
                exists|g: int| 0 <= g < graph@.len() && #[trigger] graph@[g].0 == jj by {
                let g = choose|g: int| 0 <= g < mid_graph.len() && #[trigger] mid_graph[g].0 == jj;
                assert(graph@[g].0 == jj);
            }
        }
        step += 1;
    }
    proof {
        lemma_tree_weight_cap(pos, ps, reach, order, parents, tree@, n as int, n as int);
    }
    tree_dist
}

/// Lowers each plant's best known edge to the cost from the newest tree node
/// where that is cheaper.
fn relax(input: &Input, graph: &mut Vec<(usize, usize, i64)>, tree: &Vec<QPos>, plants: &[[i32; 2]])
    requires
        input.reach_ok(),
        all_in_bounds(plants@),
        tree@.len() >= 1,
        forall|m: int| 0 <= m < tree@.len() ==> (#[trigger] tree@[m]).wf(),
        forall|g: int| 0 <= g < old(graph)@.len() ==> {
            &&& (#[trigger] old(graph)@[g]).0 < plants@.len()
            &&& old(graph)@[g].1 < tree@.len()
            &&& old(graph)@[g].2 == tree@[old(graph)@[g].1 as int].plant_cost(
                pos_of(plants@[old(graph)@[g].0 as int]),
                input.range as int,
            )
            &&& forall|m: int| 0 <= m < tree@.len() - 1 ==>
                old(graph)@[g].2 <= #[trigger] tree@[m].plant_cost(pos_of(plants@[old(graph)@[g].0 as int]), input.range as int)
        },
    ensures
        final(graph)@.len() == old(graph)@.len(),
        forall|g: int| 0 <= g < final(graph)@.len() ==> {
            &&& (#[trigger] final(graph)@[g]).0 == old(graph)@[g].0
            &&& final(graph)@[g].1 < tree@.len()
            &&& final(graph)@[g].2 == tree@[final(graph)@[g].1 as int].plant_cost(
                pos_of(plants@[final(graph)@[g].0 as int]),
                input.range as int,
            )
            &&& forall|m: int| 0 <= m < tree@.len() ==>
                final(graph)@[g].2 <= #[trigger] tree@[m].plant_cost(pos_of(plants@[final(graph)@[g].0 as int]), input.range as int)
        },
{
    let ghost reach = input.range as int;
    let ghost start = graph@;
    let new_index = tree.len() - 1;
    let new_pos = tree[new_index];
    let mut g: usize = 0;
    while g < graph.len()
        invariant
            input.reach_ok(),
            reach == input.range,
            all_in_bounds(plants@),
            new_pos.wf(),
            new_index == tree@.len() - 1,
            tree@[new_index as int] == new_pos,
            graph@.len() == start.len(),
            g <= graph@.len(),
            forall|gg: int| 0 <= gg < graph@.len() ==> {
                &&& (#[trigger] graph@[gg]).0 == start[gg].0
                &&& start[gg].0 < plants@.len()
                &&& graph@[gg].1 < tree@.len()
                &&& graph@[gg].2 == tree@[graph@[gg].1 as int].plant_cost(pos_of(plants@[graph@[gg].0 as int]), reach)
                &&& forall|m: int| 0 <= m < (if gg < g { tree@.len() as int } else { tree@.len() - 1 }) ==>
                    graph@[gg].2 <= #[trigger] tree@[m].plant_cost(pos_of(plants@[graph@[gg].0 as int]), reach)
            },
        decreases graph@.len() - g,
    {
        let (pi, _, d) = graph[g];
        let (_, nd) = new_pos.apply_plant(input, plants[pi]);
        if (nd as i64) < d {
            graph.set(g, (pi, new_index, nd as i64));
        }
        g += 1;
    }
}

/// `tree_weight` of the first `k` edges depends on the first `k` entries only.
proof fn lemma_tree_weight_prefix(
    plants: Seq<[i32; 2]>,
    reach: int,
    ord1: Seq<int>,
    par1: Seq<int>,
    nodes1: Seq<QPos>,
    ord2: Seq<int>,
    par2: Seq<int>,
    nodes2: Seq<QPos>,
    k: int,
)
    requires
        0 <= k <= ord1.len(),
        ord1.len() <= ord2.len(),
        par1.len() == ord1.len(),
        par1.len() <= par2.len(),
        nodes1.len() == ord1.len() + 1,
        nodes1.len() <= nodes2.len(),
        forall|i: int| 0 <= i < ord1.len() ==> ord1[i] == ord2[i] && par1[i] == par2[i],
        forall|i: int| 0 <= i < nodes1.len() ==> nodes1[i] == nodes2[i],
        forall|i: int| 0 <= i < par1.len() ==> 0 <= #[trigger] par1[i] <= i,
    ensures
        tree_weight(plants, reach, ord1, par1, nodes1, k) == tree_weight(plants, reach, ord2, par2, nodes2, k),
    decreases k,
{
    if k > 0 {
        lemma_tree_weight_prefix(plants, reach, ord1, par1, nodes1, ord2, par2, nodes2, k - 1);
    }
}

/// The plant of `graph` cheapest to plant from `pos`, with that cost; `None`
/// when `graph` is empty. Among equally cheap plants any may be chosen.
pub fn get_min(input: &Input, pos: QPos, graph: &HashSet<usize>, plants: &[[i32; 2]]) -> (r: Option<(usize, i32)>)
    requires
        input.reach_ok(),
        pos.wf(),
        all_in_bounds(plants@),
        forall|j: usize| graph@.contains(j) ==> j < plants@.len(),
    ensures
        graph@.len() == 0 <==> r.is_none(),
        r matches Some((i, d)) ==> {
            &&& graph@.contains(i)
            &&& d == pos.plant_cost(pos_of(plants@[i as int]), input.range as int)
            &&& forall|j: usize| #[trigger] graph@.contains(j) ==> d <= pos.plant_cost(
                pos_of(plants@[j as int]),
                input.range as int,
            )
        },
{
    broadcast use vstd::std_specs::hash::group_hash_axioms;
    let mut best: Option<(usize, i32)> = None;
    for index in it: graph.iter()
        invariant
            input.reach_ok(),
            pos.wf(),
            all_in_bounds(plants@),
            forall|j: usize| graph@.contains(j) ==> j < plants@.len(),
            it.seq().len() == graph@.len(),
            it.seq().unref().to_set() == graph@,
            best.is_none() <==> it.index() == 0,
            best matches Some((i, d)) ==> {
                &&& graph@.contains(i)
                &&& d == pos.plant_cost(pos_of(plants@[i as int]), input.range as int)
                &&& forall|k: int| 0 <= k < it.index() ==> d <= pos.plant_cost(
                    pos_of(plants@[#[trigger] it.seq().unref()[k] as int]),
                    input.range as int,
                )
            },
            it.index() == it.seq().len() ==> forall|j: usize| #[trigger] graph@.contains(j) ==> (best matches Some(
                (i, d),
            ) && d <= pos.plant_cost(pos_of(plants@[j as int]), input.range as int)),
    {
        proof {
            assert(it.seq().unref()[it.index()] == *index);
            assert(it.seq().unref().contains(*index));
            assert(graph@.contains(*index));
        }
        let (_, dist) = pos.apply_plant(input, plants[*index]);
        best = match best {
            Some((i, d)) => if dist < d { Some((*index, dist)) } else { Some((i, d)) },
            None => Some((*index, dist)),
        };
        proof {
            assert forall|j: usize| it.index() + 1 == it.seq().len() && #[trigger] graph@.contains(j) implies (
            best matches Some((i, d)) && d <= pos.plant_cost(pos_of(plants@[j as int]), input.range as int)) by {
                assert(it.seq().unref().to_set().contains(j));
                assert(exists|k: int| 0 <= k <= it.index() && it.seq().unref()[k] == j);
            }
        }
    }
    best
}

/// The tree built so far: the nodes' states, each with its cheapest plant not
/// yet attached and that cost.
pub open spec fn tree_nodes(tree: Seq<(QPos, (usize, i32))>) -> Seq<QPos> {
    tree.map_values(|e: (QPos, (usize, i32))| e.0)
}

/// `e` names a plant of `graph` of least cost from its node, with that cost.
pub open spec fn entry_ok(e: (QPos, (usize, i32)), graph: Set<usize>, plants: Seq<[i32; 2]>, reach: int) -> bool {
    &&& graph.contains(e.1.0)
    &&& e.1.1 == e.0.plant_cost(pos_of(plants[e.1.0 as int]), reach)
    &&& forall|j: usize| #[trigger] graph.contains(j) ==> e.1.1 <= e.0.plant_cost(pos_of(plants[j as int]), reach)
}

pub open spec fn candidates_ok(
    tree: Seq<(QPos, (usize, i32))>,
    graph: Set<usize>,
    plants: Seq<[i32; 2]>,
    reach: int,
) -> bool {
    forall|e: int| 0 <= e < tree.len() ==> entry_ok(#[trigger] tree[e], graph, plants, reach)
}

/// The unattached plants after attaching `plant` at step `k`.
proof fn lemma_graph_after_remove(
    old_graph: Set<usize>,
    new_graph: Set<usize>,
    order: Seq<int>,
    k: int,
    plant: usize,
    n: int,
)
    requires
        order.len() == k,
        forall|j: usize| #[trigger] old_graph.contains(j) <==> (j < n && !attached_before(order, k, j as int)),
        new_graph == old_graph.remove(plant),
        old_graph.contains(plant),
    ensures
        forall|j: usize| #[trigger] new_graph.contains(j) <==> (j < n && !attached_before(order.push(plant as int), k + 1, j as int)),
{
    let ord2 = order.push(plant as int);
    assert forall|j: usize| #[trigger] new_graph.contains(j) <==> (j < n && !attached_before(ord2, k + 1, j as int)) by {
        if j == plant {
            assert(ord2[k] == plant as int);
        }
        if attached_before(ord2, k + 1, j as int) {
            let q = choose|q: int| 0 <= q < k + 1 && ord2[q] == j as int;
            if q < k {
                assert(order[q] == j as int);
                assert(attached_before(order, k, j as int));
            }
        }
        if attached_before(order, k, j as int) {
            let q = choose|q: int| 0 <= q < k && order[q] == j as int;
            assert(ord2[q] == j as int);
        }
    }
}

/// One more step of Prim's algorithm: attaching `plant` from node `parent` at
/// a least cost keeps `prim_steps`, and adds that cost to the weight.
proof fn lemma_prim_step(
    pos: QPos,
    plants: Seq<[i32; 2]>,
    reach: int,
    order: Seq<int>,
    parents: Seq<int>,
    nodes: Seq<QPos>,
    k: int,
    parent: int,
    plant: int,
    new_node: QPos,
    new_nodes: Seq<QPos>,
)
    requires
        prim_steps(pos, plants, reach, order, parents, nodes, k),
        k < plants.len(),
        0 <= parent <= k,
        0 <= plant < plants.len(),
        !attached_before(order, k, plant),
        new_node == plant_state(nodes[parent], pos_of(plants[plant]), reach),
        new_nodes == nodes.push(new_node),
        forall|m: int, j: int|
            0 <= m <= k && 0 <= j < plants.len() && !attached_before(order, k, j) ==> #[trigger] nodes[m].plant_cost(
                pos_of(plants[j]),
                reach,
            ) >= nodes[parent].plant_cost(pos_of(plants[plant]), reach),
    ensures
        prim_steps(pos, plants, reach, order.push(plant), parents.push(parent), new_nodes, k + 1),
        tree_weight(plants, reach, order.push(plant), parents.push(parent), new_nodes, k + 1)
            == tree_weight(plants, reach, order, parents, nodes, k) + nodes[parent].plant_cost(pos_of(plants[plant]), reach),
{
    let ord2 = order.push(plant);
    let par2 = parents.push(parent);
    lemma_tree_weight_prefix(plants, reach, order, parents, nodes, ord2, par2, new_nodes, k);
    assert forall|i1: int, i2: int| 0 <= i1 < i2 < k + 1 implies ord2[i1] != ord2[i2] by {
        if i2 == k {
            assert(!attached_before(order, k, plant));
            if ord2[i1] == ord2[i2] {
                assert(order[i1] == plant);
            }
        }
    }
    assert forall|i: int, m: int, j: int|
        #![trigger edge_cost(plants, reach, ord2, par2, new_nodes, i), new_nodes[m].plant_cost(pos_of(plants[j]), reach)]
        0 <= i < k + 1 && 0 <= m <= i && 0 <= j < plants.len() && !attached_before(ord2, i, j) implies edge_cost(
        plants,
        reach,
        ord2,
        par2,
        new_nodes,
        i,
    ) <= new_nodes[m].plant_cost(pos_of(plants[j]), reach) by {
        assert(!attached_before(order, i, j)) by {
            if attached_before(order, i, j) {
                let q = choose|q: int| 0 <= q < i && order[q] == j;
                assert(ord2[q] == j);
            }
        }
        assert(new_nodes[m] == nodes[m]);
        if i < k {
            assert(edge_cost(plants, reach, ord2, par2, new_nodes, i) == edge_cost(plants, reach, order, parents, nodes, i));
        } else {
            assert(edge_cost(plants, reach, ord2, par2, new_nodes, i) == nodes[parent].plant_cost(pos_of(plants[plant]), reach));
        }
    }
}

/// Index of an entry with the least candidate cost (the first such).
fn cheapest_entry(tree: &Vec<(QPos, (usize, i32))>) -> (b: usize)
    requires
        tree@.len() >= 1,
    ensures
        b < tree@.len(),
        forall|x: int| 0 <= x < tree@.len() ==> tree@[b as int].1.1 <= #[trigger] tree@[x].1.1,
{
    let mut b: usize = 0;
    let mut e: usize = 1;
    while e < tree.len()
        invariant
            b < tree@.len(),
            1 <= e <= tree@.len(),
            forall|x: int| 0 <= x < e ==> tree@[b as int].1.1 <= #[trigger] tree@[x].1.1,
        decreases tree@.len() - e,
    {
        if tree[e].1.1 < tree[b].1.1 {
            b = e;
        }
        e += 1;
    }
    b
}

/// After `removed` left the set, renews the candidates that named it.
fn renew_candidates(
    input: &Input,
    tree: &mut Vec<(QPos, (usize, i32))>,
    graph: &HashSet<usize>,
    plants: &[[i32; 2]],
    removed: usize,
    Ghost(old_graph): Ghost<Set<usize>>,
)
    requires
        input.reach_ok(),
        all_in_bounds(plants@),
        graph@.len() > 0,
        forall|j: usize| graph@.contains(j) ==> j < plants@.len(),
        graph@ == old_graph.remove(removed),
        forall|x: int| 0 <= x < old(tree)@.len() ==> (#[trigger] old(tree)@[x]).0.wf(),
        candidates_ok(old(tree)@, old_graph, plants@, input.range as int),
    ensures
        final(tree)@.len() == old(tree)@.len(),
        forall|x: int| 0 <= x < final(tree)@.len() ==> (#[trigger] final(tree)@[x]).0 == old(tree)@[x].0,
        candidates_ok(final(tree)@, graph@, plants@, input.range as int),
{
    let ghost reach = input.range as int;
    let ghost mid_tree = tree@;
    let mut k: usize = 0;
    while k < tree.len()
        invariant
            input.reach_ok(),
            reach == input.range,
            all_in_bounds(plants@),
            graph@.len() > 0,
            forall|j: usize| graph@.contains(j) ==> j < plants@.len(),
            graph@ == old_graph.remove(removed),
            tree@.len() == mid_tree.len(),
            forall|x: int| 0 <= x < tree@.len() ==> (#[trigger] tree@[x]).0 == mid_tree[x].0,
            forall|x: int| 0 <= x < tree@.len() ==> (#[trigger] tree@[x]).0.wf(),
            candidates_ok(mid_tree, old_graph, plants@, reach),
            forall|x: int| 0 <= x < k ==> entry_ok(#[trigger] tree@[x], graph@, plants@, reach),
            forall|x: int| k <= x < tree@.len() ==> #[trigger] tree@[x] == mid_tree[x],
        decreases tree@.len() - k,
    {
        if tree[k].1.0 == removed {
            let node = tree[k].0;
            let cand = get_min(input, node, graph, plants);
            if let Some(c) = cand {
                tree.set(k, (node, c));
            }
        } else {
            proof {
                assert(entry_ok(mid_tree[k as int], old_graph, plants@, reach));
            }
        }
        k += 1;
    }
}

/// The entry with the least candidate cost names a cheapest edge from any
/// node to any plant not yet attached.
proof fn lemma_cheapest_edge(
    tree: Seq<(QPos, (usize, i32))>,
    graph: Set<usize>,
    ps: Seq<[i32; 2]>,
    reach: int,
    order: Seq<int>,
    step: int,
    b: int,
    n: int,
)
    requires
        tree.len() == step + 1,
        n == ps.len(),
        n <= u32::MAX,
        0 <= b < tree.len(),
        forall|x: int| 0 <= x < tree.len() ==> tree[b].1.1 <= #[trigger] tree[x].1.1,
        candidates_ok(tree, graph, ps, reach),
        forall|j: usize| #[trigger] graph.contains(j) <==> (j < n && !attached_before(order, step, j as int)),
    ensures
        forall|m: int, j: int|
            0 <= m <= step && 0 <= j < n && !attached_before(order, step, j) ==> #[trigger] tree_nodes(tree)[m].plant_cost(
                pos_of(ps[j]),
                reach,
            ) >= tree_nodes(tree)[b].plant_cost(pos_of(ps[tree[b].1.0 as int]), reach),
{
    let nodes0 = tree_nodes(tree);
    assert forall|m: int, j: int|
        0 <= m <= step && 0 <= j < n && !attached_before(order, step, j) implies
        #[trigger] nodes0[m].plant_cost(pos_of(ps[j]), reach) >= nodes0[b].plant_cost(pos_of(ps[tree[b].1.0 as int]), reach) by {
        assert(graph.contains(j as usize));
        assert(entry_ok(tree[m], graph, ps, reach));
        assert(entry_ok(tree[b], graph, ps, reach));
        assert(nodes0[m] == tree[m].0 && nodes0[b] == tree[b].0);
        assert(tree[b].1.1 <= tree[m].1.1);
    }
}

// prim's algorithm
/// Grows the tree until every plant is attached: each step takes the cheapest
/// candidate edge of any node, then renews the candidates that named the plant
/// just attached. Returns the weight of the tree.
#[verifier::rlimit(100)]
fn compute_tree(
    input: &Input,
    tree: &mut Vec<(QPos, (usize, i32))>,
    graph: &mut HashSet<usize>,
    plants: &[[i32; 2]],
) -> (r: i64)
    requires
        input.reach_ok(),
        all_in_bounds(plants@),
        1 <= plants@.len() <= u32::MAX,
        old(tree)@.len() == 1,
        old(tree)@[0].0.wf(),
        forall|j: usize| #[trigger] old(graph)@.contains(j) <==> j < plants@.len(),
        old(graph)@.finite(),
        old(graph)@.len() == plants@.len(),
        candidates_ok(old(tree)@, old(graph)@, plants@, input.range as int),
    ensures
        final(graph)@.len() == 0,
        final(tree)@.len() == plants@.len() + 1,
        exists|order: Seq<int>, parents: Seq<int>|
            prim_steps(old(tree)@[0].0, plants@, input.range as int, order, parents, tree_nodes(final(tree)@), plants@.len() as int)
                && r == tree_weight(plants@, input.range as int, order, parents, tree_nodes(final(tree)@), plants@.len() as int),
{
    broadcast use vstd::std_specs::hash::group_hash_axioms;
    let ghost reach = input.range as int;
    let ghost ps = plants@;
    let ghost pos = tree@[0].0;
    let n = plants.len();
    let mut tree_dist: i64 = 0;
    let ghost mut order: Seq<int> = Seq::empty();
    let ghost mut parents: Seq<int> = Seq::empty();
    let mut step: usize = 0;
    proof {
        assert(tree_nodes(tree@) =~= seq![pos]);
        assert(prim_steps(pos, ps, reach, order, parents, tree_nodes(tree@), 0));
    }
    loop
        invariant_except_break
            step < n,
            tree@.len() == step + 1,
            forall|j: usize| #[trigger] graph@.contains(j) <==> (j < n && !attached_before(order, step as int, j as int)),
            graph@.len() == n - step,
            candidates_ok(tree@, graph@, ps, reach),
            prim_steps(pos, ps, reach, order, parents, tree_nodes(tree@), step as int),
            tree_dist == tree_weight(ps, reach, order, parents, tree_nodes(tree@), step as int),
            0 <= tree_dist <= step * 4 * COORD_LIMIT,
            order.len() == step,
        invariant
            input.reach_ok(),
            reach == input.range,
            ps == plants@,
            n == ps.len(),
            1 <= n <= u32::MAX,
            all_in_bounds(ps),
            graph@.finite(),
            forall|e: int| 0 <= e < tree@.len() ==> (#[trigger] tree@[e]).0.wf(),
            tree@[0].0 == pos,
        ensures
            graph@.len() == 0,
            tree@.len() == n + 1,
            prim_steps(pos, ps, reach, order, parents, tree_nodes(tree@), n as int),
            tree_dist == tree_weight(ps, reach, order, parents, tree_nodes(tree@), n as int),
        decreases n - step,
    {
        let b = cheapest_entry(tree);
        let (best_pos, (best_plant, _)) = tree[b];
        let ghost old_graph = graph@;
        let ghost old_tree = tree@;
        let ghost old_order = order;
        let ghost old_parents = parents;
        proof {
            assert(entry_ok(old_tree[b as int], old_graph, ps, reach));
        }
        graph.remove(&best_plant);
        proof {
            lemma_cost_bound(best_pos, pos_of(ps[best_plant as int]), reach);
            lemma_graph_after_remove(old_graph, graph@, old_order, step as int, best_plant, n as int);
            lemma_cheapest_edge(old_tree, old_graph, ps, reach, old_order, step as int, b as int, n as int);
        }
        let (new_pos, new_dist) = best_pos.apply_plant(input, plants[best_plant]);
        tree_dist = tree_dist + new_dist as i64;
        proof {
            order = order.push(best_plant as int);
            parents = parents.push(b as int);
            assert(step * 4 * COORD_LIMIT + 4 * COORD_LIMIT == (step + 1) * 4 * COORD_LIMIT) by (nonlinear_arith);
        }
        if step >= n - 1 {
            tree.push((new_pos, (0, 0)));
            proof {
                assert(tree_nodes(tree@) =~= tree_nodes(old_tree).push(new_pos));
                lemma_prim_step(pos, ps, reach, old_order, old_parents, tree_nodes(old_tree), step as int, b as int,
                    best_plant as int, new_pos, tree_nodes(tree@));
            }
            break;
        }
        renew_candidates(input, tree, graph, plants, best_plant, Ghost(old_graph));
        let cand = get_min(input, new_pos, graph, plants);
        let ghost before_push = tree@;
        if let Some(c) = cand {
            tree.push((new_pos, c));
        }
        proof {
            assert(tree_nodes(before_push) =~= tree_nodes(old_tree));
            assert(tree_nodes(tree@) =~= tree_nodes(old_tree).push(new_pos));
            lemma_prim_step(pos, ps, reach, old_order, old_parents, tree_nodes(old_tree), step as int, b as int,
                best_plant as int, new_pos, tree_nodes(tree@));
            assert forall|x: int| 0 <= x < tree@.len() implies entry_ok(#[trigger] tree@[x], graph@, ps, reach) by {
                if x < before_push.len() {
                    assert(tree@[x] == before_push[x]);
                }
            }
        }
        step += 1;
    }
    tree_dist
}

/// Lower bound of the remaining cost, as `prim2` computes it, with the plants
/// not yet attached kept in a set and each tree node remembering its cheapest
/// candidate plant.
pub fn prim(input: &Input, pos: QPos, plants: &[[i32; 2]]) -> (r: i64)
    requires
        input.reach_ok(),
        pos.wf(),
        all_in_bounds(plants@),
        plants@.len() <= u32::MAX,
    ensures
        exists|order: Seq<int>, parents: Seq<int>, nodes: Seq<QPos>|
            prim_steps(pos, plants@, input.range as int, order, parents, nodes, plants@.len() as int)
                && r == tree_weight(plants@, input.range as int, order, parents, nodes, plants@.len() as int),
{
    broadcast use vstd::std_specs::hash::group_hash_axioms;
    if plants.len() == 0 {
        proof {
            let order = Seq::<int>::empty();
            let parents = Seq::<int>::empty();
            let nodes = seq![pos];
            assert(prim_steps(pos, plants@, input.range as int, order, parents, nodes, 0)
                && 0 == tree_weight(plants@, input.range as int, order, parents, nodes, 0));
        }
        return 0;
    }
    let mut graph: HashSet<usize> = HashSet::new();
    let mut i: usize = 0;
    while i < plants.len()
        invariant
            i <= plants@.len(),
            forall|j: usize| #[trigger] graph@.contains(j) <==> j < i,
            graph@.finite(),
            graph@.len() == i,
        decreases plants@.len() - i,
    {
        graph.insert(i);
        i += 1;
    }
    let first = get_min(input, pos, &graph, plants);
    let best = match first {
        Some(b) => b,
        None => (0, 0),
    };
    let mut tree = vec![(pos, best)];
    proof {
        assert(tree@ =~= seq![(pos, best)]);
        assert(entry_ok(tree@[0], graph@, plants@, input.range as int));
    }
    let tree_dist = compute_tree(input, &mut tree, &mut graph, plants);
    tree_dist
}

} // verus!
