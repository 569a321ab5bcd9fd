use crate::node::{NodeData, Status};
use crate::search::{
    after, closed_at, is_outcome, met, outcome, step, tolls, trail, visit, visit_all, Phase,
    Search,
};
use crate::state::{best_open, has_key, index_of, is_best_open, is_open};
use crate::upkeep::{
    done, inv, lemma_after, lemma_close, lemma_depth_bound, lemma_trail, lemma_visit,
    lemma_visit_all, linked, search_inv,
};
use crate::{fingerprints_tell_apart, is_route, total, SearchProblem};
use vstd::prelude::*;

verus! {

/// The estimate of `p` is consistent: along a step it falls by no more than
/// the step costs, and at a goal it is 0.
pub open spec fn consistent<P: SearchProblem>(p: &P) -> bool {
    &&& forall|a: P::Node, e: int|
        0 <= e < p.neighbors_spec(a).len() ==> p.heuristic_spec(a) <= (
        #[trigger] p.neighbors_spec(a)[e]).1 + p.heuristic_spec(p.neighbors_spec(a)[e].0)
    &&& forall|a: P::Node| #[trigger] p.is_end_spec(a) ==> p.heuristic_spec(a) == 0
}

/// No route to the state of node `j` costs less than the node.
pub open spec fn cheapest_to<P: SearchProblem>(
    p: &P,
    nodes: Seq<NodeData<P::Node>>,
    j: int,
) -> bool {
    forall|path: Seq<P::Node>, costs: Seq<u64>| #[trigger]
        is_route(p, path, costs) && path.last() == nodes[j].state ==> nodes[j].g <= total(costs)
}

/// The state that step `e` out of node `j` leads to has a node, and that
/// node costs no more than node `j` and the step together.
pub open spec fn edge_relaxed<P: SearchProblem>(
    p: &P,
    nodes: Seq<NodeData<P::Node>>,
    j: int,
    e: int,
) -> bool {
    let edge = p.neighbors_spec(nodes[j].state)[e];
    exists|w: int| has_key(nodes, p.key_spec(edge.0), w) && nodes[w].g <= nodes[j].g + edge.1
}

/// The first `upto` steps out of node `j` are relaxed.
pub open spec fn edges_relaxed<P: SearchProblem>(
    p: &P,
    nodes: Seq<NodeData<P::Node>>,
    j: int,
    upto: int,
) -> bool {
    forall|e: int| 0 <= e < upto ==> #[trigger] edge_relaxed(p, nodes, j, e)
}

/// What holds of the nodes of a search with a consistent estimate, beside
/// `inv`: every closed node is reached as cheaply as can be, and the steps
/// out of it that were looked at are relaxed.
pub open spec fn opt<P: SearchProblem>(
    p: &P,
    nodes: Seq<NodeData<P::Node>>,
    cur: Option<int>,
    upto: int,
) -> bool {
    &&& forall|j: int|
        0 <= j < nodes.len() && nodes[j].status == Status::Closed ==> #[trigger] cheapest_to(
            p,
            nodes,
            j,
        )
    &&& forall|j: int|
        0 <= j < nodes.len() && nodes[j].status == Status::Closed && cur != Some(j)
            ==> #[trigger] edges_relaxed(
            p,
            nodes,
            j,
            p.neighbors_spec(nodes[j].state).len() as int,
        )
    &&& match cur {
        Some(c) => edges_relaxed(p, nodes, c, upto),
        None => true,
    }
}

/// No route to a goal costs less than `cost`.
pub open spec fn cheapest_of_all<P: SearchProblem>(p: &P, cost: nat) -> bool {
    forall|path: Seq<P::Node>, costs: Seq<u64>| #[trigger]
        is_route(p, path, costs) && p.is_end_spec(path.last()) ==> cost <= total(costs)
}

/// What holds of a search with a consistent estimate, beside `search_inv`.
pub open spec fn search_opt<P: SearchProblem>(p: &P, s: Search<P::Node>) -> bool {
    match s.phase {
        Phase::Running => opt(p, s.nodes, None, 0),
        Phase::Found(c) => cheapest_of_all(p, s.nodes[c].g),
        Phase::Exhausted => true,
    }
}

/// What the first `k` steps of a route cost, and the step after them.
pub proof fn lemma_total_take(costs: Seq<u64>, k: int)
    requires
        0 <= k < costs.len(),
    ensures
        total(costs.take(k + 1)) == total(costs.take(k)) + costs[k],
{
    assert(costs.take(k + 1).drop_last() =~= costs.take(k));
}

/// The beginning of a route is a route.
pub proof fn lemma_route_prefix<P: SearchProblem>(
    p: &P,
    path: Seq<P::Node>,
    costs: Seq<u64>,
    m: int,
)
    requires
        is_route(p, path, costs),
        0 <= m < path.len(),
    ensures
        is_route(p, path.take(m + 1), costs.take(m)),
        path.take(m + 1).last() == path[m],
{
}

/// A route with one more step at its end is a route.
pub proof fn lemma_route_longer<P: SearchProblem>(
    p: &P,
    path: Seq<P::Node>,
    costs: Seq<u64>,
    to: P::Node,
    cost: u64,
)
    requires
        is_route(p, path, costs),
        p.neighbors_spec(path.last()).contains((to, cost)),
    ensures
        is_route(p, path.push(to), costs.push(cost)),
        total(costs.push(cost)) == total(costs) + cost,
{
    let tolls = costs.push(cost);
    assert(tolls.drop_last() =~= costs);
}

/// Some open node has a key no greater than what the first `m` steps of a
/// route cost plus the estimate at the state they lead to, where that state
/// has no closed node.
pub proof fn lemma_frontier<P: SearchProblem>(
    p: &P,
    nodes: Seq<NodeData<P::Node>>,
    depth: Seq<nat>,
    path: Seq<P::Node>,
    costs: Seq<u64>,
    m: int,
) -> (w: int)
    requires
        fingerprints_tell_apart(p),
        consistent(p),
        inv(p, nodes, depth, None, 0),
        opt(p, nodes, None, 0),
        is_route(p, path, costs),
        0 <= m < path.len(),
        forall|j: int|
            0 <= j < nodes.len() && nodes[j].status == Status::Closed ==> (
            #[trigger] nodes[j]).state != path[m],
    ensures
        is_open(nodes, w),
        nodes[w].f <= total(costs.take(m)) + p.heuristic_spec(path[m]),
    decreases m,
{
    if m == 0 {
        assert(linked(p, nodes, depth, 0));
        0
    } else {
        let edges = p.neighbors_spec(path[m - 1]);
        let e = choose|e: int| 0 <= e < edges.len() && edges[e] == (path[m], costs[m - 1]);
        lemma_total_take(costs, m - 1);
        if exists|v: int|
            0 <= v < nodes.len() && nodes[v].status == Status::Closed && (
            #[trigger] nodes[v]).state == path[m - 1] {
            let v = choose|v: int|
                0 <= v < nodes.len() && nodes[v].status == Status::Closed && (
                #[trigger] nodes[v]).state == path[m - 1];
            assert(edges_relaxed(p, nodes, v, edges.len() as int));
            assert(edge_relaxed(p, nodes, v, e));
            let w = choose|w: int|
                has_key(nodes, p.key_spec(edges[e].0), w) && nodes[w].g <= nodes[v].g
                    + edges[e].1;
            assert(linked(p, nodes, depth, w));
            lemma_route_prefix(p, path, costs, m - 1);
            assert(cheapest_to(p, nodes, v));
            w
        } else {
            let w = lemma_frontier(p, nodes, depth, path, costs, m - 1);
            w
        }
    }
}

/// Closing the open node that is served first keeps `opt`: the node is
/// reached as cheaply as can be.
pub proof fn lemma_close_opt<P: SearchProblem>(
    p: &P,
    nodes: Seq<NodeData<P::Node>>,
    depth: Seq<nat>,
    cur: int,
)
    requires
        fingerprints_tell_apart(p),
        consistent(p),
        inv(p, nodes, depth, None, 0),
        opt(p, nodes, None, 0),
        is_best_open(nodes, cur),
    ensures
        opt(p, closed_at(nodes, cur), Some(cur), 0),
        p.is_end_spec(nodes[cur].state) ==> cheapest_of_all(p, nodes[cur].g),
{
    let later = closed_at(nodes, cur);
    assert(linked(p, nodes, depth, cur));
    assert forall|path: Seq<P::Node>, costs: Seq<u64>| #[trigger]
        is_route(p, path, costs) && path.last() == nodes[cur].state implies nodes[cur].g
        <= total(costs) by {
        assert forall|j: int|
            0 <= j < nodes.len() && nodes[j].status == Status::Closed implies (
        #[trigger] nodes[j]).state != path[path.len() - 1] by {
            assert(linked(p, nodes, depth, j));
        }
        let w = lemma_frontier(p, nodes, depth, path, costs, path.len() - 1);
        assert(costs.take(costs.len() as int) =~= costs);
    }
    assert forall|j: int|
        0 <= j < later.len() && later[j].status == Status::Closed implies #[trigger] cheapest_to(
        p,
        later,
        j,
    ) by {
        if j != cur {
            assert(cheapest_to(p, nodes, j));
        }
    }
    assert forall|j: int|
        0 <= j < later.len() && later[j].status == Status::Closed && Some(cur) != Some(
            j,
        ) implies #[trigger] edges_relaxed(
        p,
        later,
        j,
        p.neighbors_spec(later[j].state).len() as int,
    ) by {
        assert(edges_relaxed(p, nodes, j, p.neighbors_spec(nodes[j].state).len() as int));
        assert forall|e: int|
            0 <= e < p.neighbors_spec(later[j].state).len() implies #[trigger] edge_relaxed(
            p,
            later,
            j,
            e,
        ) by {
            assert(edge_relaxed(p, nodes, j, e));
            let edge = p.neighbors_spec(nodes[j].state)[e];
            let w = choose|w: int|
                has_key(nodes, p.key_spec(edge.0), w) && nodes[w].g <= nodes[j].g + edge.1;
            assert(has_key(later, p.key_spec(edge.0), w));
        }
    }
    if p.is_end_spec(nodes[cur].state) {
        assert forall|path: Seq<P::Node>, costs: Seq<u64>| #[trigger]
            is_route(p, path, costs) && p.is_end_spec(path.last()) implies nodes[cur].g <= total(
            costs,
        ) by {
            assert forall|j: int|
                0 <= j < nodes.len() && nodes[j].status == Status::Closed implies (
            #[trigger] nodes[j]).state != path[path.len() - 1] by {
                assert(done(p, nodes, j));
            }
            let w = lemma_frontier(p, nodes, depth, path, costs, path.len() - 1);
            assert(costs.take(costs.len() as int) =~= costs);
        }
    }
}

/// Looking at step `k` out of node `cur` keeps `opt`.
pub proof fn lemma_visit_opt<P: SearchProblem>(
    p: &P,
    nodes: Seq<NodeData<P::Node>>,
    depth: Seq<nat>,
    cur: int,
    k: int,
)
    requires
        fingerprints_tell_apart(p),
        inv(p, nodes, depth, Some(cur), k),
        opt(p, nodes, Some(cur), k),
        0 <= k < p.neighbors_spec(nodes[cur].state).len(),
    ensures
        opt(p, visit(p, nodes, cur, p.neighbors_spec(nodes[cur].state)[k]), Some(cur), k + 1),
{
    let edge = p.neighbors_spec(nodes[cur].state)[k];
    let key = p.key_spec(edge.0);
    let later = visit(p, nodes, cur, edge);
    lemma_visit(p, nodes, depth, cur, k);
    // what the step changed
    let fresh = met(p, nodes, edge.0);
    let i = index_of(fresh, key).unwrap();
    if index_of(nodes, key) is None {
        assert(has_key(fresh, key, nodes.len() as int));
    }
    assert forall|m: int| 0 <= m < nodes.len() implies (#[trigger] later[m]).key == nodes[m].key
        && later[m].state == nodes[m].state && later[m].g <= nodes[m].g && (nodes[m].status
        == Status::Closed ==> later[m] == nodes[m]) by {
        assert(linked(p, nodes, depth, m));
    }
    assert forall|j: int|
        0 <= j < later.len() && later[j].status == Status::Closed implies #[trigger] cheapest_to(
        p,
        later,
        j,
    ) by {
        assert(cheapest_to(p, nodes, j));
    }
    assert forall|j: int, e: int|
        0 <= j < nodes.len() && nodes[j].status == Status::Closed && #[trigger] edge_relaxed(
            p,
            nodes,
            j,
            e,
        ) implies edge_relaxed(p, later, j, e) by {
        let step = p.neighbors_spec(nodes[j].state)[e];
        let w = choose|w: int|
            has_key(nodes, p.key_spec(step.0), w) && nodes[w].g <= nodes[j].g + step.1;
        assert(has_key(later, p.key_spec(step.0), w));
    }
    assert forall|j: int|
        0 <= j < later.len() && later[j].status == Status::Closed && Some(cur) != Some(
            j,
        ) implies #[trigger] edges_relaxed(
        p,
        later,
        j,
        p.neighbors_spec(later[j].state).len() as int,
    ) by {
        assert(edges_relaxed(p, nodes, j, p.neighbors_spec(nodes[j].state).len() as int));
        assert forall|e: int|
            0 <= e < p.neighbors_spec(later[j].state).len() implies #[trigger] edge_relaxed(
            p,
            later,
            j,
            e,
        ) by {
            assert(edge_relaxed(p, nodes, j, e));
        }
    }
    assert forall|e: int| 0 <= e < k + 1 implies #[trigger] edge_relaxed(p, later, cur, e) by {
        if e < k {
            assert(edge_relaxed(p, nodes, cur, e));
        } else {
            if later[i].status == Status::Closed {
                // the node was closed before: nothing reaches it more cheaply
                assert(linked(p, nodes, depth, i));
                lemma_depth_bound(p, nodes, depth, Some(cur), k, cur);
                lemma_trail(p, nodes, depth, Some(cur), k, cur, nodes.len());
                let path = trail(nodes, cur, nodes.len());
                let costs = tolls(nodes, cur, nodes.len());
                lemma_route_longer(p, path, costs, edge.0, edge.1);
                assert(cheapest_to(p, nodes, i));
            }
        }
    }
}

/// Looking at the first `k` steps out of node `cur` keeps `opt`.
pub proof fn lemma_visit_all_opt<P: SearchProblem>(
    p: &P,
    nodes: Seq<NodeData<P::Node>>,
    depth: Seq<nat>,
    cur: int,
    k: int,
)
    requires
        fingerprints_tell_apart(p),
        inv(p, nodes, depth, Some(cur), 0),
        opt(p, nodes, Some(cur), 0),
        0 <= k <= p.neighbors_spec(nodes[cur].state).len(),
    ensures
        opt(
            p,
            visit_all(p, nodes, cur, p.neighbors_spec(nodes[cur].state).take(k)),
            Some(cur),
            k,
        ),
    decreases k,
{
    let edges = p.neighbors_spec(nodes[cur].state);
    if k > 0 {
        lemma_visit_all_opt(p, nodes, depth, cur, k - 1);
        let before = lemma_visit_all(p, nodes, depth, cur, k - 1);
        assert(edges.take(k).drop_last() =~= edges.take(k - 1));
        let mid = visit_all(p, nodes, cur, edges.take(k - 1));
        lemma_visit_opt(p, mid, before, cur, k - 1);
    }
}

/// A step keeps `search_opt`.
pub proof fn lemma_step_opt<P: SearchProblem>(p: &P, s: Search<P::Node>, depth: Seq<nat>)
    requires
        fingerprints_tell_apart(p),
        consistent(p),
        search_inv(p, s, depth),
        search_opt(p, s),
    ensures
        search_opt(p, step(p, s)),
{
    match s.phase {
        Phase::Running => match best_open(s.nodes) {
            None => {},
            Some(cur) => {
                lemma_close(p, s.nodes, depth, cur);
                lemma_close_opt(p, s.nodes, depth, cur);
                let nodes = closed_at(s.nodes, cur);
                if !p.is_end_spec(nodes[cur].state) {
                    let edges = p.neighbors_spec(nodes[cur].state);
                    lemma_visit_all_opt(p, nodes, depth, cur, edges.len() as int);
                    lemma_visit_all(p, nodes, depth, cur, edges.len() as int);
                    assert(edges.take(edges.len() as int) =~= edges);
                }
            },
        },
        _ => {},
    }
}

/// `search_opt` holds after any number of steps.
pub proof fn lemma_after_opt<P: SearchProblem>(p: &P, n: nat)
    requires
        fingerprints_tell_apart(p),
        consistent(p),
    ensures
        search_opt(p, after(p, n)),
    decreases n,
{
    if n > 0 {
        lemma_after_opt(p, (n - 1) as nat);
        let depth = lemma_after(p, (n - 1) as nat);
        lemma_step_opt(p, after(p, (n - 1) as nat), depth);
    }
}

/// With a consistent estimate a search hands back a cheapest path: no
/// route to a goal costs less.
pub proof fn law_found_path_is_cheapest<P: SearchProblem>(
    p: &P,
    path: Seq<P::Node>,
    cost: nat,
    other: Seq<P::Node>,
    other_costs: Seq<u64>,
)
    requires
        fingerprints_tell_apart(p),
        consistent(p),
        is_outcome(p, Some((path, cost))),
        is_route(p, other, other_costs),
        p.is_end_spec(other.last()),
    ensures
        cost <= total(other_costs),
{
    let n = choose|n: nat|
        after(p, n).phase != Phase::Running && Some((path, cost)) == outcome(
            #[trigger] after(p, n),
        );
    lemma_after_opt(p, n);
}

} // verus!
