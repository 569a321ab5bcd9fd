use crate::node::NodeData;
use crate::search::{after, begin, is_outcome, outcome, Phase};
use crate::state::{has_key, is_open, lemma_best_open};
use crate::upkeep::{done, inv, lemma_after, lemma_depth_bound, lemma_trail, linked};
use crate::{fingerprints_tell_apart, is_route, total, SearchProblem};
use vstd::prelude::*;

verus! {

/// A search that has ended stays as it is.
pub proof fn lemma_ended_stays<P: SearchProblem>(p: &P, n: nat, m: nat)
    requires
        after(p, n).phase != Phase::Running,
        n <= m,
    ensures
        after(p, m) == after(p, n),
    decreases m,
{
    if n < m {
        lemma_ended_stays(p, n, (m - 1) as nat);
    }
}

/// A search has one outcome: whenever it is run on the same problem, it
/// hands back the same path and the same cost, or nothing both times.
pub proof fn law_one_outcome<P: SearchProblem>(
    p: &P,
    first: Option<(Seq<P::Node>, nat)>,
    second: Option<(Seq<P::Node>, nat)>,
)
    requires
        is_outcome(p, first),
        is_outcome(p, second),
    ensures
        first == second,
{
    let n = choose|n: nat|
        after(p, n).phase != Phase::Running && first == outcome(#[trigger] after(p, n));
    let m = choose|m: nat|
        after(p, m).phase != Phase::Running && second == outcome(#[trigger] after(p, m));
    if n <= m {
        lemma_ended_stays(p, n, m);
    } else {
        lemma_ended_stays(p, m, n);
    }
}

/// A path that a search hands back leads from the start to a goal by steps
/// that the problem offers, and its cost is the sum of the costs of these
/// steps.
pub proof fn law_found_path_is_route<P: SearchProblem>(p: &P, path: Seq<P::Node>, cost: nat)
    requires
        fingerprints_tell_apart(p),
        is_outcome(p, Some((path, cost))),
    ensures
        exists|costs: Seq<u64>| #[trigger]
            is_route(p, path, costs) && p.is_end_spec(path.last()) && cost == total(costs),
{
    let n = choose|n: nat|
        after(p, n).phase != Phase::Running && Some((path, cost)) == outcome(
            #[trigger] after(p, n),
        );
    let s = after(p, n);
    let depth = lemma_after(p, n);
    match s.phase {
        Phase::Found(c) => {
            lemma_depth_bound(p, s.nodes, depth, Some(c), 0, c);
            lemma_trail(p, s.nodes, depth, Some(c), 0, c, s.nodes.len());
        },
        _ => {},
    }
}

/// Along a route the cost never falls: what the first `i` steps cost is no
/// more than what the first `j` steps cost, for `i` up to `j`.
pub proof fn law_cost_grows_along_route(costs: Seq<u64>, i: int, j: int)
    requires
        0 <= i <= j <= costs.len(),
    ensures
        total(costs.take(i)) <= total(costs.take(j)),
    decreases j - i,
{
    if i < j {
        law_cost_grows_along_route(costs, i, j - 1);
        assert(costs.take(j).drop_last() =~= costs.take(j - 1));
    }
}

/// Every state that a route leads to has a node once no node is open.
proof fn lemma_route_known<P: SearchProblem>(
    p: &P,
    nodes: Seq<NodeData<P::Node>>,
    depth: Seq<nat>,
    path: Seq<P::Node>,
    costs: Seq<u64>,
    k: int,
)
    requires
        fingerprints_tell_apart(p),
        inv(p, nodes, depth, None, 0),
        forall|i: int| !is_open(nodes, i),
        is_route(p, path, costs),
        0 <= k < path.len(),
    ensures
        exists|j: int| 0 <= j < nodes.len() && #[trigger] nodes[j].state == path[k],
    decreases k,
{
    if k > 0 {
        lemma_route_known(p, nodes, depth, path, costs, k - 1);
        let j = choose|j: int| 0 <= j < nodes.len() && #[trigger] nodes[j].state == path[k - 1];
        assert(linked(p, nodes, depth, j));
        assert(!is_open(nodes, j));
        assert(done(p, nodes, j));
        let edges = p.neighbors_spec(path[k - 1]);
        let e = choose|e: int| 0 <= e < edges.len() && edges[e] == (path[k], costs[k - 1]);
        let t = choose|t: int| has_key(nodes, p.key_spec(path[k]), t);
        assert(linked(p, nodes, depth, t));
    }
}

/// Where a search hands back nothing, no route leads to a goal.
pub proof fn law_nothing_found_is_unreachable<P: SearchProblem>(
    p: &P,
    path: Seq<P::Node>,
    costs: Seq<u64>,
)
    requires
        fingerprints_tell_apart(p),
        is_outcome(p, None),
        is_route(p, path, costs),
    ensures
        !p.is_end_spec(path.last()),
{
    let n = choose|n: nat|
        after(p, n).phase != Phase::Running && None::<(Seq<P::Node>, nat)> == outcome(
            #[trigger] after(p, n),
        );
    let s = after(p, n);
    let depth = lemma_after(p, n);
    lemma_route_known(p, s.nodes, depth, path, costs, path.len() - 1);
    let j = choose|j: int| 0 <= j < s.nodes.len() && #[trigger] s.nodes[j].state == path.last();
    assert(linked(p, s.nodes, depth, j));
    assert(!is_open(s.nodes, j));
    assert(done(p, s.nodes, j));
}

/// Where the start is a goal, the search hands back the start alone, at no
/// cost.
pub proof fn law_start_is_goal<P: SearchProblem>(p: &P)
    requires
        p.is_end_spec(p.start_spec()),
    ensures
        is_outcome(p, Some((seq![p.start_spec()], 0nat))),
{
    lemma_best_open(begin(p).nodes, 0);
    assert(after(p, 0) == begin(p));
    assert(after(p, 1).phase == Phase::Found(0));
}

} // verus!
