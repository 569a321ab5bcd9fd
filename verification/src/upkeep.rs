use crate::frontier::precedes;
use crate::node::{NodeData, Status};
use crate::search::{after, begin, closed_at, step, tolls, trail, visit, visit_all, Phase, Search};
use crate::state::{
    best_open, distinct_keys, has_key, index_of, is_best_open, is_open, lemma_index_of,
};
use crate::{fingerprints_tell_apart, is_route, total, SearchProblem};
use vstd::prelude::*;

verus! {

/// Among the first `n` nodes, the open one that is served first; -1 where
/// none of them is open.
pub open spec fn least_open<N>(nodes: Seq<NodeData<N>>, n: int) -> int
    decreases n,
{
    if n <= 0 {
        -1
    } else {
        let rest = least_open(nodes, n - 1);
        if nodes[n - 1].status != Status::Open {
            rest
        } else if rest >= 0 && precedes(nodes, rest, n - 1) {
            rest
        } else {
            n - 1
        }
    }
}

/// `least_open` is what it is named after.
pub proof fn lemma_least_open<N>(nodes: Seq<NodeData<N>>, n: int)
    requires
        0 <= n <= nodes.len(),
    ensures
        ({
            let b = least_open(nodes, n);
            &&& -1 <= b < n
            &&& b >= 0 ==> is_open(nodes, b)
            &&& forall|j: int| 0 <= j < n && is_open(nodes, j) ==> b >= 0 && precedes(nodes, b, j)
        }),
    decreases n,
{
    if n > 0 {
        lemma_least_open(nodes, n - 1);
    }
}

/// Where a node is open, some open node is served first.
pub proof fn lemma_some_open_is_best<N>(nodes: Seq<NodeData<N>>, i: int)
    requires
        is_open(nodes, i),
    ensures
        exists|b: int| is_best_open(nodes, b),
{
    let b = least_open(nodes, nodes.len() as int);
    lemma_least_open(nodes, nodes.len() as int);
    assert(is_best_open(nodes, b));
}

/// The number of closed nodes.
pub open spec fn closed_count<N>(nodes: Seq<NodeData<N>>) -> nat
    decreases nodes.len(),
{
    if nodes.len() == 0 {
        0
    } else {
        closed_count(nodes.drop_last()) + if nodes.last().status == Status::Closed {
            1nat
        } else {
            0nat
        }
    }
}

/// A node at the end counts if it is closed.
pub proof fn lemma_count_push<N>(nodes: Seq<NodeData<N>>, x: NodeData<N>)
    ensures
        closed_count(nodes.push(x)) == closed_count(nodes) + if x.status == Status::Closed {
            1nat
        } else {
            0nat
        },
{
    assert(nodes.push(x).drop_last() =~= nodes);
}

/// A node that takes the place of another counts in its stead.
pub proof fn lemma_count_update<N>(nodes: Seq<NodeData<N>>, i: int, x: NodeData<N>)
    requires
        0 <= i < nodes.len(),
    ensures
        closed_count(nodes.update(i, x)) + (if nodes[i].status == Status::Closed {
            1nat
        } else {
            0nat
        }) == closed_count(nodes) + if x.status == Status::Closed {
            1nat
        } else {
            0nat
        },
    decreases nodes.len(),
{
    if i == nodes.len() - 1 {
        assert(nodes.update(i, x).drop_last() =~= nodes.drop_last());
    } else {
        assert(nodes.update(i, x).drop_last() =~= nodes.drop_last().update(i, x));
        lemma_count_update(nodes.drop_last(), i, x);
    }
}

/// There are fewer closed nodes than nodes where some node is not closed.
pub proof fn lemma_count_bound<N>(nodes: Seq<NodeData<N>>, i: int)
    requires
        0 <= i < nodes.len(),
    ensures
        closed_count(nodes) <= nodes.len(),
        nodes[i].status != Status::Closed ==> closed_count(nodes) < nodes.len(),
    decreases nodes.len(),
{
    if nodes.len() > 1 {
        if i == nodes.len() - 1 {
            lemma_count_bound(nodes.drop_last(), 0);
        } else {
            lemma_count_bound(nodes.drop_last(), i);
        }
    } else {
        assert(closed_count(nodes.drop_last()) == 0);
    }
}

/// Some node stands for `state`.
pub open spec fn known<P: SearchProblem>(
    p: &P,
    nodes: Seq<NodeData<P::Node>>,
    state: P::Node,
) -> bool {
    exists|i: int| has_key(nodes, p.key_spec(state), i)
}

/// The states that the first `upto` steps out of node `j` lead to have
/// nodes.
pub open spec fn expanded<P: SearchProblem>(
    p: &P,
    nodes: Seq<NodeData<P::Node>>,
    j: int,
    upto: int,
) -> bool {
    forall|k: int|
        0 <= k < upto ==> known(p, nodes, (#[trigger] p.neighbors_spec(nodes[j].state)[k]).0)
}

/// Node `j` is no goal, and all steps out of it were looked at.
pub open spec fn done<P: SearchProblem>(p: &P, nodes: Seq<NodeData<P::Node>>, j: int) -> bool {
    &&& !p.is_end_spec(nodes[j].state)
    &&& expanded(p, nodes, j, p.neighbors_spec(nodes[j].state).len() as int)
}

/// Node `i` was reached from the closed node `q` by a step that `p` offers,
/// and costs what `q` costs plus that step.
pub open spec fn hop<P: SearchProblem>(
    p: &P,
    nodes: Seq<NodeData<P::Node>>,
    depth: Seq<nat>,
    q: int,
    i: int,
) -> bool {
    &&& i != 0
    &&& 0 <= q < nodes.len()
    &&& nodes[q].status == Status::Closed
    &&& depth[i] == depth[q] + 1
    &&& nodes[q].g <= nodes[i].g <= nodes[q].g + u64::MAX
    &&& p.neighbors_spec(nodes[q].state).contains(
        (nodes[i].state, (nodes[i].g - nodes[q].g) as u64),
    )
}

/// What holds of node `i` by itself: its fingerprint and heuristic are
/// those of its state, its key is cost plus heuristic, it is `depth[i]`
/// steps from the start, and its parent leads to it.
pub open spec fn linked<P: SearchProblem>(
    p: &P,
    nodes: Seq<NodeData<P::Node>>,
    depth: Seq<nat>,
    i: int,
) -> bool {
    let n = nodes[i];
    &&& n.key == p.key_spec(n.state)
    &&& n.status != Status::Unvisited
    &&& n.h == p.heuristic_spec(n.state)
    &&& n.f == n.g + n.h
    &&& n.g <= depth[i] * u64::MAX
    &&& if n.status == Status::Closed {
        depth[i] < closed_count(nodes)
    } else {
        depth[i] <= closed_count(nodes)
    }
    &&& match n.parent {
        None => i == 0 && depth[i] == 0 && n.g == 0,
        Some(q) => hop(p, nodes, depth, q, i),
    }
}

/// What holds of the nodes of a search throughout. `cur` is the node whose
/// steps are being looked at, if there is one, and `upto` the number of
/// them that were.
pub open spec fn inv<P: SearchProblem>(
    p: &P,
    nodes: Seq<NodeData<P::Node>>,
    depth: Seq<nat>,
    cur: Option<int>,
    upto: int,
) -> bool {
    &&& nodes.len() >= 1
    &&& depth.len() == nodes.len()
    &&& nodes[0].state == p.start_spec()
    &&& nodes[0].status == Status::Closed || (cur is None && nodes.len() == 1)
    &&& distinct_keys(nodes)
    &&& forall|i: int| 0 <= i < nodes.len() ==> #[trigger] linked(p, nodes, depth, i)
    &&& forall|j: int|
        0 <= j < nodes.len() && nodes[j].status == Status::Closed && cur != Some(j)
            ==> #[trigger] done(p, nodes, j)
    &&& match cur {
        Some(c) => 0 <= c < nodes.len() && nodes[c].status == Status::Closed && expanded(
            p,
            nodes,
            c,
            upto,
        ),
        None => true,
    }
}

/// What holds of a search throughout, with `depth` telling how many steps
/// each node is from the start.
pub open spec fn search_inv<P: SearchProblem>(p: &P, s: Search<P::Node>, depth: Seq<nat>) -> bool {
    match s.phase {
        Phase::Running => inv(p, s.nodes, depth, None, 0),
        Phase::Found(c) => inv(p, s.nodes, depth, Some(c), 0) && p.is_end_spec(s.nodes[c].state),
        Phase::Exhausted => inv(p, s.nodes, depth, None, 0) && forall|i: int|
            !is_open(s.nodes, i),
    }
}

/// A state that has a node keeps it when nodes are added and fingerprints
/// stay.
pub proof fn lemma_known_stays<P: SearchProblem>(
    p: &P,
    nodes: Seq<NodeData<P::Node>>,
    later: Seq<NodeData<P::Node>>,
    state: P::Node,
)
    requires
        known(p, nodes, state),
        nodes.len() <= later.len(),
        forall|i: int| 0 <= i < nodes.len() ==> (#[trigger] later[i]).key == nodes[i].key,
    ensures
        known(p, later, state),
{
    let i = choose|i: int| has_key(nodes, p.key_spec(state), i);
    assert(has_key(later, p.key_spec(state), i));
}

/// The invariant holds before the first step.
pub proof fn lemma_begin<P: SearchProblem>(p: &P)
    ensures
        search_inv(p, begin(p), seq![0nat]),
{
}

/// Closing the open node that is served first keeps the invariant; the
/// node's steps are then to be looked at.
pub proof fn lemma_close<P: SearchProblem>(
    p: &P,
    nodes: Seq<NodeData<P::Node>>,
    depth: Seq<nat>,
    cur: int,
)
    requires
        inv(p, nodes, depth, None, 0),
        is_open(nodes, cur),
    ensures
        inv(p, closed_at(nodes, cur), depth, Some(cur), 0),
        closed_count(closed_at(nodes, cur)) == closed_count(nodes) + 1,
{
    let after = closed_at(nodes, cur);
    lemma_count_update(nodes, cur, after[cur]);
    assert forall|i: int| 0 <= i < after.len() implies #[trigger] linked(p, after, depth, i) by {
        assert(linked(p, nodes, depth, i));
    }
    assert forall|j: int|
        0 <= j < after.len() && after[j].status == Status::Closed && Some(cur) != Some(
            j,
        ) implies #[trigger] done(p, after, j) by {
        assert(done(p, nodes, j));
        assert forall|k: int|
            0 <= k < p.neighbors_spec(after[j].state).len() implies known(
            p,
            after,
            (#[trigger] p.neighbors_spec(after[j].state)[k]).0,
        ) by {
            lemma_known_stays(p, nodes, after, p.neighbors_spec(nodes[j].state)[k].0);
        }
    }
}

/// A node whose steps were all looked at, and which is no goal, is done.
pub proof fn lemma_settle<P: SearchProblem>(
    p: &P,
    nodes: Seq<NodeData<P::Node>>,
    depth: Seq<nat>,
    cur: int,
)
    requires
        inv(p, nodes, depth, Some(cur), p.neighbors_spec(nodes[cur].state).len() as int),
        !p.is_end_spec(nodes[cur].state),
    ensures
        inv(p, nodes, depth, None, 0),
{
}

/// The node that a step out of node `cur` relaxes: it stands for the state
/// the step leads to and has `cur` as its parent.
pub open spec fn reached<P: SearchProblem>(
    p: &P,
    nodes: Seq<NodeData<P::Node>>,
    cur: int,
    edge: (P::Node, u64),
) -> NodeData<P::Node> {
    let g = nodes[cur].g + edge.1 as nat;
    let h = p.heuristic_spec(edge.0) as nat;
    NodeData {
        state: edge.0,
        key: p.key_spec(edge.0),
        parent: Some(cur),
        status: Status::Open,
        g: g,
        h: h,
        f: g + h,
    }
}

/// Relaxing node `i` by step `k` out of node `cur` keeps the invariant.
/// Node `i` is either new, at the end of the nodes, or was open before.
proof fn lemma_relax_keeps_inv<P: SearchProblem>(
    p: &P,
    nodes: Seq<NodeData<P::Node>>,
    depth: Seq<nat>,
    cur: int,
    k: int,
    later: Seq<NodeData<P::Node>>,
    deeper: Seq<nat>,
    i: int,
)
    requires
        inv(p, nodes, depth, Some(cur), k),
        0 <= k < p.neighbors_spec(nodes[cur].state).len(),
        0 <= i <= nodes.len(),
        later.len() == deeper.len(),
        later.len() == if i == nodes.len() {
            nodes.len() + 1
        } else {
            nodes.len()
        },
        forall|m: int|
            0 <= m < nodes.len() && m != i ==> (#[trigger] later[m]) == nodes[m] && deeper[m]
                == depth[m],
        later[i] == reached(p, nodes, cur, p.neighbors_spec(nodes[cur].state)[k]),
        deeper[i] == depth[cur] + 1,
        i < nodes.len() ==> nodes[i].status == Status::Open && nodes[i].key == later[i].key,
        i == nodes.len() ==> forall|m: int| !has_key(nodes, later[i].key, m),
        closed_count(later) == closed_count(nodes),
    ensures
        inv(p, later, deeper, Some(cur), k + 1),
{
    let edges = p.neighbors_spec(nodes[cur].state);
    assert(linked(p, nodes, depth, cur));
    assert forall|m: int| 0 <= m < later.len() implies #[trigger] linked(p, later, deeper, m) by {
        if m != i {
            assert(linked(p, nodes, depth, m));
        }
    }
    assert(distinct_keys(later)) by {
        assert forall|a: int, b: int| 0 <= a < b < later.len() implies (#[trigger] later[a]).key
            != (#[trigger] later[b]).key by {
            if b == nodes.len() {
                assert(!has_key(nodes, later[i].key, a));
            }
        }
    }
    assert forall|j: int|
        0 <= j < later.len() && later[j].status == Status::Closed && Some(cur) != Some(
            j,
        ) implies #[trigger] done(p, later, j) by {
        assert(done(p, nodes, j));
        assert forall|e: int|
            0 <= e < p.neighbors_spec(later[j].state).len() implies known(
            p,
            later,
            (#[trigger] p.neighbors_spec(later[j].state)[e]).0,
        ) by {
            lemma_known_stays(p, nodes, later, p.neighbors_spec(nodes[j].state)[e].0);
        }
    }
    assert forall|e: int| 0 <= e < k + 1 implies known(
        p,
        later,
        (#[trigger] p.neighbors_spec(later[cur].state)[e]).0,
    ) by {
        if e < k {
            lemma_known_stays(p, nodes, later, edges[e].0);
        } else {
            assert(has_key(later, p.key_spec(edges[k].0), i));
        }
    }
}

/// Looking at step `k` out of node `cur` keeps the invariant, leaves alone
/// all closed nodes, and closes none.
pub proof fn lemma_visit<P: SearchProblem>(
    p: &P,
    nodes: Seq<NodeData<P::Node>>,
    depth: Seq<nat>,
    cur: int,
    k: int,
) -> (deeper: Seq<nat>)
    requires
        fingerprints_tell_apart(p),
        inv(p, nodes, depth, Some(cur), k),
        0 <= k < p.neighbors_spec(nodes[cur].state).len(),
    ensures
        ({
            let later = visit(p, nodes, cur, p.neighbors_spec(nodes[cur].state)[k]);
            &&& inv(p, later, deeper, Some(cur), k + 1)
            &&& later[cur] == nodes[cur]
            &&& nodes.len() <= later.len() <= nodes.len() + 1
            &&& closed_count(later) == closed_count(nodes)
        }),
{
    let edge = p.neighbors_spec(nodes[cur].state)[k];
    let key = p.key_spec(edge.0);
    let later = visit(p, nodes, cur, edge);
    let g = nodes[cur].g + edge.1 as nat;
    if index_of(nodes, key) is None {
        let i = nodes.len() as int;
        let fresh = nodes.push(NodeData::unvisited(edge.0, key));
        assert(distinct_keys(fresh)) by {
            assert forall|a: int, b: int| 0 <= a < b < fresh.len() implies (
            #[trigger] fresh[a]).key != (#[trigger] fresh[b]).key by {
                if b == nodes.len() {
                    assert(!has_key(nodes, key, a));
                }
            }
        }
        lemma_index_of(fresh, key, i);
        assert(later =~= nodes.push(reached(p, nodes, cur, edge)));
        lemma_count_push(nodes, reached(p, nodes, cur, edge));
        let deeper = depth.push(depth[cur] + 1);
        lemma_relax_keeps_inv(p, nodes, depth, cur, k, later, deeper, i);
        deeper
    } else {
        let i = index_of(nodes, key).unwrap();
        assert(linked(p, nodes, depth, i));
        if nodes[i].status != Status::Closed && g < nodes[i].g {
            lemma_count_update(nodes, i, reached(p, nodes, cur, edge));
            let deeper = depth.update(i, depth[cur] + 1);
            lemma_relax_keeps_inv(p, nodes, depth, cur, k, later, deeper, i);
            deeper
        } else {
            depth
        }
    }
}

/// Looking at the first `k` steps out of node `cur` keeps the invariant.
pub proof fn lemma_visit_all<P: SearchProblem>(
    p: &P,
    nodes: Seq<NodeData<P::Node>>,
    depth: Seq<nat>,
    cur: int,
    k: int,
) -> (deeper: Seq<nat>)
    requires
        fingerprints_tell_apart(p),
        inv(p, nodes, depth, Some(cur), 0),
        0 <= k <= p.neighbors_spec(nodes[cur].state).len(),
    ensures
        ({
            let later = visit_all(p, nodes, cur, p.neighbors_spec(nodes[cur].state).take(k));
            &&& inv(p, later, deeper, Some(cur), k)
            &&& later[cur] == nodes[cur]
            &&& nodes.len() <= later.len()
            &&& closed_count(later) == closed_count(nodes)
        }),
    decreases k,
{
    let edges = p.neighbors_spec(nodes[cur].state);
    if k == 0 {
        depth
    } else {
        let before = lemma_visit_all(p, nodes, depth, cur, k - 1);
        assert(edges.take(k).drop_last() =~= edges.take(k - 1));
        let mid = visit_all(p, nodes, cur, edges.take(k - 1));
        lemma_visit(p, mid, before, cur, k - 1)
    }
}

/// A step keeps the invariant.
pub proof fn lemma_step<P: SearchProblem>(p: &P, s: Search<P::Node>, depth: Seq<nat>) -> (deeper:
    Seq<nat>)
    requires
        fingerprints_tell_apart(p),
        search_inv(p, s, depth),
    ensures
        search_inv(p, step(p, s), deeper),
{
    match s.phase {
        Phase::Running => match best_open(s.nodes) {
            None => {
                assert forall|i: int| !is_open(s.nodes, i) by {
                    if is_open(s.nodes, i) {
                        lemma_some_open_is_best(s.nodes, i);
                    }
                }
                depth
            },
            Some(cur) => {
                lemma_close(p, s.nodes, depth, cur);
                let nodes = closed_at(s.nodes, cur);
                if p.is_end_spec(nodes[cur].state) {
                    depth
                } else {
                    let edges = p.neighbors_spec(nodes[cur].state);
                    let deeper = lemma_visit_all(p, nodes, depth, cur, edges.len() as int);
                    assert(edges.take(edges.len() as int) =~= edges);
                    lemma_settle(p, visit_all(p, nodes, cur, edges), deeper, cur);
                    deeper
                }
            },
        },
        _ => depth,
    }
}

/// The invariant holds after any number of steps.
pub proof fn lemma_after<P: SearchProblem>(p: &P, n: nat) -> (depth: Seq<nat>)
    requires
        fingerprints_tell_apart(p),
    ensures
        search_inv(p, after(p, n), depth),
    decreases n,
{
    if n == 0 {
        lemma_begin(p);
        seq![0nat]
    } else {
        let depth = lemma_after(p, (n - 1) as nat);
        lemma_step(p, after(p, (n - 1) as nat), depth)
    }
}

/// Every node is fewer steps from the start than there are nodes.
pub proof fn lemma_depth_bound<P: SearchProblem>(
    p: &P,
    nodes: Seq<NodeData<P::Node>>,
    depth: Seq<nat>,
    cur: Option<int>,
    upto: int,
    i: int,
)
    requires
        inv(p, nodes, depth, cur, upto),
        0 <= i < nodes.len(),
    ensures
        depth[i] < nodes.len(),
        nodes[i].g <= depth[i] * u64::MAX,
{
    assert(linked(p, nodes, depth, i));
    lemma_count_bound(nodes, i);
}

/// With fuel for more states than node `i` is steps from the start, the
/// trail of node `i` is a route to its state at its cost, and more fuel
/// changes nothing.
pub proof fn lemma_trail<P: SearchProblem>(
    p: &P,
    nodes: Seq<NodeData<P::Node>>,
    depth: Seq<nat>,
    cur: Option<int>,
    upto: int,
    i: int,
    fuel: nat,
)
    requires
        inv(p, nodes, depth, cur, upto),
        0 <= i < nodes.len(),
        fuel > depth[i],
    ensures
        is_route(p, trail(nodes, i, fuel), tolls(nodes, i, fuel)),
        trail(nodes, i, fuel).len() == depth[i] + 1,
        trail(nodes, i, fuel).last() == nodes[i].state,
        total(tolls(nodes, i, fuel)) == nodes[i].g,
        trail(nodes, i, fuel) == trail(nodes, i, (depth[i] + 1) as nat),
        tolls(nodes, i, fuel) == tolls(nodes, i, (depth[i] + 1) as nat),
    decreases fuel,
{
    assert(linked(p, nodes, depth, i));
    match nodes[i].parent {
        None => {
        },
        Some(q) => {
            lemma_trail(p, nodes, depth, cur, upto, q, (fuel - 1) as nat);
            let costs = tolls(nodes, q, (fuel - 1) as nat);
            let c = (nodes[i].g - nodes[q].g) as u64;
            assert(costs.push(c).drop_last() =~= costs);
        },
    }
}

} // verus!
