use crate::node::{NodeData, Status};
use crate::state::{best_open, index_of};
use crate::SearchProblem;
use vstd::prelude::*;

verus! {

/// How far a search has come.
pub enum Phase {
    Running,
    /// The goal was reached at the node of this index.
    Found(int),
    /// No open node is left.
    Exhausted,
}

/// A search at one moment: its nodes and how far it has come.
pub struct Search<N> {
    pub nodes: Seq<NodeData<N>>,
    pub phase: Phase,
}

/// The node a search begins with.
pub open spec fn start_node<P: SearchProblem>(p: &P) -> NodeData<P::Node> {
    let s = p.start_spec();
    let h = p.heuristic_spec(s) as nat;
    NodeData::initial(s, p.key_spec(s), h)
}

/// The search before its first step: the start node alone, open.
pub open spec fn begin<P: SearchProblem>(p: &P) -> Search<P::Node> {
    Search { nodes: seq![start_node(p)], phase: Phase::Running }
}

/// `nodes` with a node for `state`: a new unvisited one at the end where it
/// had none.
pub open spec fn met<P: SearchProblem>(
    p: &P,
    nodes: Seq<NodeData<P::Node>>,
    state: P::Node,
) -> Seq<NodeData<P::Node>> {
    if index_of(nodes, p.key_spec(state)) is None {
        nodes.push(NodeData::unvisited(state, p.key_spec(state)))
    } else {
        nodes
    }
}

/// `nodes` after node `i` was reached from node `cur` at the cost `g`, with
/// `h` left to the goal.
pub open spec fn relaxed<N>(nodes: Seq<NodeData<N>>, i: int, cur: int, g: nat, h: nat) -> Seq<
    NodeData<N>,
> {
    nodes.update(
        i,
        NodeData { parent: Some(cur), status: Status::Open, g: g, h: h, f: g + h, ..nodes[i] },
    )
}

/// `nodes` after one step out of node `cur` was looked at: the step leads
/// to the state `edge.0` and costs `edge.1`. A closed node is left alone;
/// an unvisited one, or one that is reached more cheaply this way, is
/// relaxed.
pub open spec fn visit<P: SearchProblem>(
    p: &P,
    nodes: Seq<NodeData<P::Node>>,
    cur: int,
    edge: (P::Node, u64),
) -> Seq<NodeData<P::Node>> {
    let known = met(p, nodes, edge.0);
    let i = index_of(known, p.key_spec(edge.0)).unwrap();
    let g = nodes[cur].g + edge.1 as nat;
    if known[i].status == Status::Closed {
        known
    } else if known[i].status == Status::Unvisited || g < known[i].g {
        relaxed(known, i, cur, g, p.heuristic_spec(edge.0) as nat)
    } else {
        known
    }
}

/// `nodes` after the steps `edges` out of node `cur` were looked at, in
/// their order.
pub open spec fn visit_all<P: SearchProblem>(
    p: &P,
    nodes: Seq<NodeData<P::Node>>,
    cur: int,
    edges: Seq<(P::Node, u64)>,
) -> Seq<NodeData<P::Node>>
    decreases edges.len(),
{
    if edges.len() == 0 {
        nodes
    } else {
        visit(p, visit_all(p, nodes, cur, edges.drop_last()), cur, edges.last())
    }
}

/// `nodes` with node `i` closed.
pub open spec fn closed_at<N>(nodes: Seq<NodeData<N>>, i: int) -> Seq<NodeData<N>> {
    nodes.update(i, NodeData { status: Status::Closed, ..nodes[i] })
}

/// One step of a running search: the open node that is served first is
/// closed; if it is a goal the search has found it, otherwise all steps out
/// of it are looked at. With no open node the search is exhausted. A search
/// that has ended stays as it is.
pub open spec fn step<P: SearchProblem>(p: &P, s: Search<P::Node>) -> Search<P::Node> {
    match s.phase {
        Phase::Running => match best_open(s.nodes) {
            None => Search { nodes: s.nodes, phase: Phase::Exhausted },
            Some(cur) => {
                let nodes = closed_at(s.nodes, cur);
                if p.is_end_spec(nodes[cur].state) {
                    Search { nodes: nodes, phase: Phase::Found(cur) }
                } else {
                    Search {
                        nodes: visit_all(p, nodes, cur, p.neighbors_spec(nodes[cur].state)),
                        phase: Phase::Running,
                    }
                }
            },
        },
        _ => s,
    }
}

/// The search on `p` after `n` steps.
pub open spec fn after<P: SearchProblem>(p: &P, n: nat) -> Search<P::Node>
    decreases n,
{
    if n == 0 {
        begin(p)
    } else {
        step(p, after(p, (n - 1) as nat))
    }
}

/// The states from the node without parent down to node `i`, each the
/// parent of the next. `fuel` bounds the number of states.
pub open spec fn trail<N>(nodes: Seq<NodeData<N>>, i: int, fuel: nat) -> Seq<N>
    decreases fuel,
{
    if fuel == 0 {
        Seq::empty()
    } else {
        match nodes[i].parent {
            None => seq![nodes[i].state],
            Some(q) => trail(nodes, q, (fuel - 1) as nat).push(nodes[i].state),
        }
    }
}

/// What a search that has ended hands back: the path to the node it found
/// and the cost of that node, or nothing.
pub open spec fn outcome<N>(s: Search<N>) -> Option<(Seq<N>, nat)> {
    match s.phase {
        Phase::Found(i) => Some((trail(s.nodes, i, s.nodes.len()), s.nodes[i].g)),
        _ => None,
    }
}

/// `r` is what the search on `p` hands back when it ends.
pub open spec fn is_outcome<P: SearchProblem>(p: &P, r: Option<(Seq<P::Node>, nat)>) -> bool {
    exists|n: nat| after(p, n).phase != Phase::Running && r == outcome(#[trigger] after(p, n))
}

/// The costs of the steps along `trail(nodes, i, fuel)`.
pub open spec fn tolls<N>(nodes: Seq<NodeData<N>>, i: int, fuel: nat) -> Seq<u64>
    decreases fuel,
{
    if fuel == 0 {
        Seq::empty()
    } else {
        match nodes[i].parent {
            None => Seq::empty(),
            Some(q) => tolls(nodes, q, (fuel - 1) as nat).push((nodes[i].g - nodes[q].g) as u64),
        }
    }
}

} // verus!
