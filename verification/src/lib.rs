//! A* search over a state space that the caller describes.
//!
//! `astar` searches a `SearchProblem`; `astar_r` searches one environment
//! between any two of its states, and `astar_t` a grid of cells.
//!
//! What a search hands back is fixed by `search::after`, the search as a
//! function of the problem. `laws` proves of that function that a path it
//! hands back leads to a goal by steps that the problem offers, that it
//! hands back nothing only where no goal can be reached, and that it has one
//! outcome; `optimal` proves that the path is a cheapest one where the
//! estimate is consistent, and `level` what it costs on a grid without
//! walls. `upkeep` holds what is true of the nodes throughout a search, on
//! which these proofs and the search itself rest.

use crate::node::{DumbNode, Status};
use crate::optimal::{cheapest_of_all, consistent, law_found_path_is_cheapest};
use crate::upkeep::{
    closed_count, inv, lemma_begin, lemma_close, lemma_count_bound, lemma_depth_bound,
    lemma_settle, lemma_step, lemma_trail, lemma_visit, linked, search_inv,
};
use crate::laws::law_nothing_found_is_unreachable;
use crate::search::{after, is_outcome, outcome, step, trail, visit, visit_all, Phase};
use crate::state::{lemma_index_of, AstarState};
use std::collections::VecDeque;
use typed_arena::Arena;
use vstd::prelude::*;

pub mod frontier;
pub mod laws;
pub mod level;
pub mod node;
pub mod node_wrapper;
pub mod optimal;
pub mod reuse;
pub mod reverse_ord;
pub mod search;
pub mod state;
pub mod two_dim;
pub mod upkeep;
pub mod wrap;

pub use crate::reuse::{astar_r, ReusableSearchProblem};
pub use crate::two_dim::{astar_t, TwoDimSearchProblem};

verus! {

/// A state space to search: where to begin, what counts as the goal, an
/// estimate of what is left to it, and which states follow a state at which
/// cost.
///
/// Each method comes with a function that says what it returns. An
/// implementation gives these functions and proves its methods against them;
/// as they stand here they say nothing.
pub trait SearchProblem {
    /// A state. A search keeps one copy of each state it meets.
    type Node;

    /// The state the search begins at.
    open spec fn start_spec(&self) -> Self::Node {
        arbitrary()
    }

    /// Whether `node` is a goal.
    open spec fn is_end_spec(&self, node: Self::Node) -> bool {
        arbitrary()
    }

    /// The estimate of the cost from `node` to a goal.
    open spec fn heuristic_spec(&self, node: Self::Node) -> u64 {
        arbitrary()
    }

    /// The states that follow `node`, each with the cost of the step.
    open spec fn neighbors_spec(&self, node: Self::Node) -> Seq<(Self::Node, u64)> {
        arbitrary()
    }

    /// The fingerprint of `node`, by which the search tells states apart.
    open spec fn key_spec(&self, node: Self::Node) -> u64 {
        arbitrary()
    }

    fn start(&self) -> (node: Self::Node)
        ensures
            node == self.start_spec(),
    ;

    fn is_end(&self, node: &Self::Node) -> (b: bool)
        ensures
            b == self.is_end_spec(*node),
    ;

    fn heuristic(&self, node: &Self::Node) -> (h: u64)
        ensures
            h == self.heuristic_spec(*node),
    ;

    fn neighbors(&self, node: &Self::Node) -> (v: Vec<(Self::Node, u64)>)
        ensures
            v@ == self.neighbors_spec(*node),
    ;

    fn key(&self, node: &Self::Node) -> (k: u64)
        ensures
            k == self.key_spec(*node),
    ;

    /// How many states a path is expected to hold, where that is known. It
    /// serves to size the buffer of the path and changes no result. A
    /// problem that does not say knows no estimate.
    fn estimate_length(&self) -> (n: Option<u32>)
        default_ensures
            n is None,
    {
        None
    }
}

/// No two states have the same fingerprint.
pub open spec fn fingerprints_tell_apart<P: SearchProblem>(p: &P) -> bool {
    forall|a: P::Node, b: P::Node| #[trigger] p.key_spec(a) == #[trigger] p.key_spec(b) ==> a == b
}

/// `path` leads from the start of `p` along steps that `p` offers, the step
/// from `path[i]` to `path[i + 1]` at the cost `costs[i]`.
pub open spec fn is_route<P: SearchProblem>(p: &P, path: Seq<P::Node>, costs: Seq<u64>) -> bool {
    &&& path.len() == costs.len() + 1
    &&& path[0] == p.start_spec()
    &&& forall|i: int|
        0 <= i < costs.len() ==> p.neighbors_spec(path[i]).contains(
            (path[i + 1], #[trigger] costs[i]),
        )
}

/// The sum of `costs`.
pub open spec fn total(costs: Seq<u64>) -> nat
    decreases costs.len(),
{
    if costs.len() == 0 {
        0
    } else {
        total(costs.drop_last()) + costs.last() as nat
    }
}

/// `typed_arena::Arena`, which keeps the states of a search in place: a
/// value that was put into it stays where it is until the arena is dropped.
#[verifier::external_type_specification]
#[verifier::external_body]
#[verifier::reject_recursive_types(T)]
pub struct ExArena<T>(typed_arena::Arena<T>);

/// `typed_arena::Arena::new` makes an arena. Nothing is said of it: an
/// arena is only ever handed to `arena_alloc`.
pub assume_specification<T>[ Arena::<T>::new ]() -> (arena: Arena<T>);

/// `typed_arena::Arena::alloc` moves `value` into the arena and hands back
/// a reference to where it now is. The reference is good for as long as the
/// arena, and what it points to is `value`.
#[verifier::external_body]
fn arena_alloc<'a, T>(arena: &'a Arena<T>, value: T) -> (r: &'a T)
    ensures
        *r == value,
{
    arena.alloc(value)
}

/// `num_traits::Zero::zero` for `u128`: the number 0.
#[verifier::external_body]
fn zero_cost() -> (z: u128)
    ensures
        z == 0,
{
    num_traits::Zero::zero()
}

/// `num_traits::Zero::is_zero` for `u64`: whether `h` is 0.
#[verifier::external_body]
fn is_zero(h: &u64) -> (b: bool)
    ensures
        b == (*h == 0),
{
    num_traits::Zero::is_zero(h)
}

/// What `astar` hands back, as a value.
pub open spec fn found<N>(r: Option<(VecDeque<N>, u128)>) -> Option<(Seq<N>, nat)> {
    match r {
        Some((path, cost)) => Some((path@, cost as nat)),
        None => None,
    }
}

/// Looks at one step out of the closed node `cur`: the step leads to
/// `neighbor` and costs `cost`.
fn visit_neighbor<'a, S: SearchProblem>(
    s: &S,
    states: &'a Arena<S::Node>,
    st: &mut AstarState<'a, S::Node>,
    cur: usize,
    neighbor: S::Node,
    cost: u64,
    Ghost(depth): Ghost<Seq<nat>>,
    Ghost(k): Ghost<int>,
) where S::Node: Copy
    requires
        fingerprints_tell_apart(s),
        old(st).wf(),
        inv(s, old(st)@, depth, Some(cur as int), k),
        0 <= k < s.neighbors_spec(old(st)@[cur as int].state).len(),
        s.neighbors_spec(old(st)@[cur as int].state)[k] == (neighbor, cost),
    ensures
        final(st).wf(),
        final(st)@ == visit(s, old(st)@, cur as int, (neighbor, cost)),
{
    let ghost before = st@;
    proof {
        st.lemma_wf();
        lemma_depth_bound(s, before, depth, Some(cur as int), k, cur as int);
    }
    let neighbor_state = arena_alloc(states, neighbor);
    let key = s.key(neighbor_state);
    let id = DumbNode(neighbor_state, key);
    let i = match st.find(&id) {
        Some(i) => {
            proof {
                assert(linked(s, before, depth, i as int));
            }
            i
        },
        None => {
            let i = st.create(id);
            proof {
                st.lemma_wf();
                lemma_index_of(st@, key, i as int);
            }
            i
        },
    };
    let node = st.node(i);
    let status = node.status;
    let old_g = node.g();
    let old_h = node.h();
    if status != Status::Closed {
        let ng = st.node(cur).g() + cost as u128;
        if status == Status::Unvisited || ng < old_g {
            let h = if is_zero(&old_h) {
                s.heuristic(neighbor_state)
            } else {
                old_h
            };
            st.relax(i, cur, ng, h);
        }
    }
}

/// Searches `s` for a cheapest path from its start to a goal: open nodes
/// are closed in the order of their cost plus heuristic, and the steps out
/// of each closed node relax the nodes they lead to. Hands back the states
/// of the path, the start first and the goal last, and its cost; or
/// nothing where no path leads to a goal.
pub fn astar<S: SearchProblem>(s: &S) -> (r: Option<(VecDeque<S::Node>, u128)>) where
    S::Node: Copy,

    requires
        fingerprints_tell_apart(s),
    ensures
        is_outcome(s, found(r)),
        match r {
            Some((path, cost)) => exists|costs: Seq<u64>| #[trigger]
                is_route(s, path@, costs) && s.is_end_spec(path@.last()) && cost == total(costs),
            None => forall|path: Seq<S::Node>, costs: Seq<u64>| #[trigger]
                is_route(s, path, costs) ==> !s.is_end_spec(path.last()),
        },
        consistent(s) ==> (r matches Some((_, cost)) ==> cheapest_of_all(s, cost as nat)),
{
    let states: Arena<S::Node> = Arena::new();
    let mut st: AstarState<S::Node> = AstarState::new();

    let start_state = arena_alloc(&states, s.start());
    let start_h = s.heuristic(start_state);
    st.add(DumbNode(start_state, s.key(start_state)), zero_cost(), start_h as u128);

    let ghost mut steps: nat = 0;
    let ghost mut depth: Seq<nat> = seq![0nat];
    proof {
        lemma_begin(s);
    }
    let mut goal: Option<usize> = None;
    let mut running = true;
    while running
        invariant
            fingerprints_tell_apart(s),
            st.wf(),
            st@ == after(s, steps).nodes,
            search_inv(s, after(s, steps), depth),
            running ==> after(s, steps).phase == Phase::Running && goal is None,
            !running ==> match goal {
                Some(i) => after(s, steps).phase == Phase::Found(i as int),
                None => after(s, steps).phase == Phase::Exhausted,
            },
        decreases
                (if running {
                    usize::MAX - closed_count(st@) + 1
                } else {
                    0
                }),
    {
        let ghost before = st@;
        proof {
            st.lemma_wf();
            lemma_count_bound(before, 0);
        }
        match st.pop() {
            None => {
                running = false;
                proof {
                    depth = lemma_step(s, after(s, steps), depth);
                    steps = steps + 1;
                }
            },
            Some(cur) => {
                proof {
                    lemma_close(s, before, depth, cur as int);
                }
                let node_state = st.node(cur).state;
                if s.is_end(node_state) {
                    goal = Some(cur);
                    running = false;
                    proof {
                        depth = lemma_step(s, after(s, steps), depth);
                        steps = steps + 1;
                    }
                } else {
                    let edges = s.neighbors(node_state);
                    let ghost closed = st@;
                    let ghost mut deeper = depth;
                    let mut k: usize = 0;
                    while k < edges.len()
                        invariant
                            fingerprints_tell_apart(s),
                            st.wf(),
                            0 <= k <= edges.len(),
                            cur < closed.len(),
                            edges@ == s.neighbors_spec(closed[cur as int].state),
                            st@ == visit_all(s, closed, cur as int, edges@.take(k as int)),
                            inv(s, st@, deeper, Some(cur as int), k as int),
                            st@[cur as int] == closed[cur as int],
                            closed_count(st@) == closed_count(closed),
                        decreases edges.len() - k,
                    {
                        let (neighbor, cost) = edges[k];
                        let ghost mid = st@;
                        visit_neighbor(
                            s,
                            &states,
                            &mut st,
                            cur,
                            neighbor,
                            cost,
                            Ghost(deeper),
                            Ghost(k as int),
                        );
                        proof {
                            deeper = lemma_visit(s, mid, deeper, cur as int, k as int);
                            assert(edges@.take(k + 1).drop_last() =~= edges@.take(k as int));
                        }
                        k = k + 1;
                    }
                    proof {
                        assert(edges@.take(edges.len() as int) =~= edges@);
                        lemma_settle(s, st@, deeper, cur as int);
                        depth = deeper;
                        steps = steps + 1;
                    }
                }
            },
        }
    }
    let ghost nodes = st@;
    match goal {
        None => {
            proof {
                assert forall|path: Seq<S::Node>, costs: Seq<u64>| #[trigger]
                    is_route(s, path, costs) implies !s.is_end_spec(path.last()) by {
                    law_nothing_found_is_unreachable(s, path, costs);
                }
            }
            None
        },
        Some(last) => {
            let cost = st.node(last).g();
            let mut path = match s.estimate_length() {
                Some(n) => {
                    // A path holds no state twice, so never more than there
                    // are nodes.
                    let room = if (n as usize) < st.len() {
                        n as usize
                    } else {
                        st.len()
                    };
                    VecDeque::with_capacity(room)
                },
                None => VecDeque::new(),
            };
            let ghost fuel = nodes.len();
            let mut at = last;
            path.push_front(*st.node(at).state);
            let mut up = st.node(at).parent;
            proof {
                lemma_depth_bound(s, nodes, depth, Some(last as int), 0, last as int);
                lemma_trail(s, nodes, depth, Some(last as int), 0, last as int, fuel);
            }
            while up.is_some()
                invariant
                    nodes == st@,
                    fuel == nodes.len(),
                    inv(s, nodes, depth, Some(last as int), 0),
                    at < nodes.len(),
                    match up {
                        Some(q) => nodes[at as int].parent == Some(q as int),
                        None => nodes[at as int].parent is None,
                    },
                    trail(nodes, last as int, fuel) == trail(nodes, at as int, fuel).drop_last()
                        + path@,
                decreases depth[at as int],
            {
                let ghost below = at;
                at = up.unwrap();
                proof {
                    assert(linked(s, nodes, depth, below as int));
                    lemma_depth_bound(s, nodes, depth, Some(last as int), 0, below as int);
                    lemma_trail(s, nodes, depth, Some(last as int), 0, at as int, fuel);
                    lemma_trail(
                        s,
                        nodes,
                        depth,
                        Some(last as int),
                        0,
                        at as int,
                        (fuel - 1) as nat,
                    );
                }
                path.push_front(*st.node(at).state);
                up = st.node(at).parent;
            }
            proof {
                if consistent(s) {
                    assert forall|other: Seq<S::Node>, costs: Seq<u64>| #[trigger]
                        is_route(s, other, costs) && s.is_end_spec(other.last()) implies cost
                        <= total(costs) by {
                        law_found_path_is_cheapest(s, path@, cost as nat, other, costs);
                    }
                }
            }
            Some((path, cost))
        },
    }
}

} // verus!
