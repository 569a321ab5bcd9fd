use crate::laws::law_one_outcome;
use crate::optimal::{cheapest_of_all, consistent};
use crate::search::is_outcome;
use crate::{astar, found, is_route, total, SearchProblem};
use std::collections::VecDeque;
use vstd::prelude::*;

verus! {

/// A state space without a start and a goal of its own: one environment
/// that is searched many times, each time between another pair of states.
///
/// As in `SearchProblem`, each method comes with a function that says what
/// it returns.
pub trait ReusableSearchProblem {
    type Node;

    /// The estimate of the cost from `node` to `end`.
    open spec fn heuristic_spec(&self, node: Self::Node, end: Self::Node) -> u64 {
        arbitrary()
    }

    /// The states that follow `node`, each with the cost of the step.
    open spec fn neighbors_spec(&self, node: Self::Node) -> Seq<(Self::Node, u64)> {
        arbitrary()
    }

    /// The fingerprint of `node`.
    open spec fn key_spec(&self, node: Self::Node) -> u64 {
        arbitrary()
    }

    fn heuristic(&self, node: &Self::Node, end: &Self::Node) -> (h: u64)
        ensures
            h == self.heuristic_spec(*node, *end),
    ;

    fn neighbors(&self, node: &Self::Node) -> (v: Vec<(Self::Node, u64)>)
        ensures
            v@ == self.neighbors_spec(*node),
    ;

    fn key(&self, node: &Self::Node) -> (k: u64)
        ensures
            k == self.key_spec(*node),
    ;

    /// How many states a path from `start` to `end` is expected to hold,
    /// where that is known. An environment that does not say knows no
    /// estimate.
    fn estimate_length(&self, start: &Self::Node, end: &Self::Node) -> (n: Option<u32>)
        default_ensures
            n is None,
    {
        None
    }

    /// The query for a path from `start` to `end`: a search problem that
    /// shares with other queries nothing but this environment.
    fn search(&self, start: Self::Node, end: Self::Node) -> (query: ReusableSearchProblemWrapper<
        '_,
        Self,
    >) where Self: Sized
        ensures
            query == (ReusableSearchProblemWrapper { start: start, end: end, rsp: self }),
    {
        ReusableSearchProblemWrapper { start: start, end: end, rsp: self }
    }
}

/// No two states of `p` have the same fingerprint.
pub open spec fn states_tell_apart<P: ReusableSearchProblem>(p: &P) -> bool {
    forall|a: P::Node, b: P::Node| #[trigger] p.key_spec(a) == #[trigger] p.key_spec(b) ==> a == b
}

/// An environment with a start and a goal: one query. Each query is a
/// search problem of its own and shares nothing with another but the
/// environment.
pub struct ReusableSearchProblemWrapper<'a, Rsp: ReusableSearchProblem> {
    pub start: Rsp::Node,
    pub end: Rsp::Node,
    pub rsp: &'a Rsp,
}

impl<'a, Rsp: ReusableSearchProblem> SearchProblem for ReusableSearchProblemWrapper<'a, Rsp> where
    Rsp::Node: Copy,
 {
    type Node = Rsp::Node;

    open spec fn start_spec(&self) -> Rsp::Node {
        self.start
    }

    /// The goal is the state with the fingerprint of `end`.
    open spec fn is_end_spec(&self, node: Rsp::Node) -> bool {
        self.rsp.key_spec(node) == self.rsp.key_spec(self.end)
    }

    open spec fn heuristic_spec(&self, node: Rsp::Node) -> u64 {
        self.rsp.heuristic_spec(node, self.end)
    }

    open spec fn neighbors_spec(&self, node: Rsp::Node) -> Seq<(Rsp::Node, u64)> {
        self.rsp.neighbors_spec(node)
    }

    open spec fn key_spec(&self, node: Rsp::Node) -> u64 {
        self.rsp.key_spec(node)
    }

    fn start(&self) -> Rsp::Node {
        self.start
    }

    fn is_end(&self, node: &Rsp::Node) -> bool {
        self.rsp.key(&self.end) == self.rsp.key(node)
    }

    fn heuristic(&self, node: &Rsp::Node) -> u64 {
        self.rsp.heuristic(node, &self.end)
    }

    fn neighbors(&self, node: &Rsp::Node) -> Vec<(Rsp::Node, u64)> {
        self.rsp.neighbors(node)
    }

    fn key(&self, node: &Rsp::Node) -> u64 {
        self.rsp.key(node)
    }

    /// The estimate of the environment for the start and the goal of this
    /// query.
    fn estimate_length(&self) -> (n: Option<u32>)
        ensures
            call_ensures(Rsp::estimate_length, (self.rsp, &self.start, &self.end), n),
    {
        self.rsp.estimate_length(&self.start, &self.end)
    }
}

/// Searches the environment `s` for a cheapest path from `start` to `end`.
/// Hands back the states of the path, `start` first and `end` last, and its
/// cost; or nothing where no path leads from one to the other.
pub fn astar_r<S: ReusableSearchProblem>(s: &S, start: S::Node, end: S::Node) -> (r: Option<
    (VecDeque<S::Node>, u128),
>) where S::Node: Copy
    requires
        states_tell_apart(s),
    ensures
        is_outcome(&(ReusableSearchProblemWrapper { start: start, end: end, rsp: s }), found(r)),
        match r {
            Some((path, cost)) => exists|costs: Seq<u64>| #[trigger]
                is_route(
                    &(ReusableSearchProblemWrapper { start: start, end: end, rsp: s }),
                    path@,
                    costs,
                ) && path@.last() == end && cost == total(costs),
            None => forall|path: Seq<S::Node>, costs: Seq<u64>| #[trigger]
                is_route(
                    &(ReusableSearchProblemWrapper { start: start, end: end, rsp: s }),
                    path,
                    costs,
                ) ==> path.last() != end,
        },
        consistent(&(ReusableSearchProblemWrapper { start: start, end: end, rsp: s })) ==> (
        r matches Some((_, cost)) ==> cheapest_of_all(
            &(ReusableSearchProblemWrapper { start: start, end: end, rsp: s }),
            cost as nat,
        )),
{
    let rspw = s.search(start, end);
    astar(&rspw)
}

/// The same query has the same answer every time: what a search of the
/// environment `s` from `start` to `end` hands back does not depend on what
/// was searched before.
pub proof fn law_same_query_same_answer<S: ReusableSearchProblem>(
    s: &S,
    start: S::Node,
    end: S::Node,
    first: Option<(Seq<S::Node>, nat)>,
    second: Option<(Seq<S::Node>, nat)>,
) where S::Node: Copy
    requires
        is_outcome(&(ReusableSearchProblemWrapper { start: start, end: end, rsp: s }), first),
        is_outcome(&(ReusableSearchProblemWrapper { start: start, end: end, rsp: s }), second),
    ensures
        first == second,
{
    law_one_outcome(
        &(ReusableSearchProblemWrapper { start: start, end: end, rsp: s }),
        first,
        second,
    );
}

} // verus!
