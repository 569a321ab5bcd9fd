use std::cmp::Ordering;
use vstd::prelude::*;

verus! {

/// Where a node stands in a search. A node goes from `Unvisited` to `Open`
/// to `Closed` and never back.
#[derive(Clone, Copy, PartialEq, Eq, Structural, Debug)]
pub enum Status {
    Unvisited,
    Open,
    Closed,
}

/// A state and the fingerprint under which it is registered. It stands for
/// the state wherever all that is asked is which node, if any, belongs to it.
pub struct DumbNode<'b, N>(pub &'b N, pub u64);

impl<'b, N> DumbNode<'b, N> {
    /// Two of them are the same when their fingerprints are.
    pub fn eq(&self, other: &DumbNode<'b, N>) -> (b: bool)
        ensures
            b == (self.1 == other.1),
    {
        self.1 == other.1
    }
}

/// A node as a value: what the contracts speak of.
pub struct NodeData<N> {
    pub state: N,
    /// The fingerprint of `state`.
    pub key: u64,
    /// The index of the node this one was reached from.
    pub parent: Option<int>,
    pub status: Status,
    /// The best known cost from the start.
    pub g: nat,
    /// The estimate of what is left to the goal.
    pub h: nat,
    /// The key the frontier orders by.
    pub f: nat,
}

impl<N> NodeData<N> {
    /// A node that nothing is known of yet but its state.
    pub open spec fn unvisited(state: N, key: u64) -> NodeData<N> {
        NodeData { state, key, parent: None, status: Status::Unvisited, g: 0, h: 0, f: 0 }
    }

    /// The node a search begins with: open, reached from nowhere at no
    /// cost, with `h` estimated to be left to the goal. Its key is that
    /// estimate.
    pub open spec fn initial(state: N, key: u64, h: nat) -> NodeData<N> {
        NodeData { state, key, parent: None, status: Status::Open, g: 0, h: h, f: h }
    }
}

/// One discovered state with what the search knows of it. The state lives
/// in an arena of its own; the parent is the index of another node.
pub struct Node<'a, N> {
    pub state: &'a N,
    pub key: u64,
    pub parent: Option<usize>,
    pub status: Status,
    pub cost: u128,
    pub heuristic: u64,
    pub cost_with_heuristic: u128,
}

impl<'a, N> View for Node<'a, N> {
    type V = NodeData<N>;

    open spec fn view(&self) -> NodeData<N> {
        NodeData {
            state: *self.state,
            key: self.key,
            parent: match self.parent {
                Some(p) => Some(p as int),
                None => None,
            },
            status: self.status,
            g: self.cost as nat,
            h: self.heuristic as nat,
            f: self.cost_with_heuristic as nat,
        }
    }
}

impl<'a, N> Node<'a, N> {
    /// The node a search begins with, for the start state `id` and the
    /// estimate `h` at it: open, at no cost, with `h` as its heuristic and
    /// as its key.
    pub fn new_initial(id: DumbNode<'a, N>, h: u64) -> (n: Node<'a, N>)
        ensures
            n@ == NodeData::initial(*id.0, id.1, h as nat),
    {
        Node {
            state: id.0,
            key: id.1,
            parent: None,
            status: Status::Open,
            cost: 0,
            heuristic: h,
            cost_with_heuristic: h as u128,
        }
    }

    /// A node for a state that was only just met.
    pub fn new(id: DumbNode<'a, N>) -> (n: Node<'a, N>)
        ensures
            n@ == NodeData::unvisited(*id.0, id.1),
    {
        Node {
            state: id.0,
            key: id.1,
            parent: None,
            status: Status::Unvisited,
            cost: 0,
            heuristic: 0,
            cost_with_heuristic: 0,
        }
    }

    pub fn g(&self) -> (g: u128)
        ensures
            g == self@.g,
    {
        self.cost
    }

    pub fn h(&self) -> (h: u64)
        ensures
            h == self@.h,
    {
        self.heuristic
    }

    pub fn set_g(&mut self, g: u128)
        ensures
            final(self)@ == (NodeData { g: g as nat, ..old(self)@ }),
    {
        self.cost = g;
    }

    pub fn set_f(&mut self, f: u128)
        ensures
            final(self)@ == (NodeData { f: f as nat, ..old(self)@ }),
    {
        self.cost_with_heuristic = f;
    }

    pub fn set_h(&mut self, h: u64)
        ensures
            final(self)@ == (NodeData { h: h as nat, ..old(self)@ }),
    {
        self.heuristic = h;
    }

    pub fn set_parent(&mut self, p: usize)
        ensures
            final(self)@ == (NodeData { parent: Some(p as int), ..old(self)@ }),
    {
        self.parent = Some(p);
    }

    /// Two nodes are the same node when they stand for the same state.
    pub fn eq(&self, other: &Node<'a, N>) -> (b: bool)
        ensures
            b == (self@.key == other@.key),
    {
        self.key == other.key
    }
}

/// How a node of priority key `f` stands to one of key `other_f`: the
/// smaller key is the greater node.
pub open spec fn by_low_key(f: nat, other_f: nat) -> Ordering {
    if f < other_f {
        Ordering::Greater
    } else if f > other_f {
        Ordering::Less
    } else {
        Ordering::Equal
    }
}

impl<'a, N> Node<'a, N> {
    /// Orders nodes by `f`, the cheaper node being the greater.
    pub fn cmp(&self, other: &Node<'a, N>) -> (o: Ordering)
        ensures
            o == by_low_key(self@.f, other@.f),
    {
        if self.cost_with_heuristic < other.cost_with_heuristic {
            Ordering::Greater
        } else if self.cost_with_heuristic > other.cost_with_heuristic {
            Ordering::Less
        } else {
            Ordering::Equal
        }
    }

    pub fn partial_cmp(&self, other: &Node<'a, N>) -> (o: Option<Ordering>)
        ensures
            o == Some(by_low_key(self@.f, other@.f)),
    {
        Some(self.cmp(other))
    }
}

} // verus!
