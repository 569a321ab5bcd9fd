use crate::frontier::{key_at, precedes_at};
use crate::node::{by_low_key, Node};
use std::cmp::Ordering;
use vstd::prelude::*;

verus! {

/// An entry of the frontier: the index of an open node. Entries are ordered
/// by the key that the node has at the moment they are compared.
#[derive(Clone, Copy)]
pub struct WrappedNode {
    pub node: usize,
}

impl WrappedNode {
    pub fn new(node: usize) -> (w: WrappedNode)
        ensures
            w.node == node,
    {
        WrappedNode { node: node }
    }

    /// Two entries are of equal rank when their nodes have the same key.
    pub fn eq<'a, N>(&self, other: &WrappedNode, arena: &Vec<Node<'a, N>>) -> (b: bool)
        requires
            self.node < arena.len(),
            other.node < arena.len(),
        ensures
            b == (key_at(arena@, self.node) == key_at(arena@, other.node)),
    {
        arena[self.node].cost_with_heuristic == arena[other.node].cost_with_heuristic
    }

    pub fn partial_cmp<'a, N>(&self, other: &WrappedNode, arena: &Vec<Node<'a, N>>) -> (o: Option<
        Ordering,
    >)
        requires
            self.node < arena.len(),
            other.node < arena.len(),
        ensures
            o == Some(by_low_key(key_at(arena@, self.node), key_at(arena@, other.node))),
    {
        arena[self.node].partial_cmp(&arena[other.node])
    }

    /// Orders entries by the key of their nodes, the lower key being the
    /// greater entry.
    pub fn cmp<'a, N>(&self, other: &WrappedNode, arena: &Vec<Node<'a, N>>) -> (o: Ordering)
        requires
            self.node < arena.len(),
            other.node < arena.len(),
        ensures
            o == by_low_key(key_at(arena@, self.node), key_at(arena@, other.node)),
    {
        match self.partial_cmp(other, arena) {
            None => Ordering::Equal,
            Some(x) => x,
        }
    }

    /// Whether this entry is served no later than `other`. Entries of equal
    /// rank are served in the order in which their nodes were created.
    pub fn served_before<'a, N>(&self, other: &WrappedNode, arena: &Vec<Node<'a, N>>) -> (b: bool)
        requires
            self.node < arena.len(),
            other.node < arena.len(),
        ensures
            b == precedes_at(arena@, self.node, other.node),
    {
        match self.cmp(other, arena) {
            Ordering::Greater => true,
            Ordering::Less => false,
            Ordering::Equal => self.node <= other.node,
        }
    }
}

} // verus!
