use crate::frontier::{
    distinct, in_range, is_heap, lemma_heap_frame, pop_entry, precedes, push_entry, queued,
    resort_heap, views,
};
use crate::node::{DumbNode, Node, NodeData, Status};
use crate::wrap::WrappedNode;
use fnv::FnvHashMap;
use vstd::prelude::*;

verus! {

/// `fnv::FnvHasher`, the hasher of the registry.
#[verifier::external_type_specification]
#[verifier::external_body]
pub struct ExFnvHasher(fnv::FnvHasher);

/// `std::hash::BuildHasherDefault`, which makes the hashers of the
/// registry, each a `FnvHasher::default()`.
#[verifier::external_type_specification]
#[verifier::external_body]
#[verifier::reject_recursive_types(H)]
pub struct ExBuildHasherDefault<H>(std::hash::BuildHasherDefault<H>);

/// `HashMap::insert` on a map that hashes with `fnv::FnvHasher`. That hasher
/// starts from a fixed value and depends on nothing but the bytes written to
/// it, so with integer keys the map holds afterwards what it held before and,
/// under `k`, `v`.
#[verifier::external_body]
fn registry_insert(m: &mut FnvHashMap<u64, usize>, k: u64, v: usize)
    ensures
        final(m)@ == old(m)@.insert(k, v),
{
    m.insert(k, v);
}

/// `HashMap::get` on a map that hashes with `fnv::FnvHasher`: the value
/// that the map holds under `k`, if it holds one.
#[verifier::external_body]
fn registry_get<'m>(m: &'m FnvHashMap<u64, usize>, k: &u64) -> (r: Option<&'m usize>)
    ensures
        r == (if m@.contains_key(*k) {
            Some(&m@[*k])
        } else {
            None
        }),
{
    m.get(k)
}

/// No two nodes have the same fingerprint.
pub open spec fn distinct_keys<N>(nodes: Seq<NodeData<N>>) -> bool {
    forall|i: int, j: int|
        0 <= i < j < nodes.len() ==> (#[trigger] nodes[i]).key != (#[trigger] nodes[j]).key
}

/// Node `i` has the fingerprint `key`.
pub open spec fn has_key<N>(nodes: Seq<NodeData<N>>, key: u64, i: int) -> bool {
    0 <= i < nodes.len() && nodes[i].key == key
}

/// The index of the node with fingerprint `key`, if there is one.
pub open spec fn index_of<N>(nodes: Seq<NodeData<N>>, key: u64) -> Option<int> {
    if exists|i: int| has_key(nodes, key, i) {
        Some(choose|i: int| has_key(nodes, key, i))
    } else {
        None
    }
}

/// Node `i` is open.
pub open spec fn is_open<N>(nodes: Seq<NodeData<N>>, i: int) -> bool {
    0 <= i < nodes.len() && nodes[i].status == Status::Open
}

/// Node `i` is the open node that is served first.
pub open spec fn is_best_open<N>(nodes: Seq<NodeData<N>>, i: int) -> bool {
    is_open(nodes, i) && forall|j: int| is_open(nodes, j) ==> precedes(nodes, i, j)
}

/// The open node that is served first, if any node is open.
pub open spec fn best_open<N>(nodes: Seq<NodeData<N>>) -> Option<int> {
    if exists|i: int| is_best_open(nodes, i) {
        Some(choose|i: int| is_best_open(nodes, i))
    } else {
        None
    }
}

/// Where fingerprints are distinct, the node with a fingerprint is found
/// under it.
pub proof fn lemma_index_of<N>(nodes: Seq<NodeData<N>>, key: u64, i: int)
    requires
        distinct_keys(nodes),
        has_key(nodes, key, i),
    ensures
        index_of(nodes, key) == Some(i),
{
}

/// There is at most one open node that is served first.
pub proof fn lemma_best_open<N>(nodes: Seq<NodeData<N>>, i: int)
    requires
        is_best_open(nodes, i),
    ensures
        best_open(nodes) == Some(i),
{
}

/// The open nodes are the ones that have an entry in the frontier.
pub open spec fn open_are_queued<N>(nodes: Seq<NodeData<N>>, q: Seq<WrappedNode>) -> bool {
    forall|j: int| 0 <= j < nodes.len() ==> (is_open(nodes, j) <==> queued(q, j))
}

/// The open nodes stay the ones with an entry when no node but node `i`
/// changes sides, and node `i` is open exactly if it has an entry.
proof fn lemma_open_stay_queued<N>(
    before: Seq<NodeData<N>>,
    q0: Seq<WrappedNode>,
    after: Seq<NodeData<N>>,
    q1: Seq<WrappedNode>,
    i: int,
)
    requires
        open_are_queued(before, q0),
        forall|j: int|
            0 <= j < after.len() && j != i ==> j < before.len() && (is_open(after, j) <==> is_open(
                before,
                j,
            )) && (queued(q1, j) <==> queued(q0, j)),
        0 <= i < after.len() ==> (is_open(after, i) <==> queued(q1, i)),
    ensures
        open_are_queued(after, q1),
{
    assert forall|j: int| 0 <= j < after.len() implies (is_open(after, j) <==> queued(q1, j)) by {
        if j != i {
            assert(is_open(before, j) <==> queued(q0, j));
        }
    }
}

/// All that is known in one search: the nodes, the frontier of the open
/// ones, and the registry that finds a node by the fingerprint of its state.
pub struct AstarState<'a, N> {
    arena: Vec<Node<'a, N>>,
    queue: Vec<WrappedNode>,
    seen: FnvHashMap<u64, usize>,
}

impl<'a, N> View for AstarState<'a, N> {
    type V = Seq<NodeData<N>>;

    closed spec fn view(&self) -> Seq<NodeData<N>> {
        views(self.arena@)
    }
}

impl<'a, N> AstarState<'a, N> {
    /// The frontier holds each open node once and is in order; the registry
    /// holds each node under its fingerprint, and nothing else.
    pub closed spec fn wf(&self) -> bool {
        let nodes = self@;
        &&& in_range(self.queue@, nodes.len())
        &&& distinct(self.queue@)
        &&& is_heap(self.queue@, nodes)
        &&& open_are_queued(nodes, self.queue@)
        &&& forall|i: int|
            0 <= i < nodes.len() ==> self.seen@.contains_key((#[trigger] nodes[i]).key)
                && self.seen@[nodes[i].key] == i
        &&& forall|k: u64| #[trigger]
            self.seen@.contains_key(k) ==> has_key(nodes, k, self.seen@[k] as int)
    }

    /// What `wf` means for the nodes themselves: no two have the same
    /// fingerprint, and a `usize` counts them.
    pub proof fn lemma_wf(&self)
        requires
            self.wf(),
        ensures
            distinct_keys(self@),
            self@.len() <= usize::MAX,
    {
        assert(self@.len() == self.arena.len());
    }

    pub fn new() -> (s: AstarState<'a, N>)
        ensures
            s.wf(),
            s@ == Seq::<NodeData<N>>::empty(),
    {
        AstarState { arena: Vec::new(), queue: Vec::new(), seen: FnvHashMap::default() }
    }

    /// The number of nodes.
    pub fn len(&self) -> (n: usize)
        ensures
            n == self@.len(),
    {
        self.arena.len()
    }

    /// The node at index `i`.
    pub fn node(&self, i: usize) -> (n: &Node<'a, N>)
        requires
            i < self@.len(),
        ensures
            n@ == self@[i as int],
    {
        &self.arena[i]
    }

    /// The index of the node that stands for the state of `id`.
    pub fn find(&self, id: &DumbNode<'a, N>) -> (r: Option<usize>)
        requires
            self.wf(),
        ensures
            match r {
                Some(i) => index_of(self@, id.1) == Some(i as int),
                None => index_of(self@, id.1) is None,
            },
    {
        match registry_get(&self.seen, &id.1) {
            Some(i) => Some(*i),
            None => None,
        }
    }

    /// Whether the node that stands for the state of `id` is closed.
    pub fn is_closed(&self, id: &DumbNode<'a, N>) -> (b: bool)
        requires
            self.wf(),
        ensures
            b == (index_of(self@, id.1) matches Some(i) && self@[i].status == Status::Closed),
    {
        match self.find(id) {
            Some(i) => self.arena[i].status == Status::Closed,
            None => false,
        }
    }

    /// The node that stands for the state of `id`, if there is one and it
    /// is open.
    pub fn find_open(&self, id: &DumbNode<'a, N>) -> (r: Option<usize>)
        requires
            self.wf(),
        ensures
            match r {
                Some(i) => index_of(self@, id.1) == Some(i as int) && is_open(self@, i as int),
                None => !(index_of(self@, id.1) matches Some(i) && is_open(self@, i)),
            },
    {
        match self.find(id) {
            Some(i) => if self.arena[i].status == Status::Open {
                Some(i)
            } else {
                None
            },
            None => None,
        }
    }

    /// Registers a node for a state that has none yet. The node is
    /// unvisited: it is not in the frontier until it is relaxed.
    pub fn create(&mut self, id: DumbNode<'a, N>) -> (i: usize)
        requires
            old(self).wf(),
            index_of(old(self)@, id.1) is None,
        ensures
            final(self).wf(),
            final(self)@ == old(self)@.push(NodeData::unvisited(*id.0, id.1)),
            i == old(self)@.len(),
    {
        let i = self.arena.len();
        let key = id.1;
        let ghost fresh = NodeData::unvisited(*id.0, id.1);
        self.arena.push(Node::new(id));
        registry_insert(&mut self.seen, key, i);
        proof {
            let before = old(self)@;
            assert(self@ =~= before.push(fresh));
            lemma_heap_frame(self.queue@, before, self@);
            lemma_open_stay_queued(before, self.queue@, self@, self.queue@, i as int);
        }
        i
    }

    /// Creates a node from a state, a cost, and the cost plus a heuristic.
    /// The node is open: it is entered into the frontier. At no cost it is
    /// the node a search begins with.
    pub fn add(&mut self, id: DumbNode<'a, N>, cost: u128, heur_cost: u128) -> (i: usize)
        requires
            old(self).wf(),
            index_of(old(self)@, id.1) is None,
            cost <= heur_cost <= cost + u64::MAX,
        ensures
            final(self).wf(),
            final(self)@ == old(self)@.push(
                NodeData {
                    g: cost as nat,
                    f: heur_cost as nat,
                    ..NodeData::initial(*id.0, id.1, (heur_cost - cost) as nat)
                },
            ),
            i == old(self)@.len(),
    {
        let i = self.arena.len();
        let key = id.1;
        let ghost fresh = NodeData {
            g: cost as nat,
            f: heur_cost as nat,
            ..NodeData::initial(*id.0, id.1, (heur_cost - cost) as nat)
        };
        let mut node = Node::new_initial(id, (heur_cost - cost) as u64);
        node.set_g(cost);
        node.set_f(heur_cost);
        self.arena.push(node);
        registry_insert(&mut self.seen, key, i);
        proof {
            let before = old(self)@;
            assert(self@ =~= before.push(fresh));
            lemma_heap_frame(self.queue@, before, self@);
        }
        let ghost q0 = self.queue@;
        push_entry(&mut self.queue, &self.arena, WrappedNode::new(i));
        proof {
            lemma_open_stay_queued(old(self)@, q0, self@, self.queue@, i as int);
        }
        i
    }

    /// Gives node `i`, which is not closed, a new cost, heuristic and
    /// parent. An unvisited node becomes open and enters the frontier. An
    /// open one has its entry already, which now stands in the wrong place:
    /// the frontier is put in order anew from all its entries.
    pub fn relax(&mut self, i: usize, parent: usize, cost: u128, heuristic: u64)
        requires
            old(self).wf(),
            i < old(self)@.len(),
            old(self)@[i as int].status != Status::Closed,
            cost + heuristic <= u128::MAX,
        ensures
            final(self).wf(),
            final(self)@ == old(self)@.update(
                i as int,
                NodeData {
                    parent: Some(parent as int),
                    status: Status::Open,
                    g: cost as nat,
                    h: heuristic as nat,
                    f: (cost + heuristic) as nat,
                    ..old(self)@[i as int]
                },
            ),
    {
        let ghost before = old(self)@;
        let ghost q0 = self.queue@;
        let was_open = self.arena[i].status == Status::Open;
        self.arena[i].set_g(cost);
        self.arena[i].set_h(heuristic);
        self.arena[i].set_f(cost + heuristic as u128);
        self.arena[i].set_parent(parent);
        self.arena[i].status = Status::Open;
        assert(self@ =~= before.update(
            i as int,
            NodeData {
                parent: Some(parent as int),
                status: Status::Open,
                g: cost as nat,
                h: heuristic as nat,
                f: (cost + heuristic) as nat,
                ..before[i as int]
            },
        ));
        if was_open {
            resort_heap(&mut self.queue, &self.arena);
        } else {
            proof {
                assert(is_open(before, i as int) <==> queued(q0, i as int));
                lemma_heap_frame(q0, before, self@);
            }
            push_entry(&mut self.queue, &self.arena, WrappedNode::new(i));
        }
        proof {
            lemma_open_stay_queued(before, q0, self@, self.queue@, i as int);
        }
    }

    /// Removes from the open nodes the one with the smallest cost plus
    /// heuristic, and closes it.
    pub fn pop(&mut self) -> (r: Option<usize>)
        requires
            old(self).wf(),
        ensures
            final(self).wf(),
            match r {
                Some(i) => best_open(old(self)@) == Some(i as int) && final(self)@ == old(
                    self,
                )@.update(i as int, NodeData { status: Status::Closed, ..old(self)@[i as int] }),
                None => best_open(old(self)@) is None && final(self)@ == old(self)@,
            },
    {
        let ghost before = old(self)@;
        let ghost q0 = self.queue@;
        match pop_entry(&mut self.queue, &self.arena) {
            None => {
                assert forall|i: int| !is_best_open(before, i) by {
                    if is_open(before, i) {
                        assert(queued(q0, i));
                    }
                }
                None
            },
            Some(w) => {
                let i = w.node;
                self.arena[i].status = Status::Closed;
                proof {
                    assert(self@ =~= before.update(
                        i as int,
                        NodeData { status: Status::Closed, ..before[i as int] },
                    ));
                    assert(is_best_open(before, i as int)) by {
                        assert(is_open(before, i as int) <==> queued(q0, i as int));
                        assert forall|j: int| is_open(before, j) implies precedes(
                            before,
                            i as int,
                            j,
                        ) by {
                            assert(queued(q0, j));
                        }
                    }
                    lemma_best_open(before, i as int);
                    lemma_heap_frame(self.queue@, before, self@);
                    lemma_open_stay_queued(before, q0, self@, self.queue@, i as int);
                }
                Some(i)
            },
        }
    }
}

} // verus!
