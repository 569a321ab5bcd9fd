use crate::node::{Node, NodeData};
use crate::wrap::WrappedNode;
use vstd::prelude::*;
use vstd::seq_lib::{
    to_multiset_build, to_multiset_contains, to_multiset_remove, to_multiset_update,
};

verus! {

/// The nodes of an arena as values.
pub open spec fn views<'a, N>(arena: Seq<Node<'a, N>>) -> Seq<NodeData<N>> {
    arena.map_values(|n: Node<'a, N>| n@)
}

/// The priority key of the node at `i`.
pub open spec fn key_at<'a, N>(arena: Seq<Node<'a, N>>, i: usize) -> nat {
    arena[i as int]@.f
}

/// Node `a` is served no later than node `b`: the lower `f` goes first,
/// and of two equal ones the node that was created first.
pub open spec fn precedes<N>(nodes: Seq<NodeData<N>>, a: int, b: int) -> bool {
    nodes[a].f < nodes[b].f || (nodes[a].f == nodes[b].f && a <= b)
}

/// `precedes` on the nodes of an arena.
pub open spec fn precedes_at<'a, N>(arena: Seq<Node<'a, N>>, a: usize, b: usize) -> bool {
    precedes(views(arena), a as int, b as int)
}

/// The slot above slot `j` in the heap.
pub open spec fn above(j: int) -> int {
    (j - 1) / 2
}

/// Every entry names a node below `n`.
pub open spec fn in_range(q: Seq<WrappedNode>, n: nat) -> bool {
    forall|k: int| 0 <= k < q.len() ==> (#[trigger] q[k]).node < n
}

/// No node is entered twice.
pub open spec fn distinct(q: Seq<WrappedNode>) -> bool {
    forall|i: int, j: int| 0 <= i < j < q.len() ==> (#[trigger] q[i]).node != (#[trigger] q[j]).node
}

/// Node `i` has an entry.
pub open spec fn queued(q: Seq<WrappedNode>, i: int) -> bool {
    exists|k: int| 0 <= k < q.len() && (#[trigger] q[k]).node == i
}

/// Two queues hold the same entries, each as often in one as in the
/// other.
pub open spec fn same_entries(q1: Seq<WrappedNode>, q2: Seq<WrappedNode>) -> bool {
    &&& q1.to_multiset() == q2.to_multiset()
    &&& q1.len() == q2.len()
    &&& distinct(q1) ==> distinct(q2)
    &&& forall|i: int| queued(q1, i) <==> queued(q2, i)
}

/// The entry in slot `j` is served no earlier than the one above it.
pub open spec fn settled<N>(q: Seq<WrappedNode>, nodes: Seq<NodeData<N>>, j: int) -> bool {
    precedes(nodes, q[above(j)].node as int, q[j].node as int)
}

/// Every slot whose upper neighbour is at `lo` or beyond is settled.
pub open spec fn heap_from<N>(q: Seq<WrappedNode>, nodes: Seq<NodeData<N>>, lo: int) -> bool {
    forall|j: int| 0 < j < q.len() && above(j) >= lo ==> #[trigger] settled(q, nodes, j)
}

/// The queue is a binary heap whose first entry is served first.
pub open spec fn is_heap<N>(q: Seq<WrappedNode>, nodes: Seq<NodeData<N>>) -> bool {
    heap_from(q, nodes, 0)
}

/// `q` with the entries of slots `i` and `j` exchanged.
pub open spec fn exchanged(q: Seq<WrappedNode>, i: int, j: int) -> Seq<WrappedNode> {
    q.update(i, q[j]).update(j, q[i])
}

/// Exchanging two entries changes neither which nodes are entered nor how
/// often.
pub proof fn lemma_exchange_keeps_entries(q: Seq<WrappedNode>, i: int, j: int)
    requires
        0 <= i < q.len(),
        0 <= j < q.len(),
    ensures
        same_entries(q, exchanged(q, i, j)),
        forall|n: nat| in_range(q, n) ==> in_range(exchanged(q, i, j), n),
{
    let r = exchanged(q, i, j);
    assert(r.to_multiset() == q.to_multiset()) by {
        let half = q.update(i, q[j]);
        to_multiset_update(q, i, q[j]);
        to_multiset_update(half, j, q[i]);
        to_multiset_contains(q, q[i]);
        to_multiset_contains(q, q[j]);
        assert(q.contains(q[i]));
        assert(q.contains(q[j]));
        assert(r.to_multiset() =~= q.to_multiset());
    }
    assert forall|x: int| queued(q, x) <==> queued(r, x) by {
        if queued(q, x) {
            let k = choose|k: int| 0 <= k < q.len() && (#[trigger] q[k]).node == x;
            let k2 = if k == i {
                j
            } else if k == j {
                i
            } else {
                k
            };
            assert(r[k2].node == x);
        }
    }
}

/// Exchanges the entries of two slots.
fn exchange(q: &mut Vec<WrappedNode>, i: usize, j: usize)
    requires
        i < old(q).len(),
        j < old(q).len(),
    ensures
        final(q)@ == exchanged(old(q)@, i as int, j as int),
        final(q)@.to_multiset() == old(q)@.to_multiset(),
{
    let a = q[i];
    let b = q[j];
    q[i] = b;
    q[j] = a;
    proof {
        lemma_exchange_keeps_entries(old(q)@, i as int, j as int);
    }
}

/// The entry in slot `j` is served no earlier than the one in slot `top`.
pub open spec fn under<N>(q: Seq<WrappedNode>, nodes: Seq<NodeData<N>>, top: int, j: int) -> bool {
    precedes(nodes, q[top].node as int, q[j].node as int)
}

/// Lets the entry in slot `start` sink until both entries below it are
/// served no earlier than it is.
fn sift_down<'a, N>(q: &mut Vec<WrappedNode>, arena: &Vec<Node<'a, N>>, start: usize)
    requires
        start < old(q).len(),
        in_range(old(q)@, arena@.len()),
        heap_from(old(q)@, views(arena@), start + 1),
    ensures
        final(q)@.to_multiset() == old(q)@.to_multiset(),
        same_entries(old(q)@, final(q)@),
        in_range(final(q)@, arena@.len()),
        heap_from(final(q)@, views(arena@), start as int),
{
    let n = q.len();
    let ghost nodes = views(arena@);
    let mut i = start;
    let mut at_rest = false;
    while !at_rest && i < n / 2
        invariant
            n == q.len(),
            start <= i < n,
            nodes == views(arena@),
            in_range(q@, arena@.len()),
            same_entries(old(q)@, q@),
            forall|j: int|
                0 < j < n && above(j) >= start && above(j) != i ==> #[trigger] settled(
                    q@,
                    nodes,
                    j,
                ),
            i != start ==> above(i as int) >= start,
            i != start ==> forall|j: int|
                0 < j < n && above(j) == i ==> #[trigger] under(q@, nodes, above(i as int), j),
            at_rest ==> forall|j: int|
                0 < j < n && above(j) == i ==> #[trigger] settled(q@, nodes, j),
        decreases
                (if at_rest {
                    0
                } else {
                    n - i
                }),
    {
        let left = 2 * i + 1;
        let right = left + 1;
        let mut best = left;
        if right < n && q[right].served_before(&q[left], arena) {
            best = right;
        }
        let ghost q0 = q@;
        if q[i].served_before(&q[best], arena) {
            at_rest = true;
        } else {
            exchange(q, i, best);
            proof {
                let q1 = q@;
                lemma_exchange_keeps_entries(q0, i as int, best as int);
                assert forall|j: int|
                    0 < j < n && above(j) >= start && above(j) != best implies #[trigger] settled(
                    q1,
                    nodes,
                    j,
                ) by {
                    if j == i {
                        assert(under(q0, nodes, above(i as int), best as int));
                    } else if above(j) != i {
                        assert(settled(q0, nodes, j));
                    }
                }
                assert forall|j: int| 0 < j < n && above(j) == best implies #[trigger] under(
                    q1,
                    nodes,
                    above(best as int),
                    j,
                ) by {
                    assert(settled(q0, nodes, j));
                }
            }
            i = best;
        }
    }
}

/// Lets the entry in slot `start` rise until the entry above it is served
/// no later than it is.
fn sift_up<'a, N>(q: &mut Vec<WrappedNode>, arena: &Vec<Node<'a, N>>, start: usize)
    requires
        start < old(q).len(),
        in_range(old(q)@, arena@.len()),
        forall|j: int|
            0 < j < old(q).len() && j != start ==> #[trigger] settled(old(q)@, views(arena@), j),
        start > 0 ==> forall|j: int|
            0 < j < old(q).len() && above(j) == start ==> #[trigger] under(
                old(q)@,
                views(arena@),
                above(start as int),
                j,
            ),
    ensures
        final(q)@.to_multiset() == old(q)@.to_multiset(),
        same_entries(old(q)@, final(q)@),
        in_range(final(q)@, arena@.len()),
        is_heap(final(q)@, views(arena@)),
{
    let n = q.len();
    let ghost nodes = views(arena@);
    let mut i = start;
    let mut at_rest = false;
    while !at_rest && i > 0
        invariant
            n == q.len(),
            i < n,
            nodes == views(arena@),
            in_range(q@, arena@.len()),
            same_entries(old(q)@, q@),
            forall|j: int| 0 < j < n && j != i ==> #[trigger] settled(q@, nodes, j),
            i > 0 ==> forall|j: int|
                0 < j < n && above(j) == i ==> #[trigger] under(q@, nodes, above(i as int), j),
            at_rest && i > 0 ==> settled(q@, nodes, i as int),
        decreases
                (if at_rest {
                    0
                } else {
                    i + 1
                }),
    {
        let up = (i - 1) / 2;
        let ghost q0 = q@;
        if q[up].served_before(&q[i], arena) {
            at_rest = true;
        } else {
            exchange(q, up, i);
            proof {
                let q1 = q@;
                lemma_exchange_keeps_entries(q0, up as int, i as int);
                assert forall|j: int| 0 < j < n && j != up implies #[trigger] settled(
                    q1,
                    nodes,
                    j,
                ) by {
                    if above(j) == i {
                        assert(under(q0, nodes, above(i as int), j));
                    } else if j != i {
                        assert(settled(q0, nodes, j));
                    }
                }
                if up > 0 {
                    assert(settled(q0, nodes, up as int));
                    assert forall|j: int| 0 < j < n && above(j) == up implies #[trigger] under(
                        q1,
                        nodes,
                        above(up as int),
                        j,
                    ) by {
                        if j != i {
                            assert(settled(q0, nodes, j));
                        }
                    }
                }
            }
            i = up;
        }
    }
}

/// In a heap the first entry is served no later than any other.
pub proof fn lemma_first_is_best<N>(q: Seq<WrappedNode>, nodes: Seq<NodeData<N>>, k: int)
    requires
        is_heap(q, nodes),
        0 <= k < q.len(),
    ensures
        under(q, nodes, 0, k),
    decreases k,
{
    if k > 0 {
        lemma_first_is_best(q, nodes, above(k));
        assert(settled(q, nodes, k));
    }
}

/// A heap stays one when nothing changes but nodes that have no entry, or
/// parts of a node that the order does not look at.
pub proof fn lemma_heap_frame<N>(
    q: Seq<WrappedNode>,
    before: Seq<NodeData<N>>,
    after: Seq<NodeData<N>>,
)
    requires
        is_heap(q, before),
        forall|k: int|
            0 <= k < q.len() ==> before[(#[trigger] q[k]).node as int].f
                == after[q[k].node as int].f,
    ensures
        is_heap(q, after),
{
    assert forall|j: int| 0 < j < q.len() && above(j) >= 0 implies #[trigger] settled(
        q,
        after,
        j,
    ) by {
        assert(settled(q, before, j));
    }
}

/// Puts the queue back in order after the keys of its nodes have changed:
/// the heap is built anew from the entries it holds.
pub fn resort_heap<'a, N>(q: &mut Vec<WrappedNode>, arena: &Vec<Node<'a, N>>)
    requires
        in_range(old(q)@, arena@.len()),
    ensures
        final(q)@.to_multiset() == old(q)@.to_multiset(),
        same_entries(old(q)@, final(q)@),
        in_range(final(q)@, arena@.len()),
        is_heap(final(q)@, views(arena@)),
{
    let n = q.len();
    let mut i = n / 2;
    while i > 0
        invariant
            n == q.len(),
            i <= n / 2,
            in_range(q@, arena@.len()),
            same_entries(old(q)@, q@),
            heap_from(q@, views(arena@), i as int),
        decreases i,
    {
        i = i - 1;
        sift_down(q, arena, i);
    }
}

/// Enters node `w.node` into the heap.
pub fn push_entry<'a, N>(q: &mut Vec<WrappedNode>, arena: &Vec<Node<'a, N>>, w: WrappedNode)
    requires
        w.node < arena@.len(),
        in_range(old(q)@, arena@.len()),
        is_heap(old(q)@, views(arena@)),
    ensures
        final(q)@.to_multiset() == old(q)@.to_multiset().insert(w),
        final(q)@.len() == old(q)@.len() + 1,
        forall|i: int| queued(final(q)@, i) <==> queued(old(q)@, i) || i == w.node,
        distinct(old(q)@) && !queued(old(q)@, w.node as int) ==> distinct(final(q)@),
        in_range(final(q)@, arena@.len()),
        is_heap(final(q)@, views(arena@)),
{
    let ghost q0 = q@;
    q.push(w);
    let ghost q1 = q@;
    proof {
        to_multiset_build(q0, w);
        assert forall|j: int| 0 < j < q1.len() && j != q1.len() - 1 implies #[trigger] settled(
            q1,
            views(arena@),
            j,
        ) by {
            assert(settled(q0, views(arena@), j));
        }
        assert forall|i: int| queued(q1, i) <==> queued(q0, i) || i == w.node by {
            if queued(q0, i) {
                let k = choose|k: int| 0 <= k < q0.len() && (#[trigger] q0[k]).node == i;
                assert(q1[k].node == i);
            }
            if i == w.node {
                assert(q1[q1.len() - 1].node == i);
            }
        }
    }
    sift_up(q, arena, q.len() - 1);
}

/// Takes out the entry that is served first.
pub fn pop_entry<'a, N>(q: &mut Vec<WrappedNode>, arena: &Vec<Node<'a, N>>) -> (r: Option<
    WrappedNode,
>)
    requires
        in_range(old(q)@, arena@.len()),
        is_heap(old(q)@, views(arena@)),
    ensures
        old(q)@.len() == 0 ==> r is None && final(q)@ == old(q)@,
        old(q)@.len() > 0 ==> r is Some && final(q)@.len() == old(q)@.len() - 1,
        r matches Some(w) ==> {
            &&& w == old(q)@[0]
            &&& final(q)@.to_multiset() == old(q)@.to_multiset().remove(w)
            &&& queued(old(q)@, w.node as int)
            &&& forall|i: int|
                queued(old(q)@, i) ==> precedes(views(arena@), w.node as int, i)
            &&& forall|i: int| queued(final(q)@, i) ==> queued(old(q)@, i)
            &&& distinct(old(q)@) ==> distinct(final(q)@) && forall|i: int|
                queued(final(q)@, i) <==> queued(old(q)@, i) && i != w.node
        },
        in_range(final(q)@, arena@.len()),
        is_heap(final(q)@, views(arena@)),
{
    let n = q.len();
    if n == 0 {
        return None;
    }
    let ghost q0 = q@;
    let ghost nodes = views(arena@);
    let top = q[0];
    let last = q.pop().unwrap();
    let ghost rest = q@;
    proof {
        assert(rest =~= q0.remove(n - 1));
        to_multiset_remove(q0, n - 1);
        assert forall|i: int| queued(q0, i) implies precedes(nodes, top.node as int, i) by {
            let k = choose|k: int| 0 <= k < q0.len() && (#[trigger] q0[k]).node == i;
            lemma_first_is_best(q0, nodes, k);
        }
    }
    if n > 1 {
        q[0] = last;
        let ghost q1 = q@;
        proof {
            assert(q1.to_multiset() == q0.to_multiset().remove(top)) by {
                to_multiset_update(rest, 0, last);
                to_multiset_contains(q0, last);
                to_multiset_contains(q0, top);
                assert(q0.contains(q0[n - 1]));
                assert(q0.contains(q0[0]));
                assert(q1.to_multiset() =~= q0.to_multiset().remove(top));
            }
            assert forall|j: int| 0 < j < q1.len() && above(j) >= 1 implies #[trigger] settled(
                q1,
                nodes,
                j,
            ) by {
                assert(settled(q0, nodes, j));
            }
            if distinct(q0) {
                assert forall|i: int| queued(q1, i) <==> queued(q0, i) && i != top.node by {
                    if queued(q0, i) && i != top.node {
                        let k = choose|k: int| 0 <= k < q0.len() && (#[trigger] q0[k]).node == i;
                        if k != n - 1 {
                            assert(q1[k].node == i);
                        }
                    }
                }
            }
        }
        sift_down(q, arena, 0);
    }
    Some(top)
}

} // verus!
