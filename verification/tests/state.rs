use astar::frontier::{pop_entry, push_entry, resort_heap};
use astar::node::{DumbNode, Node, Status};
use astar::state::AstarState;
use astar::wrap::WrappedNode;
use std::cmp::Ordering;
use typed_arena::Arena;

#[test]
fn new_state_has_no_nodes() {
    let mut st: AstarState<u32> = AstarState::new();
    assert_eq!(st.len(), 0);
    assert_eq!(st.pop(), None);
    assert_eq!(st.find(&DumbNode(&5, 5)), None);
    assert!(!st.is_closed(&DumbNode(&5, 5)));
    assert_eq!(st.find_open(&DumbNode(&5, 5)), None);
}

#[test]
fn added_node_is_open_and_found() {
    let states = Arena::new();
    let mut st = AstarState::new();
    let a: &u32 = states.alloc(40);
    let b: &u32 = states.alloc(41);
    assert_eq!(st.add(DumbNode(a, 40), 3, 10), 0);
    assert_eq!(st.add(DumbNode(b, 41), 0, 0), 1);
    assert_eq!(st.len(), 2);
    let n = st.node(0);
    assert_eq!(*n.state, 40);
    assert_eq!(n.key, 40);
    assert_eq!(n.parent, None);
    assert_eq!(n.status, Status::Open);
    assert_eq!(n.g(), 3);
    assert_eq!(n.h(), 7);
    assert_eq!(n.cost_with_heuristic, 10);
    assert_eq!(st.find(&DumbNode(b, 41)), Some(1));
    assert_eq!(st.find(&DumbNode(b, 42)), None);
    assert_eq!(st.find_open(&DumbNode(a, 40)), Some(0));
    assert!(!st.is_closed(&DumbNode(a, 40)));
}

#[test]
fn pop_closes_the_cheapest_open_node() {
    let states = Arena::new();
    let mut st = AstarState::new();
    for (i, f) in [9u128, 4, 7, 4, 12, 1].iter().enumerate() {
        let s: &usize = states.alloc(i);
        st.add(DumbNode(s, i as u64), 0, *f);
    }
    // keys 9 4 7 4 12 1: by key, and of the two 4s the one added first
    assert_eq!(st.pop(), Some(5));
    assert!(st.is_closed(&DumbNode(&5, 5)));
    assert_eq!(st.find_open(&DumbNode(&5, 5)), None);
    assert_eq!(st.node(5).status, Status::Closed);
    assert_eq!(st.pop(), Some(1));
    assert_eq!(st.pop(), Some(3));
    assert_eq!(st.pop(), Some(2));
    assert_eq!(st.pop(), Some(0));
    assert_eq!(st.pop(), Some(4));
    assert_eq!(st.pop(), None);
    assert_eq!(st.len(), 6);
}

#[test]
fn created_node_waits_to_be_relaxed() {
    let states = Arena::new();
    let mut st = AstarState::new();
    let a: &u8 = states.alloc(1);
    let b: &u8 = states.alloc(2);
    st.add(DumbNode(a, 1), 0, 5);
    assert_eq!(st.create(DumbNode(b, 2)), 1);
    assert_eq!(st.node(1).status, Status::Unvisited);
    assert_eq!(st.find(&DumbNode(b, 2)), Some(1));
    assert_eq!(st.find_open(&DumbNode(b, 2)), None);
    assert!(!st.is_closed(&DumbNode(b, 2)));
    st.relax(1, 0, 2, 1);
    let n = st.node(1);
    assert_eq!(n.status, Status::Open);
    assert_eq!(n.parent, Some(0));
    assert_eq!(n.g(), 2);
    assert_eq!(n.h(), 1);
    assert_eq!(n.cost_with_heuristic, 3);
    assert_eq!(st.find_open(&DumbNode(b, 2)), Some(1));
    assert_eq!(st.pop(), Some(1));
    assert_eq!(st.pop(), Some(0));
}

#[test]
fn relaxed_open_node_moves_up_the_frontier() {
    let states = Arena::new();
    let mut st = AstarState::new();
    for i in 0..8u64 {
        let s: &u64 = states.alloc(i);
        st.add(DumbNode(s, i), 0, 10 + i as u128);
    }
    st.relax(6, 0, 1, 2);
    st.relax(3, 6, 20, 20);
    assert_eq!(st.pop(), Some(6));
    assert_eq!(st.pop(), Some(0));
    assert_eq!(st.pop(), Some(1));
    assert_eq!(st.pop(), Some(2));
    assert_eq!(st.pop(), Some(4));
    assert_eq!(st.pop(), Some(5));
    assert_eq!(st.pop(), Some(7));
    assert_eq!(st.pop(), Some(3));
    assert_eq!(st.pop(), None);
    assert_eq!(st.node(3).parent, Some(6));
}

#[test]
fn node_is_made_and_changed() {
    let s = 17u32;
    let first = Node::new_initial(DumbNode(&s, 99), 6);
    assert_eq!(first.status, Status::Open);
    assert_eq!((first.g(), first.h(), first.cost_with_heuristic), (0, 6, 6));
    assert_eq!(*first.state, 17);
    assert_eq!(first.parent, None);
    assert_eq!(first.key, 99);
    let mut n = Node::new(DumbNode(&s, 99));
    assert_eq!(n.status, Status::Unvisited);
    assert_eq!(*n.state, 17);
    n.set_g(5);
    n.set_h(6);
    n.set_f(11);
    n.set_parent(3);
    assert_eq!(n.g(), 5);
    assert_eq!(n.h(), 6);
    assert_eq!(n.cost_with_heuristic, 11);
    assert_eq!(n.parent, Some(3));
    assert_eq!(n.status, Status::Unvisited);
    assert!(n.eq(&first));
    let t = 17u32;
    assert!(!n.eq(&Node::new(DumbNode(&t, 98))));
}

#[test]
fn cheaper_node_is_the_greater() {
    let s = 0u8;
    let mut a = Node::new(DumbNode(&s, 1));
    let mut b = Node::new(DumbNode(&s, 2));
    a.set_f(3);
    b.set_f(8);
    assert_eq!(a.cmp(&b), Ordering::Greater);
    assert_eq!(b.cmp(&a), Ordering::Less);
    assert_eq!(a.cmp(&a), Ordering::Equal);
    assert_eq!(a.partial_cmp(&b), Some(Ordering::Greater));
    b.set_f(3);
    assert_eq!(a.cmp(&b), Ordering::Equal);
}

#[test]
fn dumb_nodes_compare_by_fingerprint() {
    let (s, t) = (1u8, 2u8);
    assert!(DumbNode(&s, 7).eq(&DumbNode(&t, 7)));
    assert!(!DumbNode(&s, 7).eq(&DumbNode(&s, 8)));
}

fn arena_of(keys: &[u128]) -> Vec<Node<'static, u8>> {
    keys.iter()
        .enumerate()
        .map(|(i, f)| {
            let mut n = Node::new_initial(DumbNode(&0u8, i as u64), 0);
            n.set_f(*f);
            n
        })
        .collect()
}

#[test]
fn wrapped_nodes_compare_by_the_key_of_their_node() {
    let arena = arena_of(&[5, 2, 5]);
    let (a, b, c) = (WrappedNode::new(0), WrappedNode::new(1), WrappedNode::new(2));
    assert_eq!(a.node, 0);
    assert_eq!(a.cmp(&b, &arena), Ordering::Less);
    assert_eq!(b.cmp(&a, &arena), Ordering::Greater);
    assert_eq!(a.cmp(&c, &arena), Ordering::Equal);
    assert_eq!(a.partial_cmp(&b, &arena), Some(Ordering::Less));
    assert!(a.eq(&c, &arena));
    assert!(!a.eq(&b, &arena));
    assert!(b.served_before(&a, &arena));
    assert!(!a.served_before(&b, &arena));
    assert!(a.served_before(&c, &arena));
    assert!(!c.served_before(&a, &arena));
    assert!(a.served_before(&a, &arena));
}

fn drain(q: &mut Vec<WrappedNode>, arena: &Vec<Node<'static, u8>>) -> Vec<usize> {
    let mut out = vec![];
    loop {
        match pop_entry(q, arena) {
            Some(w) => out.push(w.node),
            None => return out,
        }
    }
}

#[test]
fn heap_hands_out_entries_by_key_then_index() {
    let arena = arena_of(&[7, 3, 9, 3, 1, 7, 0, 4]);
    let mut q = vec![];
    for i in [2usize, 7, 0, 5, 3, 1, 6, 4] {
        push_entry(&mut q, &arena, WrappedNode::new(i));
    }
    assert_eq!(q.len(), 8);
    assert_eq!(q[0].node, 6);
    assert_eq!(drain(&mut q, &arena), vec![6, 4, 1, 3, 7, 0, 5, 2]);
    assert!(q.is_empty());
    assert!(pop_entry(&mut q, &arena).is_none());
}

#[test]
fn resorting_follows_changed_keys() {
    let mut arena = arena_of(&[1, 2, 3, 4, 5, 6, 7]);
    let mut q = vec![];
    for i in 0..7 {
        push_entry(&mut q, &arena, WrappedNode::new(i));
    }
    arena[5].set_f(0);
    arena[0].set_f(10);
    arena[2].set_f(2);
    resort_heap(&mut q, &arena);
    assert_eq!(q.len(), 7);
    assert_eq!(drain(&mut q, &arena), vec![5, 1, 2, 3, 4, 6, 0]);
    let mut none: Vec<WrappedNode> = vec![];
    resort_heap(&mut none, &arena);
    assert!(none.is_empty());
}

#[test]
fn heap_keeps_an_entry_that_stands_twice() {
    let mut arena = arena_of(&[4, 2, 6]);
    let mut q = vec![];
    for i in [0usize, 1, 1, 2, 0] {
        push_entry(&mut q, &arena, WrappedNode::new(i));
    }
    arena[2].set_f(1);
    resort_heap(&mut q, &arena);
    assert_eq!(q.len(), 5);
    assert_eq!(drain(&mut q, &arena), vec![2, 1, 1, 0, 0]);
}

#[test]
fn first_node_of_a_search_has_its_estimate_as_key() {
    let states = Arena::new();
    let mut st = AstarState::new();
    let a: &u32 = states.alloc(40);
    assert_eq!(st.add(DumbNode(a, 40), 0, 9), 0);
    let n = st.node(0);
    assert_eq!((n.g(), n.h(), n.cost_with_heuristic), (0, 9, 9));
    assert_eq!(n.parent, None);
    assert_eq!(n.status, Status::Open);
    let made = Node::new_initial(DumbNode(a, 40), 9);
    assert_eq!((made.g(), made.h(), made.cost_with_heuristic), (0, 9, 9));
    assert_eq!(made.parent, None);
    assert_eq!(made.status, Status::Open);
    assert_eq!(made.key, 40);
}
