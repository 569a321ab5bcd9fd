use std::cmp::Ordering;
use vstd::prelude::*;
use vstd::std_specs::cmp::OrdSpec;

verus! {

/// Wraps a value so that it is ordered the other way round: the larger
/// `e` is, the smaller the wrapper.
#[derive(Eq, PartialEq)]
pub struct ReverseOrd<E> {
    pub e: E,
}

/// `o` with `Less` and `Greater` exchanged.
pub open spec fn flipped(o: Ordering) -> Ordering {
    match o {
        Ordering::Less => Ordering::Greater,
        Ordering::Greater => Ordering::Less,
        Ordering::Equal => Ordering::Equal,
    }
}

impl<E> ReverseOrd<E> {
    pub fn new(e: E) -> (r: ReverseOrd<E>)
        ensures
            r.e == e,
    {
        ReverseOrd { e: e }
    }
}

impl<E: Ord> ReverseOrd<E> {
    /// How `self` stands to `other`: the opposite of how `self.e` stands
    /// to `other.e`.
    pub open spec fn reverse_order(&self, other: &ReverseOrd<E>) -> Ordering {
        flipped(self.e.cmp_spec(&other.e))
    }

    pub fn cmp(&self, other: &ReverseOrd<E>) -> (o: Ordering)
        ensures
            E::obeys_cmp_spec() ==> o == self.reverse_order(other),
    {
        match self.e.cmp(&other.e) {
            Ordering::Less => Ordering::Greater,
            Ordering::Greater => Ordering::Less,
            Ordering::Equal => Ordering::Equal,
        }
    }

    pub fn partial_cmp(&self, other: &ReverseOrd<E>) -> (o: Option<Ordering>)
        ensures
            E::obeys_cmp_spec() ==> o == Some(self.reverse_order(other)),
    {
        Some(self.cmp(other))
    }
}

} // verus!
