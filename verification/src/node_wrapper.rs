use crate::reverse_ord::ReverseOrd;
use std::cmp::Ordering;
use vstd::prelude::*;
use vstd::std_specs::cmp::OrdSpec;

verus! {

/// A value `n` together with the cost `c` it is queued under. Wrappers are
/// ordered by cost alone, the cheaper one being the greater, so that a
/// max-first queue hands out the cheapest first.
#[derive(Eq, PartialEq)]
pub struct NodeWrapper<N, C> {
    pub n: N,
    pub c: ReverseOrd<C>,
}

impl<N, C> NodeWrapper<N, C> {
    pub fn new(n: N, c: C) -> (w: NodeWrapper<N, C>)
        ensures
            w.n == n,
            w.c.e == c,
    {
        NodeWrapper { n: n, c: ReverseOrd::new(c) }
    }
}

impl<N, C: Ord> NodeWrapper<N, C> {
    pub fn cmp(&self, other: &NodeWrapper<N, C>) -> (o: Ordering)
        ensures
            C::obeys_cmp_spec() ==> o == self.c.reverse_order(&other.c),
    {
        self.c.cmp(&other.c)
    }

    pub fn partial_cmp(&self, other: &NodeWrapper<N, C>) -> (o: Option<Ordering>)
        ensures
            C::obeys_cmp_spec() ==> o == Some(self.c.reverse_order(&other.c)),
    {
        self.c.partial_cmp(&other.c)
    }
}

} // verus!
