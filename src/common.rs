//! Edges as handed out by queries.

use vstd::prelude::*;

verus! {

/// An edge as seen from one of its half-edges: origin, destination and the
/// patches of the adjacent faces.
#[derive(Debug, Clone)]
pub struct Edge {
    p: usize,
    q: usize,
    patches: Vec<usize>,
}

impl Edge {
    /// Construct an edge from its vertices and patches.
    pub fn new(p: usize, q: usize, patches: Vec<usize>) -> (r: Edge)
        ensures
            r.spec_p() == p,
            r.spec_q() == q,
            r.spec_patches() == patches@,
    {
        Edge { p, q, patches }
    }

    pub closed spec fn spec_p(&self) -> usize {
        self.p
    }

    pub closed spec fn spec_q(&self) -> usize {
        self.q
    }

    pub closed spec fn spec_patches(&self) -> Seq<usize> {
        self.patches@
    }

    /// The patches of the adjacent faces.
    pub fn patches(&self) -> (r: Vec<usize>)
        ensures
            r@ == self.spec_patches(),
    {
        self.patches.clone()
    }

    /// The vertex at position `index`: 0 is the origin, 1 the destination.
    pub fn get(&self, index: usize) -> (r: usize)
        requires
            index < 2,
        ensures
            r == if index == 0 { self.spec_p() } else { self.spec_q() },
    {
        if index == 0 {
            self.p
        } else {
            self.q
        }
    }

    /// Replace the vertex at position `index`: 0 is the origin, 1 the
    /// destination.
    pub fn set(&mut self, index: usize, value: usize)
        requires
            index < 2,
        ensures
            final(self).spec_p() == if index == 0 { value } else { old(self).spec_p() },
            final(self).spec_q() == if index == 1 { value } else { old(self).spec_q() },
            final(self).spec_patches() == old(self).spec_patches(),
    {
        if index == 0 {
            self.p = value;
        } else {
            self.q = value;
        }
    }
}

} // verus!
