//! Closedness and consistency of a mesh.

use vstd::prelude::*;

use crate::half_edge::{HeMesh, MeshModel};

verus! {

impl<P> MeshModel<P> {
    /// Every half-edge has a twin: no boundary edges.
    pub open spec fn closed(&self) -> bool {
        forall|h: int| 0 <= h < self.nh() ==> (#[trigger] self.tw(h)).is_some()
    }

    /// Every pair of twins runs in opposite directions.
    pub open spec fn consistent(&self) -> bool {
        forall|h: int|
            0 <= h < self.nh() && (#[trigger] self.tw(h)).is_some() ==> self.opposed(
                h,
                self.tw(h).unwrap().0 as int,
            )
    }
}

/// In a well-formed mesh, `next` and `prev` undo each other and stay in the
/// face.
pub proof fn lemma_loop_links<P>(m: MeshModel<P>, h: int)
    requires
        m.shape_wf(),
        0 <= h < m.nh(),
    ensures
        0 <= m.nxt(h) < m.nh(),
        0 <= m.prv(h) < m.nh(),
        m.nxt(m.prv(h)) == h,
        m.prv(m.nxt(h)) == h,
        m.fc(m.nxt(h)) == m.fc(h),
        m.fc(m.prv(h)) == m.fc(h),
        0 <= m.fc(h) < m.nf(),
        0 <= m.org(h) < m.nv(),
        m.fstart(m.fc(h)) <= h < m.fend(m.fc(h)),
        m.fstart(m.fc(h)) <= m.nxt(h) < m.fend(m.fc(h)),
        m.fstart(m.fc(h)) <= m.prv(h) < m.fend(m.fc(h)),
        m.fstart(m.fc(h)) + 3 <= m.fend(m.fc(h)) <= m.nh(),
{
    reveal(MeshModel::faces_wf);
    reveal(MeshModel::loops_wf);
    let f = m.fc(h);
    assert(m.half_edges[h] == m.half_edges[h]);
    assert(m.fstart(f) + 3 <= m.fend(f));
    let n = m.nxt(h);
    let p = m.prv(h);
    assert(m.half_edges[n] == m.half_edges[n]);
    assert(m.half_edges[p] == m.half_edges[p]);
}

/// In a well-formed mesh, the twin of a half-edge is another half-edge on the
/// same edge, whose twin is the half-edge itself.
pub proof fn lemma_twin_links<P>(m: MeshModel<P>, h: int)
    requires
        m.shape_wf(),
        0 <= h < m.nh(),
    ensures
        m.tw(h).is_some() ==> {
            let t = m.tw(h).unwrap().0 as int;
            &&& 0 <= t < m.nh()
            &&& t != h
            &&& m.same_edge(h, t)
            &&& m.tw(t) == Some(crate::half_edge::HalfEdgeHandle(h as usize))
        },
{
    reveal(MeshModel::twins_wf);
    if m.tw(h).is_some() {
        let t = m.tw(h).unwrap().0 as int;
        assert(m.same_edge(t, h));
    }
}

impl<P: Copy> HeMesh<P> {
    /// Whether every half-edge has a twin, so that the surface has no
    /// boundary.
    pub fn is_closed(&self) -> (r: bool)
        ensures
            r == self@.closed(),
    {
        let n = self.n_half_edges();
        let mut h: usize = 0;
        while h < n
            invariant
                n == self@.nh(),
                h <= n,
                forall|g: int| 0 <= g < h ==> (#[trigger] self@.tw(g)).is_some(),
            decreases n - h,
        {
            if self.half_edge(h).twin.is_none() {
                assert(self@.tw(h as int).is_none());
                return false;
            }
            h += 1;
        }
        true
    }

    /// Whether every pair of twins runs in opposite directions, so that
    /// adjacent faces wind alike.
    pub fn is_consistent(&self) -> (r: bool)
        requires
            self@.wf(),
        ensures
            r == self@.consistent(),
    {
        let n = self.n_half_edges();
        let mut h: usize = 0;
        while h < n
            invariant
                self@.wf(),
                n == self@.nh(),
                h <= n,
                forall|g: int|
                    0 <= g < h && (#[trigger] self@.tw(g)).is_some() ==> self@.opposed(
                        g,
                        self@.tw(g).unwrap().0 as int,
                    ),
            decreases n - h,
        {
            let e = self.half_edge(h);
            match e.twin {
                Some(t) => {
                    proof {
                        lemma_loop_links(self@, h as int);
                        lemma_twin_links(self@, h as int);
                    }
                    assert(self@.tw(h as int).is_some());
                    let te = self.half_edge(t.0);
                    proof {
                        lemma_loop_links(self@, t.0 as int);
                    }
                    let a = e.origin.0;
                    let b = self.half_edge(e.next.0).origin.0;
                    let c = te.origin.0;
                    let d = self.half_edge(te.next.0).origin.0;
                    if !(a == d && b == c) {
                        assert(!self@.opposed(h as int, t.0 as int));
                        return false;
                    }
                },
                None => {},
            }
            h += 1;
        }
        true
    }
}

} // verus!
