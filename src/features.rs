//! Feature edges: interior edges marked as creases, with their patches.

use vstd::prelude::*;

use crate::common::Edge;
use crate::half_edge::{HeMesh, MeshModel};
use crate::queries::{lemma_loop_links, lemma_twin_links};

verus! {

impl<P> MeshModel<P> {
    /// The patches of the faces on either side of half-edge `h`: that of its
    /// face, then that of its twin's face when it is another one.
    pub open spec fn edge_patches(&self, h: int) -> Seq<usize> {
        let own: Seq<usize> = match self.faces[self.fc(h)].patch {
            Some(p) => seq![p.0],
            None => seq![],
        };
        match self.tw(h) {
            Some(t) => match self.faces[self.fc(t.0 as int)].patch {
                Some(q) => if own.contains(q.0) {
                    own
                } else {
                    own.push(q.0)
                },
                None => own,
            },
            None => own,
        }
    }

    /// Half-edge `h` stands for its interior edge once: it has a twin with a
    /// larger index.
    pub open spec fn first_of_pair(&self, h: int) -> bool {
        self.tw(h).is_some() && h < self.tw(h).unwrap().0
    }

    /// The interior edges among the first `n` half-edges that are marked in
    /// `creases`: origin, destination and patches.
    pub open spec fn crease_records(&self, creases: Seq<bool>, n: int) -> Seq<(int, int, Seq<usize>)>
        decreases n,
    {
        if n <= 0 {
            seq![]
        } else if self.first_of_pair(n - 1) && creases[n - 1] {
            self.crease_records(creases, n - 1).push((self.org(n - 1), self.dst(n - 1), self.edge_patches(n - 1)))
        } else {
            self.crease_records(creases, n - 1)
        }
    }
}

pub open spec fn edge_record(e: Edge) -> (int, int, Seq<usize>) {
    (e.spec_p() as int, e.spec_q() as int, e.spec_patches())
}

impl<P: Copy> HeMesh<P> {
    /// The edge seen from half-edge `h`: its origin, destination and the
    /// patches on either side.
    pub fn edge_of(&self, h: usize) -> (r: Edge)
        requires
            self@.wf(),
            h < self@.nh(),
        ensures
            edge_record(r) == (self@.org(h as int), self@.dst(h as int), self@.edge_patches(h as int)),
    {
        proof {
            lemma_loop_links(self@, h as int);
            lemma_twin_links(self@, h as int);
        }
        let e = self.half_edge(h);
        let q = self.half_edge(e.next.0).origin.0;
        let mut patches: Vec<usize> = Vec::new();
        let own = self.face(e.face.0).patch;
        match own {
            Some(p) => patches.push(p.0),
            None => {},
        }
        let ghost own_seq = patches@;
        match e.twin {
            Some(t) => {
                proof {
                    lemma_loop_links(self@, t.0 as int);
                }
                match self.face(self.half_edge(t.0).face.0).patch {
                    Some(p2) => {
                        let dup = match own {
                            Some(p) => p.0 == p2.0,
                            None => false,
                        };
                        if !dup {
                            patches.push(p2.0);
                        }
                        proof {
                            if dup {
                                assert(own_seq[0] == p2.0);
                            } else {
                                assert(!own_seq.contains(p2.0));
                            }
                        }
                    },
                    None => {},
                }
            },
            None => {},
        }
        assert(patches@ =~= self@.edge_patches(h as int));
        Edge::new(e.origin.0, q, patches)
    }

    /// The interior edges marked in `creases`, one per pair of twins, in
    /// half-edge order: `creases[h]` says whether the faces on either side
    /// of half-edge `h` meet at a crease. Boundary edges are never reported.
    pub fn feature_edges(&self, creases: &Vec<bool>) -> (r: Vec<Edge>)
        requires
            self@.wf(),
            creases@.len() == self@.nh(),
        ensures
            r@.map_values(|e: Edge| edge_record(e)) == self@.crease_records(creases@, self@.nh()),
    {
        let n = self.n_half_edges();
        let mut r: Vec<Edge> = Vec::new();
        let mut h: usize = 0;
        while h < n
            invariant
                self@.wf(),
                n == self@.nh(),
                creases@.len() == n,
                h <= n,
                r@.map_values(|e: Edge| edge_record(e)) == self@.crease_records(creases@, h as int),
            decreases n - h,
        {
            let e = self.half_edge(h);
            let keep = match e.twin {
                Some(t) => h < t.0 && creases[h],
                None => false,
            };
            let ghost before = r@;
            if keep {
                let edge = self.edge_of(h);
                r.push(edge);
                assert(r@.map_values(|e: Edge| edge_record(e)) =~= before.map_values(|e: Edge| edge_record(e)).push(edge_record(edge)));
            }
            h += 1;
        }
        r
    }
}

} // verus!
