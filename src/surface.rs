//! The surface mesh offered to users.

use vstd::prelude::*;

use crate::builder::{built_from, face_valid, faces_valid, is_non_manifold, non_manifold_at};
use crate::common::Edge;
use crate::components::nested_view;
use crate::errors::{BuildError, IndexError};
use crate::extract::{distinct_faces, texts};
use crate::face::Face;
use crate::features::edge_record;
use crate::half_edge::{HeMesh, MeshModel};
use crate::io::{IOFace, IOMesh, IOPatch, IOVertex};
use crate::patch::Patch;
use crate::queries::lemma_loop_links;
use crate::merge::{fits_with, merged};

verus! {

impl<P> MeshModel<P> {
    /// The half-edge at corner `i` of face `f`, walking its loop with `next`
    /// from its first half-edge.
    pub open spec fn corner(&self, f: int, i: int) -> int {
        if self.forward(f) {
            self.fstart(f) + i
        } else if i == 0 {
            self.fstart(f)
        } else {
            self.fend(f) - i
        }
    }

    /// The vertices of face `f` in winding order.
    pub open spec fn face_vertices(&self, f: int) -> Seq<usize> {
        Seq::new((self.fend(f) - self.fstart(f)) as nat, |i: int| self.org(self.corner(f, i)) as usize)
    }
}

/// A polygonal surface mesh: a half-edge mesh with the queries and repairs
/// offered to users, over vertex positions of type `P`.
pub struct SurfaceMesh<P> {
    data: HeMesh<P>,
}

impl<P> View for SurfaceMesh<P> {
    type V = MeshModel<P>;

    closed spec fn view(&self) -> MeshModel<P> {
        self.data@
    }
}

impl<P: Copy> SurfaceMesh<P> {
    /// Build a surface mesh from an interchange mesh; fails as
    /// `HeMesh::from_io` does.
    pub fn from_io(io: &IOMesh<P>) -> (r: Result<SurfaceMesh<P>, BuildError>)
        ensures
            match r {
                Err(BuildError::InvalidFace(f)) => {
                    &&& f < io.spec_faces().len()
                    &&& !face_valid(*io, f as int)
                    &&& forall|g: int| 0 <= g < f ==> #[trigger] face_valid(*io, g)
                },
                Err(BuildError::NonManifold(e)) => {
                    &&& faces_valid(*io)
                    &&& non_manifold_at(*io, e.p as int, e.q as int)
                },
                Ok(m) => {
                    &&& faces_valid(*io)
                    &&& !is_non_manifold(*io)
                    &&& m@.wf()
                    &&& built_from(m@, *io)
                },
            },
    {
        match HeMesh::from_io(io) {
            Ok(data) => Ok(SurfaceMesh { data }),
            Err(e) => Err(e),
        }
    }

    /// The underlying half-edge mesh.
    pub fn half_edge_mesh(&self) -> (r: &HeMesh<P>)
        ensures
            r@ == self@,
    {
        &self.data
    }

    /// The number of vertices.
    pub fn n_vertices(&self) -> (r: usize)
        ensures
            r == self@.nv(),
    {
        self.data.n_vertices()
    }

    /// The vertex positions, in order.
    pub fn vertices(&self) -> (r: Vec<P>)
        ensures
            r@.len() == self@.nv(),
            forall|v: int| 0 <= v < self@.nv() ==> #[trigger] r@[v] == self@.vertices[v].point,
    {
        let n = self.data.n_vertices();
        let mut r: Vec<P> = Vec::new();
        let mut v: usize = 0;
        while v < n
            invariant
                n == self@.nv(),
                v <= n,
                r@.len() == v,
                forall|w: int| 0 <= w < v ==> #[trigger] r@[w] == self@.vertices[w].point,
            decreases n - v,
        {
            r.push(self.data.vertex(v).point);
            v += 1;
        }
        r
    }

    /// The position of vertex `index`.
    pub fn vertex(&self, index: usize) -> (r: Result<P, IndexError>)
        ensures
            index < self@.nv() ==> r == Ok::<P, IndexError>(self@.vertices[index as int].point),
            index >= self@.nv() ==> r == Err::<P, IndexError>(IndexError { index, count: self@.nv() as usize }),
    {
        let n = self.data.n_vertices();
        if index < n {
            Ok(self.data.vertex(index).point)
        } else {
            Err(IndexError { index, count: n })
        }
    }

    /// The number of faces.
    pub fn n_faces(&self) -> (r: usize)
        ensures
            r == self@.nf(),
    {
        self.data.n_faces()
    }

    /// The vertices of face `f` in winding order.
    fn face_vertices(&self, f: usize) -> (r: Vec<usize>)
        requires
            self@.wf(),
            f < self@.nf(),
        ensures
            r@ == self@.face_vertices(f as int),
    {
        let ghost m = self@;
        let (start, end) = self.data.face_range(f);
        let n = end - start;
        let forward = self.data.half_edge(start).next.0 == start + 1;
        let mut r: Vec<usize> = Vec::new();
        let mut i: usize = 0;
        while i < n
            invariant
                m == self@,
                m.wf(),
                f < m.nf(),
                start == m.fstart(f as int),
                end == m.fend(f as int),
                start + 3 <= end <= m.nh(),
                n == end - start,
                forward == m.forward(f as int),
                i <= n,
                r@ =~= m.face_vertices(f as int).take(i as int),
            decreases n - i,
        {
            let h = if forward {
                start + i
            } else if i == 0 {
                start
            } else {
                end - i
            };
            r.push(self.data.half_edge(h).origin.0);
            proof {
                assert(m.face_vertices(f as int).take(i + 1) =~= m.face_vertices(f as int).take(i as int).push(
                    m.face_vertices(f as int)[i as int],
                ));
            }
            i += 1;
        }
        proof {
            assert(m.face_vertices(f as int).take(n as int) =~= m.face_vertices(f as int));
        }
        r
    }

    /// Face `f` as vertex indices in winding order and its patch index.
    fn face_record(&self, f: usize) -> (r: Face)
        requires
            self@.wf(),
            f < self@.nf(),
        ensures
            r.spec_vertices() == self@.face_vertices(f as int),
            r.spec_patch() == match self@.faces[f as int].patch {
                Some(p) => Some(p.0),
                None => None,
            },
    {
        let vertices = self.face_vertices(f);
        let patch = match self.data.face(f).patch {
            Some(p) => Some(p.0),
            None => None,
        };
        Face::new(vertices, patch)
    }

    /// All faces, in order.
    pub fn faces(&self) -> (r: Vec<Face>)
        requires
            self@.wf(),
        ensures
            r@.len() == self@.nf(),
            forall|f: int| #![trigger r@[f]]
                0 <= f < self@.nf() ==> r@[f].spec_vertices() == self@.face_vertices(f) && r@[f].spec_patch()
                    == match self@.faces[f].patch {
                    Some(p) => Some(p.0),
                    None => None,
                },
    {
        let n = self.data.n_faces();
        let mut r: Vec<Face> = Vec::new();
        let mut f: usize = 0;
        while f < n
            invariant
                self@.wf(),
                n == self@.nf(),
                f <= n,
                r@.len() == f,
                forall|g: int| #![trigger r@[g]]
                    0 <= g < f ==> r@[g].spec_vertices() == self@.face_vertices(g) && r@[g].spec_patch()
                        == match self@.faces[g].patch {
                        Some(p) => Some(p.0),
                        None => None,
                    },
            decreases n - f,
        {
            r.push(self.face_record(f));
            f += 1;
        }
        r
    }

    /// Face `index`: its vertices in winding order and its patch.
    pub fn face(&self, index: usize) -> (r: Result<Face, IndexError>)
        requires
            self@.wf(),
        ensures
            index >= self@.nf() ==> r == Err::<Face, IndexError>(IndexError { index, count: self@.nf() as usize }),
            index < self@.nf() ==> r.is_ok() && r.unwrap().spec_vertices() == self@.face_vertices(index as int)
                && r.unwrap().spec_patch() == match self@.faces[index as int].patch {
                Some(p) => Some(p.0),
                None => None,
            },
    {
        let n = self.data.n_faces();
        if index < n {
            Ok(self.face_record(index))
        } else {
            Err(IndexError { index, count: n })
        }
    }

    /// The number of edges: one per half-edge, so that an edge shared by
    /// two faces counts twice.
    pub fn n_edges(&self) -> (r: usize)
        ensures
            r == self@.nh(),
    {
        self.data.n_half_edges()
    }

    /// All edges, one per half-edge, in order.
    pub fn edges(&self) -> (r: Vec<Edge>)
        requires
            self@.wf(),
        ensures
            r@.len() == self@.nh(),
            forall|h: int| #![trigger r@[h]]
                0 <= h < self@.nh() ==> edge_record(r@[h]) == (self@.org(h), self@.dst(h), self@.edge_patches(h)),
    {
        let n = self.data.n_half_edges();
        let mut r: Vec<Edge> = Vec::new();
        let mut h: usize = 0;
        while h < n
            invariant
                self@.wf(),
                n == self@.nh(),
                h <= n,
                r@.len() == h,
                forall|g: int| #![trigger r@[g]]
                    0 <= g < h ==> edge_record(r@[g]) == (self@.org(g), self@.dst(g), self@.edge_patches(g)),
            decreases n - h,
        {
            r.push(self.data.edge_of(h));
            h += 1;
        }
        r
    }

    /// Edge `index`, seen from half-edge `index`: origin, destination and
    /// the patches of the faces on either side (one face for a boundary
    /// edge).
    pub fn edge(&self, index: usize) -> (r: Result<Edge, IndexError>)
        requires
            self@.wf(),
        ensures
            index >= self@.nh() ==> r == Err::<Edge, IndexError>(IndexError { index, count: self@.nh() as usize }),
            index < self@.nh() ==> r.is_ok() && edge_record(r.unwrap()) == (
                self@.org(index as int),
                self@.dst(index as int),
                self@.edge_patches(index as int),
            ),
    {
        let n = self.data.n_half_edges();
        if index < n {
            Ok(self.data.edge_of(index))
        } else {
            Err(IndexError { index, count: n })
        }
    }

    /// The number of patches.
    pub fn n_patches(&self) -> (r: usize)
        ensures
            r == self@.np(),
    {
        self.data.n_patches()
    }

    /// All patches, in order.
    pub fn patches(&self) -> (r: Vec<Patch>)
        ensures
            r@.len() == self@.np(),
            forall|p: int| 0 <= p < self@.np() ==> (#[trigger] r@[p])@ == self@.patches[p],
    {
        let n = self.data.n_patches();
        let mut r: Vec<Patch> = Vec::new();
        let mut p: usize = 0;
        while p < n
            invariant
                n == self@.np(),
                p <= n,
                r@.len() == p,
                forall|q: int| 0 <= q < p ==> (#[trigger] r@[q])@ == self@.patches[q],
            decreases n - p,
        {
            r.push(Patch::new(self.data.patch(p).name()));
            p += 1;
        }
        r
    }

    /// Patch `index`.
    pub fn patch(&self, index: usize) -> (r: Result<Patch, IndexError>)
        ensures
            index >= self@.np() ==> r.is_err() && r.unwrap_err() == (IndexError {
                index,
                count: self@.np() as usize,
            }),
            index < self@.np() ==> r.is_ok() && r.unwrap()@ == self@.patches[index as int],
    {
        let n = self.data.n_patches();
        if index < n {
            Ok(Patch::new(self.data.patch(index).name()))
        } else {
            Err(IndexError { index, count: n })
        }
    }

    /// Whether every half-edge has a twin: the surface has no boundary.
    pub fn is_closed(&self) -> (r: bool)
        ensures
            r == self@.closed(),
    {
        self.data.is_closed()
    }

    /// Whether every pair of twins runs in opposite directions.
    pub fn is_consistent(&self) -> (r: bool)
        requires
            self@.wf(),
        ensures
            r == self@.consistent(),
    {
        self.data.is_consistent()
    }

    /// Make the faces of each connected component wind alike; see
    /// `HeMesh::orient`.
    pub fn orient(&mut self)
        requires
            old(self)@.wf(),
        ensures
            final(self)@.wf(),
            exists|flip: Seq<bool>| #[trigger] old(self)@.flipped_by(flip, final(self)@),
            old(self)@.orientable() && old(self)@.no_degenerate_edges() ==> final(self)@.consistent(),
    {
        let ghost before = self.data@;
        self.data.orient();
        proof {
            let flip = choose|flip: Seq<bool>| #[trigger] before.flipped_by(flip, self.data@);
            assert(before.flipped_by(flip, self@));
        }
    }

    /// Append all of `other` without joining anything; see `HeMesh::merge`.
    pub fn merge(&mut self, other: &SurfaceMesh<P>)
        requires
            old(self)@.wf(),
            other@.wf(),
            fits_with(old(self)@, other@),
        ensures
            final(self)@ == merged(old(self)@, other@),
            final(self)@.wf(),
    {
        self.data.merge(&other.data);
    }

    /// A new mesh of exactly the faces `face_ids`, in that order; see
    /// `HeMesh::extract_faces`.
    pub fn extract_faces(&self, face_ids: Vec<usize>) -> (r: SurfaceMesh<P>)
        requires
            self@.wf(),
            distinct_faces(face_ids@, self@.nf()),
        ensures
            r@.wf(),
            r@.extracted_from(self@, face_ids@),
    {
        SurfaceMesh { data: self.data.extract_faces(&face_ids) }
    }

    /// A new mesh of the faces that belong to a patch named in `patches`, in
    /// ascending order; see `HeMesh::extract_patches`.
    pub fn extract_patches(&self, patches: Vec<String>) -> (r: SurfaceMesh<P>)
        requires
            self@.wf(),
        ensures
            r@.wf(),
            r@.extracted_from(self@, self@.faces_named(texts(patches@), self@.nf())),
    {
        SurfaceMesh { data: self.data.extract_patches(&patches) }
    }

    /// The mesh as an interchange mesh: its vertex positions, its faces as
    /// vertex lists in winding order with their patch indices, and its
    /// patch names.
    pub fn to_io(&self) -> (r: IOMesh<P>)
        requires
            self@.wf(),
        ensures
            r.spec_vertices().len() == self@.nv(),
            forall|v: int| 0 <= v < self@.nv() ==> #[trigger] r.spec_vertices()[v].spec_origin() == self@.vertices[v].point,
            r.spec_faces().len() == self@.nf(),
            forall|f: int| #![trigger r.spec_faces()[f]]
                0 <= f < self@.nf() ==> r.spec_faces()[f].spec_vertices() == self@.face_vertices(f)
                    && r.spec_faces()[f].spec_patch() == match self@.faces[f].patch {
                    Some(p) => Some(p.0),
                    None => None,
                },
            r.spec_patches().len() == self@.np(),
            forall|p: int| 0 <= p < self@.np() ==> (#[trigger] r.spec_patches()[p])@ == self@.patches[p],
    {
        let mut io: IOMesh<P> = IOMesh::new();
        let nv = self.data.n_vertices();
        let mut v: usize = 0;
        while v < nv
            invariant
                nv == self@.nv(),
                v <= nv,
                io.spec_vertices().len() == v,
                io.spec_faces().len() == 0,
                io.spec_patches().len() == 0,
                forall|w: int| 0 <= w < v ==> #[trigger] io.spec_vertices()[w].spec_origin() == self@.vertices[w].point,
            decreases nv - v,
        {
            io.insert_vertex(IOVertex::new(self.data.vertex(v).point));
            v += 1;
        }
        let nf = self.data.n_faces();
        let mut f: usize = 0;
        while f < nf
            invariant
                self@.wf(),
                nf == self@.nf(),
                f <= nf,
                io.spec_vertices().len() == self@.nv(),
                forall|w: int| 0 <= w < self@.nv() ==> #[trigger] io.spec_vertices()[w].spec_origin() == self@.vertices[w].point,
                io.spec_faces().len() == f,
                io.spec_patches().len() == 0,
                forall|g: int| #![trigger io.spec_faces()[g]]
                    0 <= g < f ==> io.spec_faces()[g].spec_vertices() == self@.face_vertices(g)
                        && io.spec_faces()[g].spec_patch() == match self@.faces[g].patch {
                        Some(p) => Some(p.0),
                        None => None,
                    },
            decreases nf - f,
        {
            let face = self.face_record(f);
            let vertices = face.vertices().clone();
            assert(vertices@ == face.spec_vertices());
            io.insert_face(IOFace::new(vertices, face.patch()));
            f += 1;
        }
        let np = self.data.n_patches();
        let mut p: usize = 0;
        while p < np
            invariant
                self@.wf(),
                np == self@.np(),
                p <= np,
                io.spec_vertices().len() == self@.nv(),
                forall|w: int| 0 <= w < self@.nv() ==> #[trigger] io.spec_vertices()[w].spec_origin() == self@.vertices[w].point,
                io.spec_faces().len() == self@.nf(),
                forall|g: int| #![trigger io.spec_faces()[g]]
                    0 <= g < self@.nf() ==> io.spec_faces()[g].spec_vertices() == self@.face_vertices(g)
                        && io.spec_faces()[g].spec_patch() == match self@.faces[g].patch {
                        Some(p) => Some(p.0),
                        None => None,
                    },
                io.spec_patches().len() == p,
                forall|q: int| 0 <= q < p ==> (#[trigger] io.spec_patches()[q])@ == self@.patches[q],
            decreases np - p,
        {
            io.insert_patch(IOPatch::new(self.data.patch(p).name().to_owned()));
            p += 1;
        }
        io
    }

    /// The connected components of the faces; see `HeMesh::components`.
    pub fn components(&self) -> (r: Vec<Vec<usize>>)
        requires
            self@.wf(),
        ensures
            self@.are_components(nested_view(r@)),
    {
        self.data.components()
    }

    /// The interior edges marked in `creases`, one per pair of twins; see
    /// `HeMesh::feature_edges`.
    pub fn feature_edges(&self, creases: &Vec<bool>) -> (r: Vec<Edge>)
        requires
            self@.wf(),
            creases@.len() == self@.nh(),
        ensures
            r@.map_values(|e: Edge| edge_record(e)) == self@.crease_records(creases@, self@.nh()),
    {
        self.data.feature_edges(creases)
    }
}

} // verus!
