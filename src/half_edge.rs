//! The half-edge mesh: its records, its mathematical model and its
//! invariants.

use vstd::prelude::*;

verus! {

/// Index of a vertex in its mesh.
#[derive(Debug, Clone, Copy, Default, PartialEq, Eq, Structural)]
pub struct VertexHandle(pub usize);

/// Index of a face in its mesh.
#[derive(Debug, Clone, Copy, Default, PartialEq, Eq, Structural)]
pub struct FaceHandle(pub usize);

/// Index of a half-edge in its mesh.
#[derive(Debug, Clone, Copy, Default, PartialEq, Eq, Structural)]
pub struct HalfEdgeHandle(pub usize);

/// Index of a patch in its mesh.
#[derive(Debug, Clone, Copy, Default, PartialEq, Eq, Structural)]
pub struct PatchHandle(pub usize);

impl VertexHandle {
    /// Construct a handle from its index.
    pub fn new(id: usize) -> (r: VertexHandle)
        ensures
            r.0 == id,
    {
        VertexHandle(id)
    }

    /// The index.
    pub fn id(&self) -> (r: usize)
        ensures
            r == self.0,
    {
        self.0
    }
}

impl FaceHandle {
    /// Construct a handle from its index.
    pub fn new(id: usize) -> (r: FaceHandle)
        ensures
            r.0 == id,
    {
        FaceHandle(id)
    }

    /// The index.
    pub fn id(&self) -> (r: usize)
        ensures
            r == self.0,
    {
        self.0
    }
}

impl HalfEdgeHandle {
    /// Construct a handle from its index.
    pub fn new(id: usize) -> (r: HalfEdgeHandle)
        ensures
            r.0 == id,
    {
        HalfEdgeHandle(id)
    }

    /// The index.
    pub fn id(&self) -> (r: usize)
        ensures
            r == self.0,
    {
        self.0
    }
}

impl PatchHandle {
    /// Construct a handle from its index.
    pub fn new(id: usize) -> (r: PatchHandle)
        ensures
            r.0 == id,
    {
        PatchHandle(id)
    }

    /// The index.
    pub fn id(&self) -> (r: usize)
        ensures
            r == self.0,
    {
        self.0
    }
}

/// A vertex: its position and one half-edge that leaves it, if any does.
#[derive(Debug, Clone, Copy)]
pub struct Vertex<P> {
    pub point: P,
    pub half_edge: Option<HalfEdgeHandle>,
}

impl<P: Copy> Vertex<P> {
    /// The position.
    pub fn point(&self) -> (r: P)
        ensures
            r == self.point,
    {
        self.point
    }

    /// A half-edge whose origin is this vertex, if there is one.
    pub fn half_edge(&self) -> (r: Option<HalfEdgeHandle>)
        ensures
            r == self.half_edge,
    {
        self.half_edge
    }
}

/// A face: the first half-edge of its boundary loop and its patch.
#[derive(Debug, Clone, Copy, PartialEq, Eq, Structural)]
pub struct Face {
    pub half_edge: HalfEdgeHandle,
    pub patch: Option<PatchHandle>,
}

impl Face {
    /// The first half-edge of the boundary loop.
    pub fn half_edge(&self) -> (r: HalfEdgeHandle)
        ensures
            r == self.half_edge,
    {
        self.half_edge
    }

    /// The patch, if the face belongs to one.
    pub fn patch(&self) -> (r: Option<PatchHandle>)
        ensures
            r == self.patch,
    {
        self.patch
    }
}

/// A directed half of an edge, owned by one face.
#[derive(Debug, Clone, Copy, PartialEq, Eq, Structural)]
pub struct HalfEdge {
    pub origin: VertexHandle,
    pub face: FaceHandle,
    pub prev: HalfEdgeHandle,
    pub next: HalfEdgeHandle,
    pub twin: Option<HalfEdgeHandle>,
}

impl HalfEdge {
    /// The vertex the half-edge leaves.
    pub fn origin(&self) -> (r: VertexHandle)
        ensures
            r == self.origin,
    {
        self.origin
    }

    /// The face that owns the half-edge.
    pub fn face(&self) -> (r: FaceHandle)
        ensures
            r == self.face,
    {
        self.face
    }

    /// The previous half-edge around the face.
    pub fn prev(&self) -> (r: HalfEdgeHandle)
        ensures
            r == self.prev,
    {
        self.prev
    }

    /// The next half-edge around the face.
    pub fn next(&self) -> (r: HalfEdgeHandle)
        ensures
            r == self.next,
    {
        self.next
    }

    /// The half-edge of the neighbouring face on the same edge, if any.
    pub fn twin(&self) -> (r: Option<HalfEdgeHandle>)
        ensures
            r == self.twin,
    {
        self.twin
    }

    /// Whether the half-edge lies on the boundary (has no twin).
    pub fn is_boundary(&self) -> (r: bool)
        ensures
            r == self.twin.is_none(),
    {
        self.twin.is_none()
    }
}

/// A named group of faces.
#[derive(Debug, Clone)]
pub struct Patch {
    pub name: String,
}

impl Patch {
    /// The name.
    pub fn name(&self) -> (r: &str)
        ensures
            r@ == self.name@,
    {
        self.name.as_str()
    }
}

/// The mathematical content of a half-edge mesh.
pub struct MeshModel<P> {
    pub vertices: Seq<Vertex<P>>,
    pub half_edges: Seq<HalfEdge>,
    pub faces: Seq<Face>,
    pub patches: Seq<Seq<char>>,
}

impl<P> MeshModel<P> {
    pub open spec fn nv(&self) -> int {
        self.vertices.len() as int
    }

    pub open spec fn nh(&self) -> int {
        self.half_edges.len() as int
    }

    pub open spec fn nf(&self) -> int {
        self.faces.len() as int
    }

    pub open spec fn np(&self) -> int {
        self.patches.len() as int
    }

    pub open spec fn org(&self, h: int) -> int {
        self.half_edges[h].origin.0 as int
    }

    pub open spec fn nxt(&self, h: int) -> int {
        self.half_edges[h].next.0 as int
    }

    pub open spec fn prv(&self, h: int) -> int {
        self.half_edges[h].prev.0 as int
    }

    pub open spec fn fc(&self, h: int) -> int {
        self.half_edges[h].face.0 as int
    }

    pub open spec fn tw(&self, h: int) -> Option<HalfEdgeHandle> {
        self.half_edges[h].twin
    }

    /// The vertex a half-edge points to.
    pub open spec fn dst(&self, h: int) -> int {
        self.org(self.nxt(h))
    }

    /// First half-edge of a face: the half-edges of face `f` are stored in
    /// the index range `fstart(f) .. fend(f)`.
    pub open spec fn fstart(&self, f: int) -> int {
        self.faces[f].half_edge.0 as int
    }

    pub open spec fn fend(&self, f: int) -> int {
        if f + 1 < self.nf() {
            self.fstart(f + 1)
        } else {
            self.nh()
        }
    }

    /// The following half-edge of the storage range of `h`'s face, cyclically.
    pub open spec fn succ(&self, h: int) -> int {
        if h + 1 == self.fend(self.fc(h)) {
            self.fstart(self.fc(h))
        } else {
            h + 1
        }
    }

    /// The preceding half-edge of the storage range of `h`'s face, cyclically.
    pub open spec fn pred(&self, h: int) -> int {
        if h == self.fstart(self.fc(h)) {
            self.fend(self.fc(h)) - 1
        } else {
            h - 1
        }
    }

    /// A face whose loop runs in storage order; otherwise it runs backwards.
    pub open spec fn forward(&self, f: int) -> bool {
        self.nxt(self.fstart(f)) == self.fstart(f) + 1
    }

    /// Two half-edges on the same undirected edge.
    pub open spec fn same_edge(&self, h: int, g: int) -> bool {
        ||| (self.org(h) == self.org(g) && self.dst(h) == self.dst(g))
        ||| (self.org(h) == self.dst(g) && self.dst(h) == self.org(g))
    }

    /// Two twins that run in opposite directions.
    pub open spec fn opposed(&self, h: int, g: int) -> bool {
        self.org(h) == self.dst(g) && self.dst(h) == self.org(g)
    }

    #[verifier::opaque]
    pub open spec fn faces_wf(&self) -> bool {
        &&& self.nf() == 0 ==> self.nh() == 0
        &&& self.nf() > 0 ==> self.fstart(0) == 0
        &&& forall|f: int|
            0 <= f < self.nf() ==> self.fstart(f) + 3 <= #[trigger] self.fend(f) <= self.nh()
        &&& forall|f: int| #![trigger self.faces[f].patch]
            0 <= f < self.nf() && self.faces[f].patch.is_some()
                ==> self.faces[f].patch.unwrap().0 < self.np()
    }

    #[verifier::opaque]
    pub open spec fn loops_wf(&self) -> bool {
        &&& forall|h: int| #![trigger self.half_edges[h]]
            0 <= h < self.nh() ==> {
                &&& 0 <= self.fc(h) < self.nf()
                &&& self.fstart(self.fc(h)) <= h < self.fend(self.fc(h))
                &&& self.org(h) < self.nv()
                &&& if self.forward(self.fc(h)) {
                    self.nxt(h) == self.succ(h) && self.prv(h) == self.pred(h)
                } else {
                    self.nxt(h) == self.pred(h) && self.prv(h) == self.succ(h)
                }
            }
        &&& forall|f: int, h: int| #![trigger self.fstart(f), self.half_edges[h]]
            0 <= f < self.nf() && self.fstart(f) <= h < self.fend(f) ==> self.fc(h) == f
    }

    #[verifier::opaque]
    pub open spec fn twins_wf(&self) -> bool {
        &&& forall|h: int| #![trigger self.tw(h)]
            0 <= h < self.nh() && self.tw(h).is_some() ==> {
                let t = self.tw(h).unwrap().0 as int;
                &&& 0 <= t < self.nh()
                &&& t != h
                &&& self.same_edge(h, t)
            }
        &&& forall|h: int, g: int|
            0 <= h < self.nh() && 0 <= g < self.nh() && h != g && #[trigger] self.same_edge(h, g)
                ==> self.tw(h) == Some(HalfEdgeHandle(g as usize))
    }

    #[verifier::opaque]
    pub open spec fn links_wf(&self) -> bool {
        forall|v: int| #![trigger self.vertices[v]]
            0 <= v < self.nv() && self.vertices[v].half_edge.is_some() ==> {
                let h = self.vertices[v].half_edge.unwrap().0 as int;
                0 <= h < self.nh() && self.org(h) == v
            }
    }

    /// Each vertex records the last half-edge that leaves it, or none when no
    /// half-edge does.
    pub open spec fn links_exact(&self) -> bool {
        self.links_upto(self.nh())
    }

    pub open spec fn links_upto(&self, n: int) -> bool {
        forall|v: int| #![trigger self.vertices[v]]
            0 <= v < self.nv() ==> match self.vertices[v].half_edge {
                Some(h) => {
                    &&& 0 <= h.0 < n
                    &&& self.org(h.0 as int) == v
                    &&& forall|g: int| h.0 < g < n ==> #[trigger] self.org(g) != v
                },
                None => forall|g: int| 0 <= g < n ==> #[trigger] self.org(g) != v,
            }
    }

    /// Same vertex positions, half-edges, faces and patches.
    pub open spec fn same_but_links(&self, o: MeshModel<P>) -> bool {
        &&& self.nv() == o.nv()
        &&& forall|v: int| 0 <= v < self.nv() ==> #[trigger] self.vertices[v].point == o.vertices[v].point
        &&& self.half_edges == o.half_edges
        &&& self.faces == o.faces
        &&& self.patches == o.patches
    }

    /// The invariants of a half-edge mesh but those of the vertex links.
    pub open spec fn shape_wf(&self) -> bool {
        &&& self.faces_wf()
        &&& self.loops_wf()
        &&& self.twins_wf()
    }

    /// The invariants of a half-edge mesh.
    pub open spec fn wf(&self) -> bool {
        &&& self.shape_wf()
        &&& self.links_wf()
    }
}

proof fn lemma_same_faces<P>(a: MeshModel<P>, b: MeshModel<P>)
    requires
        b.same_but_links(a),
        a.faces_wf(),
    ensures
        b.faces_wf(),
{
    reveal(MeshModel::faces_wf);
    assert forall|f: int| 0 <= f < b.nf() implies b.fstart(f) + 3 <= #[trigger] b.fend(f) <= b.nh() by {
        assert(a.fstart(f) + 3 <= a.fend(f) <= a.nh());
    }
    assert forall|f: int| #![trigger b.faces[f].patch]
        0 <= f < b.nf() && b.faces[f].patch.is_some() implies b.faces[f].patch.unwrap().0 < b.np() by {
        assert(a.faces[f].patch == b.faces[f].patch);
    }
}

proof fn lemma_same_loops<P>(a: MeshModel<P>, b: MeshModel<P>)
    requires
        b.same_but_links(a),
        a.loops_wf(),
    ensures
        b.loops_wf(),
{
    reveal(MeshModel::loops_wf);
    assert forall|h: int| #![trigger b.half_edges[h]] 0 <= h < b.nh() implies {
        &&& 0 <= b.fc(h) < b.nf()
        &&& b.fstart(b.fc(h)) <= h < b.fend(b.fc(h))
        &&& b.org(h) < b.nv()
        &&& if b.forward(b.fc(h)) {
            b.nxt(h) == b.succ(h) && b.prv(h) == b.pred(h)
        } else {
            b.nxt(h) == b.pred(h) && b.prv(h) == b.succ(h)
        }
    } by {
        assert(a.half_edges[h] == b.half_edges[h]);
    }
    assert forall|f: int, h: int| #![trigger b.fstart(f), b.half_edges[h]]
        0 <= f < b.nf() && b.fstart(f) <= h < b.fend(f) implies b.fc(h) == f by {
        assert(a.fstart(f) == b.fstart(f));
        assert(a.half_edges[h] == b.half_edges[h]);
    }
}

/// Models that differ in their vertex links only are equally well-formed
/// but for those links.
pub proof fn lemma_same_shape<P>(a: MeshModel<P>, b: MeshModel<P>)
    requires
        b.same_but_links(a),
        a.shape_wf(),
    ensures
        b.shape_wf(),
{
    lemma_same_faces(a, b);
    lemma_same_loops(a, b);
    reveal(MeshModel::twins_wf);
    assert forall|h: int| #![trigger b.tw(h)] 0 <= h < b.nh() && b.tw(h).is_some() implies {
        let t = b.tw(h).unwrap().0 as int;
        &&& 0 <= t < b.nh()
        &&& t != h
        &&& b.same_edge(h, t)
    } by {
        assert(a.tw(h) == b.tw(h));
        let t = b.tw(h).unwrap().0 as int;
        assert(a.same_edge(h, t));
    }
    assert forall|h: int, g: int|
        0 <= h < b.nh() && 0 <= g < b.nh() && h != g && #[trigger] b.same_edge(h, g)
            implies b.tw(h) == Some(HalfEdgeHandle(g as usize)) by {
        assert(a.same_edge(h, g));
    }
}

/// A polygonal surface as a half-edge graph over flat arrays.
#[derive(Debug, Clone)]
pub struct HeMesh<P> {
    vertices: Vec<Vertex<P>>,
    half_edges: Vec<HalfEdge>,
    faces: Vec<Face>,
    patches: Vec<Patch>,
}

impl<P> View for HeMesh<P> {
    type V = MeshModel<P>;

    closed spec fn view(&self) -> MeshModel<P> {
        MeshModel {
            vertices: self.vertices@,
            half_edges: self.half_edges@,
            faces: self.faces@,
            patches: self.patches@.map_values(|p: Patch| p.name@),
        }
    }
}

impl<P: Copy> HeMesh<P> {
    /// Assemble a mesh from its arrays.
    pub(crate) fn from_parts(
        vertices: Vec<Vertex<P>>,
        half_edges: Vec<HalfEdge>,
        faces: Vec<Face>,
        patches: Vec<Patch>,
    ) -> (r: HeMesh<P>)
        ensures
            r@.vertices == vertices@,
            r@.half_edges == half_edges@,
            r@.faces == faces@,
            r@.patches == patches@.map_values(|p: Patch| p.name@),
    {
        HeMesh { vertices, half_edges, faces, patches }
    }

    /// The number of vertices.
    pub fn n_vertices(&self) -> (r: usize)
        ensures
            r == self@.nv(),
    {
        self.vertices.len()
    }

    /// The number of half-edges.
    pub fn n_half_edges(&self) -> (r: usize)
        ensures
            r == self@.nh(),
    {
        self.half_edges.len()
    }

    /// The number of faces.
    pub fn n_faces(&self) -> (r: usize)
        ensures
            r == self@.nf(),
    {
        self.faces.len()
    }

    /// The number of patches.
    pub fn n_patches(&self) -> (r: usize)
        ensures
            r == self@.np(),
    {
        self.patches.len()
    }

    /// The vertex at `index`.
    pub fn vertex(&self, index: usize) -> (r: Vertex<P>)
        requires
            index < self@.nv(),
        ensures
            r == self@.vertices[index as int],
    {
        self.vertices[index]
    }

    /// The half-edge at `index`.
    pub fn half_edge(&self, index: usize) -> (r: HalfEdge)
        requires
            index < self@.nh(),
        ensures
            r == self@.half_edges[index as int],
    {
        self.half_edges[index]
    }

    /// The face at `index`.
    pub fn face(&self, index: usize) -> (r: Face)
        requires
            index < self@.nf(),
        ensures
            r == self@.faces[index as int],
    {
        self.faces[index]
    }

    /// The patch at `index`.
    pub fn patch(&self, index: usize) -> (r: &Patch)
        requires
            index < self@.np(),
        ensures
            r.name@ == self@.patches[index as int],
    {
        &self.patches[index]
    }

    /// Replace the half-edge at `index`.
    pub(crate) fn set_half_edge(&mut self, index: usize, e: HalfEdge)
        requires
            index < old(self)@.nh(),
        ensures
            final(self)@.half_edges == old(self)@.half_edges.update(index as int, e),
            final(self)@.vertices == old(self)@.vertices,
            final(self)@.faces == old(self)@.faces,
            final(self)@.patches == old(self)@.patches,
    {
        self.half_edges.set(index, e);
    }

    /// Replace the outgoing half-edge of vertex `index`.
    pub(crate) fn set_vertex_link(&mut self, index: usize, h: Option<HalfEdgeHandle>)
        requires
            index < old(self)@.nv(),
        ensures
            final(self)@.vertices == old(self)@.vertices.update(
                index as int,
                Vertex { point: old(self)@.vertices[index as int].point, half_edge: h },
            ),
            final(self)@.half_edges == old(self)@.half_edges,
            final(self)@.faces == old(self)@.faces,
            final(self)@.patches == old(self)@.patches,
    {
        let v = Vertex { point: self.vertices[index].point, half_edge: h };
        self.vertices.set(index, v);
    }

    /// Point every vertex at the last half-edge that leaves it.
    pub(crate) fn relink(&mut self)
        requires
            forall|h: int| 0 <= h < old(self)@.nh() ==> #[trigger] old(self)@.org(h) < old(self)@.nv(),
        ensures
            final(self)@.same_but_links(old(self)@),
            final(self)@.links_exact(),
            final(self)@.links_wf(),
            old(self)@.shape_wf() ==> final(self)@.shape_wf(),
    {
        let ghost pre = self@;
        let nv = self.vertices.len();
        let mut v: usize = 0;
        while v < nv
            invariant
                nv == pre.nv(),
                self@.same_but_links(pre),
                v <= nv,
                forall|w: int| 0 <= w < v ==> (#[trigger] self@.vertices[w]).half_edge.is_none(),
            decreases nv - v,
        {
            let ghost before = self@;
            self.set_vertex_link(v, None);
            assert forall|w: int| 0 <= w < self@.nv() implies #[trigger] self@.vertices[w].point
                == pre.vertices[w].point by {
                assert(before.vertices[w].point == pre.vertices[w].point);
            }
            v += 1;
        }
        let nh = self.half_edges.len();
        let mut h: usize = 0;
        while h < nh
            invariant
                nv == pre.nv(),
                nh == pre.nh(),
                self@.same_but_links(pre),
                forall|g: int| 0 <= g < nh ==> #[trigger] pre.org(g) < nv,
                h <= nh,
                self@.links_upto(h as int),
            decreases nh - h,
        {
            let o = self.half_edges[h].origin.0;
            assert(o == pre.org(h as int));
            let ghost before = self@;
            self.set_vertex_link(o, Some(HalfEdgeHandle(h)));
            assert forall|v: int| 0 <= v < self@.nv() implies #[trigger] self@.vertices[v].point
                == pre.vertices[v].point by {
                assert(before.vertices[v].point == pre.vertices[v].point);
            }
            assert forall|v: int| 0 <= v < self@.nv() implies match (
            #[trigger] self@.vertices[v]).half_edge {
                Some(e) => {
                    &&& 0 <= e.0 < h + 1
                    &&& self@.org(e.0 as int) == v
                    &&& forall|g: int| e.0 < g < h + 1 ==> #[trigger] self@.org(g) != v
                },
                None => forall|g: int| 0 <= g < h + 1 ==> #[trigger] self@.org(g) != v,
            } by {
                if v != o {
                    assert(self@.vertices[v] == before.vertices[v]);
                    assert(self@.org(h as int) == o);
                    match self@.vertices[v].half_edge {
                        Some(e) => {
                            assert(self@.org(e.0 as int) == before.org(e.0 as int));
                            assert forall|g: int| e.0 < g < h + 1 implies #[trigger] self@.org(g)
                                != v by {
                                assert(self@.org(g) == before.org(g));
                            }
                        },
                        None => {
                            assert forall|g: int| 0 <= g < h + 1 implies #[trigger] self@.org(g)
                                != v by {
                                assert(self@.org(g) == before.org(g));
                            }
                        },
                    }
                }
            }
            h += 1;
        }
        proof {
            if pre.shape_wf() {
                lemma_same_shape(pre, self@);
            }
            reveal(MeshModel::links_wf);
        }
    }

    /// Append the arrays of another mesh, unchanged.
    pub(crate) fn append_parts(
        &mut self,
        vertices: Vec<Vertex<P>>,
        half_edges: Vec<HalfEdge>,
        faces: Vec<Face>,
        patches: Vec<Patch>,
    )
        ensures
            final(self)@.vertices == old(self)@.vertices + vertices@,
            final(self)@.half_edges == old(self)@.half_edges + half_edges@,
            final(self)@.faces == old(self)@.faces + faces@,
            final(self)@.patches == old(self)@.patches + patches@.map_values(|p: Patch| p.name@),
    {
        let mut vertices = vertices;
        let mut half_edges = half_edges;
        let mut faces = faces;
        let mut patches = patches;
        let ghost old_patches = self.patches@;
        let ghost new_patches = patches@;
        self.vertices.append(&mut vertices);
        self.half_edges.append(&mut half_edges);
        self.faces.append(&mut faces);
        self.patches.append(&mut patches);
        proof {
            assert(self.patches@.map_values(|p: Patch| p.name@) =~= old_patches.map_values(
                |p: Patch| p.name@,
            ) + new_patches.map_values(|p: Patch| p.name@));
        }
    }
}

} // verus!
