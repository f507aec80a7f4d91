//! Merging one mesh into another.

use vstd::prelude::*;

use crate::half_edge::{
    Face, FaceHandle, HalfEdge, HalfEdgeHandle, HeMesh, MeshModel, Patch, PatchHandle, Vertex,
    VertexHandle,
};

verus! {

pub open spec fn shift_link(l: Option<HalfEdgeHandle>, dh: int) -> Option<HalfEdgeHandle> {
    match l {
        Some(h) => Some(HalfEdgeHandle((h.0 + dh) as usize)),
        None => None,
    }
}

pub open spec fn shift_vertex<P>(v: Vertex<P>, dh: int) -> Vertex<P> {
    Vertex { point: v.point, half_edge: shift_link(v.half_edge, dh) }
}

pub open spec fn shift_half_edge(e: HalfEdge, dv: int, df: int, dh: int) -> HalfEdge {
    HalfEdge {
        origin: VertexHandle((e.origin.0 + dv) as usize),
        face: FaceHandle((e.face.0 + df) as usize),
        prev: HalfEdgeHandle((e.prev.0 + dh) as usize),
        next: HalfEdgeHandle((e.next.0 + dh) as usize),
        twin: shift_link(e.twin, dh),
    }
}

pub open spec fn shift_face(f: Face, dh: int, dp: int) -> Face {
    Face {
        half_edge: HalfEdgeHandle((f.half_edge.0 + dh) as usize),
        patch: match f.patch {
            Some(p) => Some(PatchHandle((p.0 + dp) as usize)),
            None => None,
        },
    }
}

/// `a` followed by `b`, with every handle inside `b` moved past the
/// elements of `a`.
pub open spec fn merged<P>(a: MeshModel<P>, b: MeshModel<P>) -> MeshModel<P> {
    MeshModel {
        vertices: a.vertices + b.vertices.map_values(|v: Vertex<P>| shift_vertex(v, a.nh())),
        half_edges: a.half_edges + b.half_edges.map_values(
            |e: HalfEdge| shift_half_edge(e, a.nv(), a.nf(), a.nh()),
        ),
        faces: a.faces + b.faces.map_values(|f: Face| shift_face(f, a.nh(), a.np())),
        patches: a.patches + b.patches,
    }
}

/// The counts of `a` and `b` together fit in `usize`.
pub open spec fn fits_with<P>(a: MeshModel<P>, b: MeshModel<P>) -> bool {
    &&& a.nv() + b.nv() <= usize::MAX
    &&& a.nh() + b.nh() <= usize::MAX
    &&& a.nf() + b.nf() <= usize::MAX
    &&& a.np() + b.np() <= usize::MAX
}

pub proof fn lemma_merged_range<P>(a: MeshModel<P>, b: MeshModel<P>, f: int)
    requires
        a.wf(),
        b.wf(),
        fits_with(a, b),
        0 <= f < merged(a, b).nf(),
    ensures
        merged(a, b).fstart(f) == (if f < a.nf() {
            a.fstart(f)
        } else {
            b.fstart(f - a.nf()) + a.nh()
        }),
        merged(a, b).fend(f) == (if f < a.nf() {
            a.fend(f)
        } else {
            b.fend(f - a.nf()) + a.nh()
        }),
        f < a.nf() ==> a.fstart(f) + 3 <= a.fend(f) <= a.nh(),
        f >= a.nf() ==> b.fstart(f - a.nf()) + 3 <= b.fend(f - a.nf()) <= b.nh(),
{
    reveal(MeshModel::faces_wf);
    let m = merged(a, b);
    if f < a.nf() {
        assert(a.fstart(f) + 3 <= a.fend(f) <= a.nh());
        assert(m.faces[f] == a.faces[f]);
        if f + 1 < a.nf() {
            assert(m.faces[f + 1] == a.faces[f + 1]);
        } else if f + 1 < m.nf() {
            assert(m.faces[f + 1] == shift_face(b.faces[0], a.nh(), a.np()));
            assert(b.fstart(0) == 0);
        } else {
            assert(b.nf() == 0);
        }
    } else {
        assert(b.fstart(f - a.nf()) + 3 <= b.fend(f - a.nf()) <= b.nh());
        assert(m.faces[f] == shift_face(b.faces[f - a.nf()], a.nh(), a.np()));
        if f + 1 < m.nf() {
            assert(m.faces[f + 1] == shift_face(b.faces[f + 1 - a.nf()], a.nh(), a.np()));
        }
    }
}

proof fn lemma_merged_faces_wf<P>(a: MeshModel<P>, b: MeshModel<P>)
    requires
        a.wf(),
        b.wf(),
        fits_with(a, b),
    ensures
        merged(a, b).faces_wf(),
{
    let m = merged(a, b);
    reveal(MeshModel::faces_wf);
    if m.nf() > 0 && a.nf() == 0 {
        assert(m.faces[0] == shift_face(b.faces[0], a.nh(), a.np()));
    }
    if m.nf() == 0 {
        assert(m.nh() == 0);
    }
    assert forall|f: int| 0 <= f < m.nf() implies m.fstart(f) + 3 <= #[trigger] m.fend(f) <= m.nh() by {
        lemma_merged_range(a, b, f);
    }
    assert forall|f: int| #![trigger m.faces[f].patch]
        0 <= f < m.nf() && m.faces[f].patch.is_some() implies m.faces[f].patch.unwrap().0 < m.np() by {
        if f < a.nf() {
            assert(a.faces[f].patch == m.faces[f].patch);
        } else {
            assert(m.faces[f] == shift_face(b.faces[f - a.nf()], a.nh(), a.np()));
            assert(b.faces[f - a.nf()].patch.is_some());
        }
    }
}

proof fn lemma_merged_loops_wf<P>(a: MeshModel<P>, b: MeshModel<P>)
    requires
        a.wf(),
        b.wf(),
        fits_with(a, b),
    ensures
        merged(a, b).loops_wf(),
{
    let m = merged(a, b);
    reveal(MeshModel::loops_wf);
    assert forall|h: int| #![trigger m.half_edges[h]] 0 <= h < m.nh() implies {
        &&& 0 <= m.fc(h) < m.nf()
        &&& m.fstart(m.fc(h)) <= h < m.fend(m.fc(h))
        &&& m.org(h) < m.nv()
        &&& if m.forward(m.fc(h)) {
            m.nxt(h) == m.succ(h) && m.prv(h) == m.pred(h)
        } else {
            m.nxt(h) == m.pred(h) && m.prv(h) == m.succ(h)
        }
    } by {
        if h < a.nh() {
            assert(a.half_edges[h] == a.half_edges[h]);
            let f = a.fc(h);
            lemma_merged_range(a, b, f);
            assert(m.half_edges[a.fstart(f)] == a.half_edges[a.fstart(f)]);
        } else {
            let k = h - a.nh();
            assert(b.half_edges[k] == b.half_edges[k]);
            let f = b.fc(k);
            lemma_merged_range(a, b, f + a.nf());
            assert(m.half_edges[b.fstart(f) + a.nh()] == shift_half_edge(
                b.half_edges[b.fstart(f)],
                a.nv(),
                a.nf(),
                a.nh(),
            ));
        }
    }
    assert forall|f: int, h: int| #![trigger m.fstart(f), m.half_edges[h]]
        0 <= f < m.nf() && m.fstart(f) <= h < m.fend(f) implies m.fc(h) == f by {
        lemma_merged_range(a, b, f);
        if f < a.nf() {
            assert(a.half_edges[h] == a.half_edges[h]);
            assert(a.fstart(f) <= h);
        } else {
            assert(b.half_edges[h - a.nh()] == b.half_edges[h - a.nh()]);
            assert(b.fstart(f - a.nf()) <= h - a.nh());
        }
    }
}

proof fn lemma_merged_twins_wf<P>(a: MeshModel<P>, b: MeshModel<P>)
    requires
        a.wf(),
        b.wf(),
        fits_with(a, b),
    ensures
        merged(a, b).twins_wf(),
{
    let m = merged(a, b);
    reveal(MeshModel::twins_wf);
    assert forall|h: int| #![trigger m.tw(h)] 0 <= h < m.nh() && m.tw(h).is_some() implies {
        let t = m.tw(h).unwrap().0 as int;
        &&& 0 <= t < m.nh()
        &&& t != h
        &&& m.same_edge(h, t)
    } by {
        lemma_merged_half_edge(a, b, h);
        if h < a.nh() {
            assert(a.tw(h) == m.tw(h));
            let t = a.tw(h).unwrap().0 as int;
            assert(a.same_edge(h, t));
            lemma_merged_half_edge(a, b, t);
        } else {
            let k = h - a.nh();
            assert(m.half_edges[h] == shift_half_edge(b.half_edges[k], a.nv(), a.nf(), a.nh()));
            assert(b.tw(k).is_some());
            let t = b.tw(k).unwrap().0 as int;
            assert(b.same_edge(k, t));
            lemma_merged_half_edge(a, b, t + a.nh());
        }
    }
    assert forall|h: int, g: int|
        0 <= h < m.nh() && 0 <= g < m.nh() && h != g && #[trigger] m.same_edge(h, g)
            implies m.tw(h) == Some(HalfEdgeHandle(g as usize)) by {
        lemma_merged_half_edge(a, b, h);
        lemma_merged_half_edge(a, b, g);
        if h < a.nh() && g < a.nh() {
            assert(a.same_edge(h, g));
        } else if h >= a.nh() && g >= a.nh() {
            assert(b.same_edge(h - a.nh(), g - a.nh()));
            assert(m.half_edges[h] == shift_half_edge(b.half_edges[h - a.nh()], a.nv(), a.nf(), a.nh()));
        } else {
            assert(false);
        }
    }
}

proof fn lemma_merged_links_wf<P>(a: MeshModel<P>, b: MeshModel<P>)
    requires
        a.wf(),
        b.wf(),
        fits_with(a, b),
    ensures
        merged(a, b).links_wf(),
{
    let m = merged(a, b);
    reveal(MeshModel::links_wf);
    assert forall|v: int| #![trigger m.vertices[v]]
        0 <= v < m.nv() && m.vertices[v].half_edge.is_some() implies {
        let h = m.vertices[v].half_edge.unwrap().0 as int;
        0 <= h < m.nh() && m.org(h) == v
    } by {
        if v < a.nv() {
            assert(a.vertices[v] == m.vertices[v]);
            let h = a.vertices[v].half_edge.unwrap().0 as int;
            assert(m.half_edges[h] == a.half_edges[h]);
        } else {
            assert(b.vertices[v - a.nv()] == b.vertices[v - a.nv()]);
            let h = b.vertices[v - a.nv()].half_edge.unwrap().0 as int;
            assert(m.half_edges[h + a.nh()] == shift_half_edge(b.half_edges[h], a.nv(), a.nf(), a.nh()));
        }
    }
}

/// Merging two well-formed meshes gives a well-formed mesh.
proof fn lemma_merged_wf<P>(a: MeshModel<P>, b: MeshModel<P>)
    requires
        a.wf(),
        b.wf(),
        fits_with(a, b),
    ensures
        merged(a, b).wf(),
{
    lemma_merged_faces_wf(a, b);
    lemma_merged_loops_wf(a, b);
    lemma_merged_twins_wf(a, b);
    lemma_merged_links_wf(a, b);
}

/// Where half-edge `h` of a merged mesh comes from: its ends, shifted when
/// it comes from `b`.
proof fn lemma_merged_half_edge<P>(a: MeshModel<P>, b: MeshModel<P>, h: int)
    requires
        a.wf(),
        b.wf(),
        fits_with(a, b),
        0 <= h < merged(a, b).nh(),
    ensures
        h < a.nh() ==> merged(a, b).org(h) == a.org(h) && merged(a, b).dst(h) == a.dst(h)
            && merged(a, b).org(h) < a.nv() && merged(a, b).dst(h) < a.nv(),
        h >= a.nh() ==> merged(a, b).org(h) == b.org(h - a.nh()) + a.nv() && merged(a, b).dst(h)
            == b.dst(h - a.nh()) + a.nv(),
{
    let m = merged(a, b);
    if h < a.nh() {
        crate::queries::lemma_loop_links(a, h);
        reveal(MeshModel::loops_wf);
        assert(a.half_edges[h] == a.half_edges[h]);
        let n = a.nxt(h);
        assert(a.half_edges[n] == a.half_edges[n]);
        assert(m.half_edges[n] == a.half_edges[n]);
    } else {
        let k = h - a.nh();
        crate::queries::lemma_loop_links(b, k);
        reveal(MeshModel::loops_wf);
        assert(b.half_edges[k] == b.half_edges[k]);
        let n = b.nxt(k);
        assert(b.half_edges[n] == b.half_edges[n]);
        assert(m.half_edges[n + a.nh()] == shift_half_edge(b.half_edges[n], a.nv(), a.nf(), a.nh()));
    }
}

impl<P: Copy> HeMesh<P> {
    /// Append all of `other`: its vertices, half-edges, faces and patches
    /// follow this mesh's, with every handle inside them moved past this
    /// mesh's elements. No twins are formed between the two parts and
    /// patches of equal names stay distinct.
    pub fn merge(&mut self, other: &HeMesh<P>)
        requires
            old(self)@.wf(),
            other@.wf(),
            old(self)@.nv() + other@.nv() <= usize::MAX,
            old(self)@.nh() + other@.nh() <= usize::MAX,
            old(self)@.nf() + other@.nf() <= usize::MAX,
            old(self)@.np() + other@.np() <= usize::MAX,
        ensures
            final(self)@ == merged(old(self)@, other@),
            final(self)@.wf(),
    {
        let ghost a = self@;
        let ghost b = other@;
        let dv = self.n_vertices();
        let dh = self.n_half_edges();
        let df = self.n_faces();
        let dp = self.n_patches();
        let mut vertices: Vec<Vertex<P>> = Vec::new();
        let mut i: usize = 0;
        while i < other.n_vertices()
            invariant
                b == other@,
                b.wf(),
                dh == a.nh(),
                a.nh() + b.nh() <= usize::MAX,
                i <= b.nv(),
                vertices@ =~= b.vertices.take(i as int).map_values(|v: Vertex<P>| shift_vertex(v, dh as int)),
            decreases b.nv() - i,
        {
            proof {
                reveal(MeshModel::links_wf);
            }
            let v = other.vertex(i);
            let half_edge = match v.half_edge {
                Some(h) => Some(HalfEdgeHandle(h.0 + dh)),
                None => None,
            };
            vertices.push(Vertex { point: v.point, half_edge });
            proof {
                assert(b.vertices.take(i + 1) =~= b.vertices.take(i as int).push(b.vertices[i as int]));
            }
            i += 1;
        }
        let mut half_edges: Vec<HalfEdge> = Vec::new();
        let mut i: usize = 0;
        while i < other.n_half_edges()
            invariant
                b == other@,
                b.wf(),
                dv == a.nv(),
                df == a.nf(),
                dh == a.nh(),
                a.nh() + b.nh() <= usize::MAX,
                a.nv() + b.nv() <= usize::MAX,
                a.nf() + b.nf() <= usize::MAX,
                i <= b.nh(),
                half_edges@ =~= b.half_edges.take(i as int).map_values(
                    |e: HalfEdge| shift_half_edge(e, dv as int, df as int, dh as int),
                ),
            decreases b.nh() - i,
        {
            let e = other.half_edge(i);
            proof {
                crate::queries::lemma_loop_links(b, i as int);
                crate::queries::lemma_twin_links(b, i as int);
                reveal(MeshModel::loops_wf);
                assert(b.half_edges[i as int] == b.half_edges[i as int]);
            }
            let twin = match e.twin {
                Some(t) => Some(HalfEdgeHandle(t.0 + dh)),
                None => None,
            };
            half_edges.push(
                HalfEdge {
                    origin: VertexHandle(e.origin.0 + dv),
                    face: FaceHandle(e.face.0 + df),
                    prev: HalfEdgeHandle(e.prev.0 + dh),
                    next: HalfEdgeHandle(e.next.0 + dh),
                    twin,
                },
            );
            proof {
                assert(b.half_edges.take(i + 1) =~= b.half_edges.take(i as int).push(b.half_edges[i as int]));
            }
            i += 1;
        }
        let mut faces: Vec<Face> = Vec::new();
        let mut i: usize = 0;
        while i < other.n_faces()
            invariant
                b == other@,
                b.wf(),
                dh == a.nh(),
                dp == a.np(),
                a.nh() + b.nh() <= usize::MAX,
                a.np() + b.np() <= usize::MAX,
                i <= b.nf(),
                faces@ =~= b.faces.take(i as int).map_values(|f: Face| shift_face(f, dh as int, dp as int)),
            decreases b.nf() - i,
        {
            let f = other.face(i);
            proof {
                reveal(MeshModel::faces_wf);
                assert(b.fstart(i as int) + 3 <= b.fend(i as int) <= b.nh());
                assert(b.faces[i as int].patch == b.faces[i as int].patch);
            }
            let patch = match f.patch {
                Some(p) => Some(PatchHandle(p.0 + dp)),
                None => None,
            };
            faces.push(Face { half_edge: HalfEdgeHandle(f.half_edge.0 + dh), patch });
            proof {
                assert(b.faces.take(i + 1) =~= b.faces.take(i as int).push(b.faces[i as int]));
            }
            i += 1;
        }
        let mut patches: Vec<Patch> = Vec::new();
        let mut i: usize = 0;
        while i < other.n_patches()
            invariant
                b == other@,
                i <= b.np(),
                patches@.map_values(|p: Patch| p.name@) =~= b.patches.take(i as int),
            decreases b.np() - i,
        {
            let name = other.patch(i).name().to_owned();
            let ghost before = patches@;
            patches.push(Patch { name });
            proof {
                assert(patches@.map_values(|p: Patch| p.name@) =~= before.map_values(|p: Patch| p.name@).push(b.patches[i as int]));
                assert(b.patches.take(i + 1) =~= b.patches.take(i as int).push(b.patches[i as int]));
            }
            i += 1;
        }
        proof {
            assert(b.vertices.take(b.nv()) =~= b.vertices);
            assert(b.half_edges.take(b.nh()) =~= b.half_edges);
            assert(b.faces.take(b.nf()) =~= b.faces);
            assert(b.patches.take(b.np()) =~= b.patches);
        }
        self.append_parts(vertices, half_edges, faces, patches);
        proof {
            assert(self@.vertices =~= merged(a, b).vertices);
            assert(self@.half_edges =~= merged(a, b).half_edges);
            assert(self@.faces =~= merged(a, b).faces);
            assert(self@.patches =~= merged(a, b).patches);
            lemma_merged_wf(a, b);
        }
    }
}

} // verus!
