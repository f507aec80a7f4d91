//! Extracting a subset of the faces into a new, independent mesh.

use vstd::prelude::*;

use crate::half_edge::{
    Face, FaceHandle, HalfEdge, HalfEdgeHandle, HeMesh, MeshModel, Patch, PatchHandle, Vertex,
    VertexHandle,
};
use crate::queries::{lemma_loop_links, lemma_twin_links};

verus! {

impl<P> MeshModel<P> {
    /// The half-edge of `m` that half-edge `h` of this mesh copies, when
    /// this mesh holds the faces `ids` of `m`.
    pub open spec fn source(&self, m: MeshModel<P>, ids: Seq<usize>, h: int) -> int {
        m.fstart(ids[self.fc(h)] as int) + (h - self.fstart(self.fc(h)))
    }

    /// This mesh holds exactly the faces `ids` of `m`, in that order, with
    /// all of `m`'s vertices and patches: same loops, same patches, and
    /// twins only where both faces were kept.
    pub open spec fn keeps(&self, m: MeshModel<P>, ids: Seq<usize>) -> bool {
        &&& self.nv() == m.nv()
        &&& forall|v: int| 0 <= v < self.nv() ==> #[trigger] self.vertices[v].point == m.vertices[v].point
        &&& self.patches == m.patches
        &&& self.nf() == ids.len()
        &&& forall|k: int| #![trigger self.faces[k]]
            0 <= k < self.nf() ==> {
                &&& self.faces[k].patch == m.faces[ids[k] as int].patch
                &&& self.fend(k) - self.fstart(k) == m.fend(ids[k] as int) - m.fstart(ids[k] as int)
                &&& self.forward(k) == m.forward(ids[k] as int)
            }
        &&& forall|h: int| #![trigger self.half_edges[h]]
            0 <= h < self.nh() ==> {
                &&& self.org(h) == m.org(self.source(m, ids, h))
                &&& self.tw(h).is_some() <==> (m.tw(self.source(m, ids, h)).is_some() && ids.contains(
                    m.fc(m.tw(self.source(m, ids, h)).unwrap().0 as int) as usize,
                ))
            }
    }
}

impl<P> MeshModel<P> {
    /// This mesh is `m` with its vertices and patches renumbered: vertex
    /// `v` here is vertex `back[v]` of `m` and patch `p` is patch `pback[p]`,
    /// every vertex and patch is used, and each is numbered in the order in
    /// which half-edges (for vertices) or faces (for patches) first use it.
    pub open spec fn compacts(&self, m: MeshModel<P>, back: Seq<usize>, pback: Seq<usize>) -> bool {
        &&& self.nh() == m.nh()
        &&& self.faces.len() == m.faces.len()
        &&& back.len() == self.nv()
        &&& pback.len() == self.np()
        &&& forall|h: int| #![trigger self.half_edges[h]]
            0 <= h < self.nh() ==> {
                &&& self.half_edges[h].face == m.half_edges[h].face
                &&& self.half_edges[h].next == m.half_edges[h].next
                &&& self.half_edges[h].prev == m.half_edges[h].prev
                &&& self.half_edges[h].twin == m.half_edges[h].twin
                &&& 0 <= self.org(h) < self.nv()
                &&& back[self.org(h)] == m.org(h)
            }
        &&& forall|v: int| #![trigger back[v]]
            0 <= v < self.nv() ==> back[v] < m.nv() && self.vertices[v].point == m.vertices[back[v] as int].point
        &&& forall|v: int, w: int| 0 <= v < self.nv() && 0 <= w < self.nv() && v != w ==> #[trigger] back[v] != #[trigger] back[w]
        &&& forall|h: int, v: int|
            0 <= h < self.nh() && 0 <= v < #[trigger] self.org(h) ==> #[trigger] self.used_before(v, h)
        &&& forall|v: int| 0 <= v < self.nv() ==> #[trigger] self.used_before(v, self.nh())
        &&& forall|f: int| #![trigger self.faces[f]]
            0 <= f < self.nf() ==> self.faces[f].half_edge == m.faces[f].half_edge && match (
                self.faces[f].patch,
                m.faces[f].patch,
            ) {
                (Some(p), Some(q)) => p.0 < self.np() && pback[p.0 as int] == q.0,
                (None, None) => true,
                _ => false,
            }
        &&& forall|p: int| #![trigger pback[p]]
            0 <= p < self.np() ==> pback[p] < m.np() && self.patches[p] == m.patches[pback[p] as int]
        &&& forall|p: int, q: int| 0 <= p < self.np() && 0 <= q < self.np() && p != q ==> #[trigger] pback[p] != #[trigger] pback[q]
        &&& forall|f: int, p: int|
            0 <= f < self.nf() && self.faces[f].patch.is_some() && 0 <= p < #[trigger] self.faces[f].patch.unwrap().0
                ==> #[trigger] self.patch_used_before(p, f)
        &&& forall|p: int| 0 <= p < self.np() ==> #[trigger] self.patch_used_before(p, self.nf())
    }

    /// Some half-edge before `h` leaves vertex `v`.
    pub open spec fn used_before(&self, v: int, h: int) -> bool {
        exists|g: int| 0 <= g < h && #[trigger] self.org(g) == v
    }

    /// Some face before `f` belongs to patch `p`.
    pub open spec fn patch_used_before(&self, p: int, f: int) -> bool {
        exists|g: int| 0 <= g < f && #[trigger] self.faces[g].patch == Some(PatchHandle(p as usize))
    }
}

/// Relinking the vertices keeps what a mesh keeps of another.
proof fn lemma_keeps_relinked<P>(m: MeshModel<P>, ids: Seq<usize>, pre: MeshModel<P>, r: MeshModel<P>)
    requires
        pre.keeps(m, ids),
        r.same_but_links(pre),
    ensures
        r.keeps(m, ids),
{
    assert forall|v: int| 0 <= v < r.nv() implies #[trigger] r.vertices[v].point == m.vertices[v].point by {
        assert(r.vertices[v].point == pre.vertices[v].point);
    }
    assert forall|k: int| #![trigger r.faces[k]] 0 <= k < r.nf() implies {
        &&& r.faces[k].patch == m.faces[ids[k] as int].patch
        &&& r.fend(k) - r.fstart(k) == m.fend(ids[k] as int) - m.fstart(ids[k] as int)
        &&& r.forward(k) == m.forward(ids[k] as int)
    } by {
        assert(pre.faces[k] == r.faces[k]);
    }
    assert forall|h: int| #![trigger r.half_edges[h]] 0 <= h < r.nh() implies {
        &&& r.org(h) == m.org(r.source(m, ids, h))
        &&& r.tw(h).is_some() <==> (m.tw(r.source(m, ids, h)).is_some() && ids.contains(
            m.fc(m.tw(r.source(m, ids, h)).unwrap().0 as int) as usize,
        ))
    } by {
        assert(pre.half_edges[h] == r.half_edges[h]);
    }
}

/// Relabelled half-edges and relabelled faces, put together, renumber `m`.
proof fn lemma_compact_parts<P>(
    m: MeshModel<P>,
    o1: MeshModel<P>,
    o2: MeshModel<P>,
    r: MeshModel<P>,
    back: Seq<usize>,
    pback: Seq<usize>,
)
    requires
        o1.half_edges.len() == m.nh(),
        o2.faces.len() == m.faces.len(),
        o1.vertices == back.map_values(|v: usize| m.vertices[v as int]),
        o1.faces == m.faces,
        o2.patches == pback.map_values(|p: usize| m.patches[p as int]),
        r.half_edges == o1.half_edges,
        r.faces == o2.faces,
        r.patches == o2.patches,
        r.nv() == back.len(),
        forall|v: int| 0 <= v < r.nv() ==> #[trigger] r.vertices[v].point == m.vertices[back[v] as int].point,
        forall|h: int| #![trigger o1.half_edges[h]]
            0 <= h < o1.nh() ==> {
                &&& o1.half_edges[h].face == m.half_edges[h].face
                &&& o1.half_edges[h].next == m.half_edges[h].next
                &&& o1.half_edges[h].prev == m.half_edges[h].prev
                &&& o1.half_edges[h].twin == m.half_edges[h].twin
                &&& 0 <= o1.org(h) < o1.nv()
                &&& back[o1.org(h)] == m.org(h)
            },
        forall|v: int| #![trigger back[v]] 0 <= v < back.len() ==> back[v] < m.nv(),
        forall|v: int, w: int| 0 <= v < back.len() && 0 <= w < back.len() && v != w ==> #[trigger] back[v] != #[trigger] back[w],
        forall|h: int, v: int|
            0 <= h < o1.nh() && 0 <= v < #[trigger] o1.org(h) ==> #[trigger] o1.used_before(v, h),
        forall|v: int| 0 <= v < o1.nv() ==> #[trigger] o1.used_before(v, o1.nh()),
        forall|f: int| #![trigger o2.faces[f]]
            0 <= f < o2.nf() ==> o2.faces[f].half_edge == m.faces[f].half_edge && match (
                o2.faces[f].patch,
                m.faces[f].patch,
            ) {
                (Some(p), Some(q)) => p.0 < o2.np() && pback[p.0 as int] == q.0,
                (None, None) => true,
                _ => false,
            },
        forall|p: int| #![trigger pback[p]] 0 <= p < pback.len() ==> pback[p] < m.np(),
        forall|p: int, q: int| 0 <= p < pback.len() && 0 <= q < pback.len() && p != q ==> #[trigger] pback[p] != #[trigger] pback[q],
        forall|f: int, p: int|
            0 <= f < o2.nf() && o2.faces[f].patch.is_some() && 0 <= p < #[trigger] o2.faces[f].patch.unwrap().0
                ==> #[trigger] o2.patch_used_before(p, f),
        forall|p: int| 0 <= p < o2.np() ==> #[trigger] o2.patch_used_before(p, o2.nf()),
    ensures
        r.compacts(m, back, pback),
{
    assert forall|h: int, v: int| 0 <= h < r.nh() && 0 <= v < #[trigger] r.org(h) implies #[trigger] r.used_before(v, h) by {
        assert(o1.org(h) == r.org(h));
        assert(o1.used_before(v, h));
        let g = choose|g: int| 0 <= g < h && #[trigger] o1.org(g) == v;
        assert(r.org(g) == o1.org(g));
    }
    assert forall|v: int| 0 <= v < r.nv() implies #[trigger] r.used_before(v, r.nh()) by {
        assert(o1.used_before(v, o1.nh()));
        let g = choose|g: int| 0 <= g < o1.nh() && #[trigger] o1.org(g) == v;
        assert(r.org(g) == o1.org(g));
    }
    assert forall|f: int, p: int|
        0 <= f < r.nf() && r.faces[f].patch.is_some() && 0 <= p < #[trigger] r.faces[f].patch.unwrap().0
        implies #[trigger] r.patch_used_before(p, f) by {
        assert(o2.faces[f] == r.faces[f]);
        assert(o2.patch_used_before(p, f));
        let g = choose|g: int| 0 <= g < f && #[trigger] o2.faces[g].patch == Some(PatchHandle(p as usize));
        assert(r.faces[g] == o2.faces[g]);
    }
    assert forall|p: int| 0 <= p < r.np() implies #[trigger] r.patch_used_before(p, r.nf()) by {
        assert(o2.patch_used_before(p, o2.nf()));
        let g = choose|g: int| 0 <= g < o2.nf() && #[trigger] o2.faces[g].patch == Some(PatchHandle(p as usize));
        assert(r.faces[g] == o2.faces[g]);
    }
    assert forall|h: int| #![trigger r.half_edges[h]] 0 <= h < r.nh() implies {
        &&& r.half_edges[h].face == m.half_edges[h].face
        &&& r.half_edges[h].next == m.half_edges[h].next
        &&& r.half_edges[h].prev == m.half_edges[h].prev
        &&& r.half_edges[h].twin == m.half_edges[h].twin
        &&& 0 <= r.org(h) < r.nv()
        &&& back[r.org(h)] == m.org(h)
    } by {
        assert(o1.half_edges[h] == r.half_edges[h]);
    }
    assert forall|f: int| #![trigger r.faces[f]] 0 <= f < r.nf() implies r.faces[f].half_edge == m.faces[f].half_edge && match (
        r.faces[f].patch,
        m.faces[f].patch,
    ) {
        (Some(p), Some(q)) => p.0 < r.np() && pback[p.0 as int] == q.0,
        (None, None) => true,
        _ => false,
    } by {
        assert(o2.faces[f] == r.faces[f]);
    }
    assert forall|v: int| #![trigger back[v]] 0 <= v < r.nv() implies back[v] < m.nv() && r.vertices[v].point == m.vertices[back[v] as int].point by {}
    assert forall|p: int| #![trigger pback[p]] 0 <= p < r.np() implies pback[p] < m.np() && r.patches[p] == m.patches[pback[p] as int] by {}
}

/// Relinking the vertices keeps a renumbering.
proof fn lemma_compacts_relinked<P>(
    m: MeshModel<P>,
    pre: MeshModel<P>,
    r: MeshModel<P>,
    back: Seq<usize>,
    pback: Seq<usize>,
)
    requires
        pre.compacts(m, back, pback),
        r.same_but_links(pre),
    ensures
        r.compacts(m, back, pback),
{
    assert forall|v: int| #![trigger back[v]] 0 <= v < r.nv() implies back[v] < m.nv() && r.vertices[v].point == m.vertices[back[v] as int].point by {
        assert(pre.vertices[v].point == r.vertices[v].point);
    }
    assert forall|h: int, v: int| 0 <= h < r.nh() && 0 <= v < #[trigger] r.org(h) implies #[trigger] r.used_before(v, h) by {
        assert(pre.org(h) == r.org(h));
        assert(pre.used_before(v, h));
        let g = choose|g: int| 0 <= g < h && #[trigger] pre.org(g) == v;
        assert(r.org(g) == pre.org(g));
    }
    assert forall|v: int| 0 <= v < r.nv() implies #[trigger] r.used_before(v, r.nh()) by {
        assert(pre.used_before(v, pre.nh()));
        let g = choose|g: int| 0 <= g < pre.nh() && #[trigger] pre.org(g) == v;
        assert(r.org(g) == pre.org(g));
    }
    assert forall|h: int| #![trigger r.half_edges[h]] 0 <= h < r.nh() implies {
        &&& r.half_edges[h].face == m.half_edges[h].face
        &&& r.half_edges[h].next == m.half_edges[h].next
        &&& r.half_edges[h].prev == m.half_edges[h].prev
        &&& r.half_edges[h].twin == m.half_edges[h].twin
        &&& 0 <= r.org(h) < r.nv()
        &&& back[r.org(h)] == m.org(h)
    } by {
        assert(pre.half_edges[h] == r.half_edges[h]);
    }
    assert forall|f: int| #![trigger r.faces[f]] 0 <= f < r.nf() implies r.faces[f].half_edge == m.faces[f].half_edge && match (
        r.faces[f].patch,
        m.faces[f].patch,
    ) {
        (Some(p), Some(q)) => p.0 < r.np() && pback[p.0 as int] == q.0,
        (None, None) => true,
        _ => false,
    } by {
        assert(pre.faces[f] == r.faces[f]);
    }
    assert forall|f: int, p: int|
        0 <= f < r.nf() && r.faces[f].patch.is_some() && 0 <= p < #[trigger] r.faces[f].patch.unwrap().0
        implies #[trigger] r.patch_used_before(p, f) by {
        assert(pre.faces[f] == r.faces[f]);
        assert(pre.patch_used_before(p, f));
        let g = choose|g: int| 0 <= g < f && #[trigger] pre.faces[g].patch == Some(PatchHandle(p as usize));
        assert(r.faces[g] == pre.faces[g]);
    }
    assert forall|p: int| 0 <= p < r.np() implies #[trigger] r.patch_used_before(p, r.nf()) by {
        assert(pre.patch_used_before(p, pre.nf()));
        let g = choose|g: int| 0 <= g < pre.nf() && #[trigger] pre.faces[g].patch == Some(PatchHandle(p as usize));
        assert(r.faces[g] == pre.faces[g]);
    }
    assert forall|p: int| #![trigger pback[p]] 0 <= p < r.np() implies pback[p] < m.np() && r.patches[p] == m.patches[pback[p] as int] by {
        assert(pre.patches[p] == r.patches[p]);
    }
}

/// Renumbering vertices and patches keeps a mesh well-formed.
proof fn lemma_compact_shape<P>(m: MeshModel<P>, o: MeshModel<P>, back: Seq<usize>, pback: Seq<usize>)
    requires
        m.wf(),
        o.nh() == m.nh(),
        o.faces.len() == m.faces.len(),
        back.len() == o.nv(),
        pback.len() == o.np(),
        forall|h: int| #![trigger o.half_edges[h]]
            0 <= h < o.nh() ==> {
                &&& o.half_edges[h].face == m.half_edges[h].face
                &&& o.half_edges[h].next == m.half_edges[h].next
                &&& o.half_edges[h].prev == m.half_edges[h].prev
                &&& o.half_edges[h].twin == m.half_edges[h].twin
                &&& 0 <= o.org(h) < o.nv()
                &&& back[o.org(h)] == m.org(h)
            },
        forall|v: int, w: int| 0 <= v < o.nv() && 0 <= w < o.nv() && v != w ==> #[trigger] back[v] != #[trigger] back[w],
        forall|f: int| #![trigger o.faces[f]]
            0 <= f < o.nf() ==> o.faces[f].half_edge == m.faces[f].half_edge && match (
                o.faces[f].patch,
                m.faces[f].patch,
            ) {
                (Some(p), Some(q)) => p.0 < o.np() && pback[p.0 as int] == q.0,
                (None, None) => true,
                _ => false,
            },
    ensures
        o.shape_wf(),
{
    assert forall|f: int| 0 <= f < o.nf() implies #[trigger] o.fstart(f) == m.fstart(f) && o.fend(f) == m.fend(f) by {
        assert(o.faces[f] == o.faces[f]);
        if f + 1 < o.nf() {
            assert(o.faces[f + 1] == o.faces[f + 1]);
        }
    }
    assert(o.faces_wf()) by {
        reveal(MeshModel::faces_wf);
        if o.nf() > 0 {
            assert(o.faces[0] == o.faces[0]);
        }
        assert forall|f: int| 0 <= f < o.nf() implies o.fstart(f) + 3 <= #[trigger] o.fend(f) <= o.nh() by {
            assert(m.fstart(f) + 3 <= m.fend(f) <= m.nh());
        }
        assert forall|f: int| #![trigger o.faces[f].patch]
            0 <= f < o.nf() && o.faces[f].patch.is_some() implies o.faces[f].patch.unwrap().0 < o.np() by {
            assert(o.faces[f] == o.faces[f]);
        }
    }
    assert(o.loops_wf()) by {
        reveal(MeshModel::loops_wf);
        assert forall|h: int| #![trigger o.half_edges[h]] 0 <= h < o.nh() implies {
            &&& 0 <= o.fc(h) < o.nf()
            &&& o.fstart(o.fc(h)) <= h < o.fend(o.fc(h))
            &&& o.org(h) < o.nv()
            &&& if o.forward(o.fc(h)) {
                o.nxt(h) == o.succ(h) && o.prv(h) == o.pred(h)
            } else {
                o.nxt(h) == o.pred(h) && o.prv(h) == o.succ(h)
            }
        } by {
            assert(m.half_edges[h] == m.half_edges[h]);
            let f = m.fc(h);
            assert(o.fstart(f) == m.fstart(f));
            assert(o.half_edges[m.fstart(f)] == o.half_edges[m.fstart(f)]);
            reveal(MeshModel::faces_wf);
            assert(m.fstart(f) + 3 <= m.fend(f) <= m.nh());
        }
        assert forall|f: int, h: int| #![trigger o.fstart(f), o.half_edges[h]]
            0 <= f < o.nf() && o.fstart(f) <= h < o.fend(f) implies o.fc(h) == f by {
            assert(o.fstart(f) == m.fstart(f));
            reveal(MeshModel::faces_wf);
            assert(m.fstart(f) + 3 <= m.fend(f) <= m.nh());
            assert(m.fc(h) == f);
            assert(o.half_edges[h] == o.half_edges[h]);
        }
    }
    assert(o.twins_wf()) by {
        assert forall|h: int, g: int| 0 <= h < o.nh() && 0 <= g < o.nh() implies #[trigger] o.same_edge(h, g) == m.same_edge(h, g) by {
            lemma_loop_links(m, h);
            lemma_loop_links(m, g);
            assert(o.half_edges[h] == o.half_edges[h]);
            assert(o.half_edges[g] == o.half_edges[g]);
            assert(o.half_edges[m.nxt(h)] == o.half_edges[m.nxt(h)]);
            assert(o.half_edges[m.nxt(g)] == o.half_edges[m.nxt(g)]);
        }
        reveal(MeshModel::twins_wf);
        assert forall|h: int| #![trigger o.tw(h)] 0 <= h < o.nh() && o.tw(h).is_some() implies {
            let t = o.tw(h).unwrap().0 as int;
            &&& 0 <= t < o.nh()
            &&& t != h
            &&& o.same_edge(h, t)
        } by {
            assert(o.half_edges[h] == o.half_edges[h]);
            assert(m.tw(h) == o.tw(h));
        }
        assert forall|h: int, g: int|
            0 <= h < o.nh() && 0 <= g < o.nh() && h != g && #[trigger] o.same_edge(h, g)
                implies o.tw(h) == Some(HalfEdgeHandle(g as usize)) by {
            assert(o.half_edges[h] == o.half_edges[h]);
            assert(m.same_edge(h, g));
        }
    }
}

impl<P> MeshModel<P> {
    /// This mesh holds the faces `ids` of `m`, in that order, with only the
    /// vertices and patches they use, renumbered in order of first use.
    pub open spec fn extracted_from(&self, m: MeshModel<P>, ids: Seq<usize>) -> bool {
        exists|k: MeshModel<P>, back: Seq<usize>, pback: Seq<usize>|
            k.wf() && #[trigger] k.keeps(m, ids) && #[trigger] self.compacts(k, back, pback)
    }
}

impl<P> MeshModel<P> {
    /// Face `f` belongs to a patch whose name is one of `names`.
    pub open spec fn in_named_patch(&self, f: int, names: Seq<Seq<char>>) -> bool {
        self.faces[f].patch.is_some() && names.contains(self.patches[self.faces[f].patch.unwrap().0 as int])
    }

    /// The faces among the first `n` that belong to a patch named in
    /// `names`, in ascending order.
    pub open spec fn faces_named(&self, names: Seq<Seq<char>>, n: int) -> Seq<usize>
        decreases n,
    {
        if n <= 0 {
            seq![]
        } else if self.in_named_patch(n - 1, names) {
            self.faces_named(names, n - 1).push((n - 1) as usize)
        } else {
            self.faces_named(names, n - 1)
        }
    }
}

pub open spec fn texts(names: Seq<String>) -> Seq<Seq<char>> {
    names.map_values(|s: String| s@)
}

/// Whether two strings hold the same characters.
pub fn same_text(a: &str, b: &str) -> (r: bool)
    ensures
        r == (a@ == b@),
{
    let n = a.unicode_len();
    if n != b.unicode_len() {
        return false;
    }
    let mut i: usize = 0;
    while i < n
        invariant
            n == a@.len(),
            n == b@.len(),
            i <= n,
            a@.take(i as int) =~= b@.take(i as int),
        decreases n - i,
    {
        if a.get_char(i) != b.get_char(i) {
            assert(a@[i as int] != b@[i as int]);
            return false;
        }
        assert(a@.take(i + 1) =~= a@.take(i as int).push(a@[i as int]));
        assert(b@.take(i + 1) =~= b@.take(i as int).push(b@[i as int]));
        i += 1;
    }
    assert(a@.take(n as int) =~= a@);
    assert(b@.take(n as int) =~= b@);
    true
}

proof fn lemma_faces_named_bounded<P>(m: MeshModel<P>, names: Seq<Seq<char>>, n: int)
    requires
        0 <= n <= usize::MAX,
    ensures
        forall|i: int| 0 <= i < m.faces_named(names, n).len() ==> #[trigger] m.faces_named(names, n)[i] < n,
        forall|i: int, j: int| 0 <= i < j < m.faces_named(names, n).len() ==> #[trigger] m.faces_named(names, n)[i] < #[trigger] m.faces_named(names, n)[j],
    decreases n,
{
    if n > 0 {
        lemma_faces_named_bounded(m, names, n - 1);
        let prev = m.faces_named(names, n - 1);
        let cur = m.faces_named(names, n);
        assert forall|i: int| 0 <= i < cur.len() implies #[trigger] cur[i] < n by {
            if i < prev.len() {
                assert(cur[i] == prev[i]);
            }
        }
        assert forall|i: int, j: int| 0 <= i < j < cur.len() implies #[trigger] cur[i] < #[trigger] cur[j] by {
            if j < prev.len() {
                assert(cur[i] == prev[i]);
                assert(cur[j] == prev[j]);
            } else {
                assert(m.in_named_patch(n - 1, names));
                assert(cur == prev.push((n - 1) as usize));
                assert(cur[i] == prev[i]);
                assert(prev[i] < n - 1);
                assert(cur[j] == n - 1);
            }
        }
    }
}

pub open spec fn distinct_faces(ids: Seq<usize>, nf: int) -> bool {
    &&& forall|k: int| 0 <= k < ids.len() ==> #[trigger] ids[k] < nf
    &&& forall|k1: int, k2: int|
        0 <= k1 < ids.len() && 0 <= k2 < ids.len() && k1 != k2 ==> ids[k1] != ids[k2]
}

pub open spec fn fsize<P>(m: MeshModel<P>, f: int) -> int {
    m.fend(f) - m.fstart(f)
}

/// The faces and half-edges of `m`'s faces `ids` copied in order, with
/// their origins and faces set; `faces[k]` starts where face `k` starts.
pub open spec fn copied<P>(
    m: MeshModel<P>,
    ids: Seq<usize>,
    n: int,
    faces: Seq<Face>,
    hes: Seq<HalfEdge>,
) -> bool {
    &&& faces.len() == n
    &&& n > 0 ==> faces[0].half_edge.0 == 0
    &&& n == 0 ==> hes.len() == 0
    &&& forall|k: int| #![trigger faces[k]]
        0 <= k < n ==> {
            &&& faces[k].patch == m.faces[ids[k] as int].patch
            &&& faces[k].half_edge.0 + fsize(m, ids[k] as int) == if k + 1 < n {
                faces[k + 1].half_edge.0 as int
            } else {
                hes.len() as int
            }
        }
    &&& forall|h: int| #![trigger hes[h]]
        0 <= h < hes.len() ==> {
            let k = hes[h].face.0 as int;
            &&& 0 <= k < n
            &&& faces[k].half_edge.0 <= h < faces[k].half_edge.0 + fsize(m, ids[k] as int)
            &&& hes[h].origin.0 == m.org(m.fstart(ids[k] as int) + (h - faces[k].half_edge.0))
        }
    &&& forall|k: int, h: int| #![trigger faces[k], hes[h]]
        0 <= k < n && faces[k].half_edge.0 <= h < faces[k].half_edge.0 + fsize(m, ids[k] as int)
            ==> hes[h].face.0 == k
}

impl<P: Copy> HeMesh<P> {
    /// Copy the faces `ids` and their half-edges, origins and faces only;
    /// `pos[f]` is where face `f` went, if it was kept.
    fn copy_faces(&self, ids: &Vec<usize>) -> (r: (Vec<Face>, Vec<HalfEdge>, Vec<Option<usize>>))
        requires
            self@.wf(),
            distinct_faces(ids@, self@.nf()),
        ensures
            copied(self@, ids@, ids@.len() as int, r.0@, r.1@),
            r.1@.len() <= usize::MAX,
            r.2@.len() == self@.nf(),
            forall|f: int| #![trigger r.2@[f]]
                0 <= f < self@.nf() && r.2@[f].is_some() ==> r.2@[f].unwrap() < ids@.len() && ids@[r.2@[f].unwrap() as int] == f,
            forall|k: int| 0 <= k < ids@.len() ==> r.2@[#[trigger] ids@[k] as int] == Some(k as usize),
    {
        let ghost m = self@;
        let nf = self.n_faces();
        let mut pos: Vec<Option<usize>> = Vec::new();
        let mut f: usize = 0;
        while f < nf
            invariant
                f <= nf,
                pos@.len() == f,
                forall|g: int| 0 <= g < f ==> (#[trigger] pos@[g]).is_none(),
            decreases nf - f,
        {
            pos.push(None);
            f += 1;
        }
        let mut faces: Vec<Face> = Vec::new();
        let mut hes: Vec<HalfEdge> = Vec::new();
        let n = ids.len();
        let mut k: usize = 0;
        while k < n
            invariant
                m == self@,
                m.wf(),
                nf == m.nf(),
                n == ids@.len(),
                distinct_faces(ids@, m.nf()),
                k <= n,
                pos@.len() == nf,
                forall|g: int| #![trigger pos@[g]]
                    0 <= g < nf && pos@[g].is_some() ==> pos@[g].unwrap() < k && ids@[pos@[g].unwrap() as int] == g,
                forall|k2: int| 0 <= k2 < k ==> pos@[#[trigger] ids@[k2] as int] == Some(k2 as usize),
                copied(m, ids@, k as int, faces@, hes@),
            decreases n - k,
        {
            let f = ids[k];
            let (fs, fe) = self.face_range(f);
            let ghost pos0 = pos@;
            pos.set(f, Some(k));
            proof {
                assert forall|k2: int| 0 <= k2 < k + 1 implies pos@[#[trigger] ids@[k2] as int] == Some(k2 as usize) by {
                    if k2 < k {
                        assert(ids@[k2] != ids@[k as int]);
                    }
                }
                assert forall|g: int| #![trigger pos@[g]]
                    0 <= g < nf && pos@[g].is_some() implies pos@[g].unwrap() < k + 1 && ids@[pos@[g].unwrap() as int] == g by {
                    if g != f {
                        assert(pos@[g] == pos0[g]);
                    }
                }
            }
            let s = hes.len();
            let ghost faces0 = faces@;
            let ghost hes0 = hes@;
            faces.push(Face { half_edge: HalfEdgeHandle(s), patch: self.face(f).patch });
            let mut h = fs;
            while h < fe
                invariant
                    m == self@,
                    m.wf(),
                    k < n,
                    n == ids@.len(),
                    f == ids@[k as int],
                    f < m.nf(),
                    fs == m.fstart(f as int),
                    fe == m.fend(f as int),
                    fs + 3 <= fe <= m.nh(),
                    fs <= h <= fe,
                    s == hes0.len(),
                    hes@.len() == s + (h - fs),
                    copied(m, ids@, k as int, faces0, hes0),
                    faces@ == faces0.push(Face { half_edge: HalfEdgeHandle(s), patch: m.faces[f as int].patch }),
                    forall|e: int| #![trigger hes@[e]] 0 <= e < s ==> hes@[e] == hes0[e],
                    forall|e: int| #![trigger hes@[e]]
                        s <= e < hes@.len() ==> hes@[e].face.0 == k && hes@[e].origin.0 == m.org(fs + (e - s)),
                decreases fe - h,
            {
                let o = self.half_edge(h).origin;
                hes.push(
                    HalfEdge {
                        origin: o,
                        face: FaceHandle(k),
                        prev: HalfEdgeHandle(0),
                        next: HalfEdgeHandle(0),
                        twin: None,
                    },
                );
                h += 1;
            }
            proof {
                lemma_copied_step(m, ids@, k as int, faces0, hes0, faces@, hes@);
            }
            k += 1;
        }
        // The number of copied half-edges fits in `usize`.
        let nhes = hes.len();
        assert(nhes == hes@.len());
        (faces, hes, pos)
    }

    /// A new mesh of the faces `ids`, in that order, with all vertices and
    /// patches of this one.
    fn keep_faces(&self, ids: &Vec<usize>) -> (r: HeMesh<P>)
        requires
            self@.wf(),
            distinct_faces(ids@, self@.nf()),
        ensures
            r@.wf(),
            r@.keeps(self@, ids@),
    {
        let ghost m = self@;
        let (faces, hes, pos) = self.copy_faces(ids);
        let mut hes = hes;
        let ghost hes0 = hes@;
        self.link_copies(ids, &faces, &mut hes, &pos);
        let nv = self.n_vertices();
        let mut vertices: Vec<Vertex<P>> = Vec::new();
        let mut v: usize = 0;
        while v < nv
            invariant
                m == self@,
                nv == m.nv(),
                v <= nv,
                vertices@.len() == v,
                forall|w: int| 0 <= w < v ==> #[trigger] vertices@[w].point == m.vertices[w].point,
            decreases nv - v,
        {
            vertices.push(Vertex { point: self.vertex(v).point, half_edge: None });
            v += 1;
        }
        let np = self.n_patches();
        let mut patches: Vec<Patch> = Vec::new();
        let mut i: usize = 0;
        while i < np
            invariant
                m == self@,
                np == m.np(),
                i <= np,
                patches@.map_values(|p: Patch| p.name@) =~= m.patches.take(i as int),
            decreases np - i,
        {
            let name = self.patch(i).name().to_owned();
            let ghost before = patches@;
            patches.push(Patch { name });
            proof {
                assert(patches@.map_values(|p: Patch| p.name@) =~= before.map_values(|p: Patch| p.name@).push(m.patches[i as int]));
                assert(m.patches.take(i + 1) =~= m.patches.take(i as int).push(m.patches[i as int]));
            }
            i += 1;
        }
        proof {
            assert(m.patches.take(m.np()) =~= m.patches);
        }
        let mut r = HeMesh::from_parts(vertices, hes, faces, patches);
        proof {
            reveal(copy_facts);
            assert(copy_facts(m, ids@, hes0, pos@, r@));
            lemma_copy_keeps(m, ids@, hes0, pos@, r@);
            reveal(MeshModel::loops_wf);
            assert forall|h: int| 0 <= h < r@.nh() implies #[trigger] r@.org(h) < r@.nv() by {
                assert(r@.half_edges[h] == r@.half_edges[h]);
            }
        }
        let ghost pre = r@;
        r.relink();
        proof {
            lemma_keeps_relinked(m, ids@, pre, r@);
        }
        r
    }

    /// A new, independent mesh of exactly the faces `face_ids`, in that
    /// order. Vertices and patches that no kept face uses are dropped and
    /// the others renumbered in order of first use; an edge shared with a
    /// face that is not kept becomes a boundary edge.
    pub fn extract_faces(&self, face_ids: &Vec<usize>) -> (r: HeMesh<P>)
        requires
            self@.wf(),
            distinct_faces(face_ids@, self@.nf()),
        ensures
            r@.wf(),
            r@.extracted_from(self@, face_ids@),
    {
        let k = self.keep_faces(face_ids);
        let r = k.compact();
        proof {
            let (back, pback) = choose|back: Seq<usize>, pback: Seq<usize>| #[trigger] r@.compacts(k@, back, pback);
            assert(k@.keeps(self@, face_ids@) && r@.compacts(k@, back, pback));
        }
        r
    }

    /// The faces that belong to a patch named in `names`, in ascending
    /// order.
    pub fn faces_in_patches(&self, names: &Vec<String>) -> (r: Vec<usize>)
        requires
            self@.wf(),
        ensures
            r@ == self@.faces_named(texts(names@), self@.nf()),
    {
        let ghost m = self@;
        let ghost ns = texts(names@);
        let nf = self.n_faces();
        let mut r: Vec<usize> = Vec::new();
        let mut f: usize = 0;
        while f < nf
            invariant
                m == self@,
                m.wf(),
                ns == texts(names@),
                nf == m.nf(),
                f <= nf,
                r@ == m.faces_named(ns, f as int),
            decreases nf - f,
        {
            let mut hit = false;
            match self.face(f).patch {
                Some(p) => {
                    proof {
                        reveal(MeshModel::faces_wf);
                        assert(m.faces[f as int].patch == m.faces[f as int].patch);
                    }
                    let name = self.patch(p.0).name();
                    let mut i: usize = 0;
                    while i < names.len()
                        invariant
                            i <= names@.len(),
                            ns == texts(names@),
                            name@ == m.patches[p.0 as int],
                            hit == exists|j: int| 0 <= j < i && ns[j] == name@,
                        decreases names@.len() - i,
                    {
                        let same = same_text(names[i].as_str(), name);
                        assert(ns[i as int] == names@[i as int]@);
                        if same {
                            hit = true;
                        }
                        i += 1;
                    }
                    proof {
                        if hit {
                            let j = choose|j: int| 0 <= j < names@.len() && ns[j] == name@;
                            assert(ns.contains(m.patches[p.0 as int]));
                        } else {
                            if ns.contains(m.patches[p.0 as int]) {
                                let j = choose|j: int| 0 <= j < ns.len() && ns[j] == m.patches[p.0 as int];
                                assert(false);
                            }
                        }
                    }
                },
                None => {},
            }
            if hit {
                r.push(f);
            }
            f += 1;
        }
        r
    }

    /// A new mesh of the faces that belong to a patch named in `names`, in
    /// ascending order; see `extract_faces`.
    pub fn extract_patches(&self, names: &Vec<String>) -> (r: HeMesh<P>)
        requires
            self@.wf(),
        ensures
            r@.wf(),
            r@.extracted_from(self@, self@.faces_named(texts(names@), self@.nf())),
    {
        // The number of faces fits in `usize`.
        let nf = self.n_faces();
        assert(nf == self@.nf());
        let ids = self.faces_in_patches(names);
        proof {
            lemma_faces_named_bounded(self@, texts(names@), self@.nf());
            let s = ids@;
            assert forall|k1: int, k2: int| 0 <= k1 < s.len() && 0 <= k2 < s.len() && k1 != k2 implies s[k1] != s[k2] by {
                if k1 < k2 {
                    assert(s[k1] < s[k2]);
                } else {
                    assert(s[k2] < s[k1]);
                }
            }
        }
        self.extract_faces(&ids)
    }

    /// Renumber the vertices in the order in which half-edges first leave
    /// them, dropping the others; returns the half-edges and, for each new
    /// vertex, the old one.
    fn relabel_vertices(&self) -> (r: (Vec<HalfEdge>, Vec<usize>))
        requires
            self@.wf(),
        ensures
            r.0@.len() == self@.nh(),
            ({
                let o = MeshModel { vertices: r.1@.map_values(|v: usize| self@.vertices[v as int]), half_edges: r.0@, faces: self@.faces, patches: self@.patches };
                &&& forall|h: int| #![trigger o.half_edges[h]]
                    0 <= h < o.nh() ==> {
                        &&& o.half_edges[h].face == self@.half_edges[h].face
                        &&& o.half_edges[h].next == self@.half_edges[h].next
                        &&& o.half_edges[h].prev == self@.half_edges[h].prev
                        &&& o.half_edges[h].twin == self@.half_edges[h].twin
                        &&& 0 <= o.org(h) < o.nv()
                        &&& r.1@[o.org(h)] == self@.org(h)
                    }
                &&& forall|v: int| #![trigger r.1@[v]] 0 <= v < r.1@.len() ==> r.1@[v] < self@.nv()
                &&& forall|v: int, w: int| 0 <= v < r.1@.len() && 0 <= w < r.1@.len() && v != w ==> #[trigger] r.1@[v] != #[trigger] r.1@[w]
                &&& forall|h: int, v: int|
                    0 <= h < o.nh() && 0 <= v < #[trigger] o.org(h) ==> #[trigger] o.used_before(v, h)
                &&& forall|v: int| 0 <= v < o.nv() ==> #[trigger] o.used_before(v, o.nh())
            }),
    {
        let ghost m = self@;
        let nv = self.n_vertices();
        let nh = self.n_half_edges();
        let mut vmap: Vec<Option<usize>> = Vec::new();
        let mut v: usize = 0;
        while v < nv
            invariant
                v <= nv,
                vmap@.len() == v,
                forall|w: int| 0 <= w < v ==> (#[trigger] vmap@[w]).is_none(),
            decreases nv - v,
        {
            vmap.push(None);
            v += 1;
        }
        let mut back: Vec<usize> = Vec::new();
        let mut hes: Vec<HalfEdge> = Vec::new();
        let ghost mut first: Seq<int> = Seq::empty();
        let mut h: usize = 0;
        while h < nh
            invariant
                m == self@,
                m.wf(),
                nv == m.nv(),
                nh == m.nh(),
                h <= nh,
                vmap@.len() == nv,
                hes@.len() == h,
                back@.len() <= h,
                first.len() == back@.len(),
                forall|w: int| #![trigger vmap@[w]]
                    0 <= w < nv && vmap@[w].is_some() ==> vmap@[w].unwrap() < back@.len() && back@[vmap@[w].unwrap() as int] == w,
                forall|i: int| #![trigger back@[i]]
                    0 <= i < back@.len() ==> back@[i] < nv && vmap@[back@[i] as int] == Some(i as usize),
                forall|i: int| #![trigger first[i]]
                    0 <= i < first.len() ==> 0 <= first[i] < h && hes@[first[i]].origin.0 == i,
                forall|i: int, j: int| 0 <= i < j < first.len() ==> #[trigger] first[i] < #[trigger] first[j],
                forall|g: int| #![trigger hes@[g]]
                    0 <= g < h ==> {
                        &&& hes@[g].face == m.half_edges[g].face
                        &&& hes@[g].next == m.half_edges[g].next
                        &&& hes@[g].prev == m.half_edges[g].prev
                        &&& hes@[g].twin == m.half_edges[g].twin
                        &&& hes@[g].origin.0 < back@.len()
                        &&& back@[hes@[g].origin.0 as int] == m.org(g)
                        &&& first[hes@[g].origin.0 as int] <= g
                    },
            decreases nh - h,
        {
            let e = self.half_edge(h);
            proof {
                reveal(MeshModel::loops_wf);
                assert(m.half_edges[h as int] == m.half_edges[h as int]);
            }
            let o = e.origin.0;
            let label = match vmap[o] {
                Some(l) => l,
                None => {
                    let l = back.len();
                    vmap.set(o, Some(l));
                    back.push(o);
                    proof {
                        first = first.push(h as int);
                    }
                    l
                },
            };
            hes.push(HalfEdge { origin: VertexHandle(label), face: e.face, next: e.next, prev: e.prev, twin: e.twin });
            proof {
                assert(hes@[h as int].origin.0 == label);
            }
            h += 1;
        }
        // The number of labels fits in `usize`.
        let nback = back.len();
        assert(nback == back@.len());
        proof {
            let o = MeshModel { vertices: back@.map_values(|v: usize| m.vertices[v as int]), half_edges: hes@, faces: m.faces, patches: m.patches };
            assert forall|h2: int, v2: int| 0 <= h2 < o.nh() && 0 <= v2 < #[trigger] o.org(h2) implies #[trigger] o.used_before(v2, h2) by {
                assert(hes@[h2] == hes@[h2]);
                let l = hes@[h2].origin.0 as int;
                assert(first[v2] < first[l]);
                assert(o.org(first[v2]) == v2);
            }
            assert forall|v2: int| 0 <= v2 < o.nv() implies #[trigger] o.used_before(v2, o.nh()) by {
                assert(first[v2] == first[v2]);
                assert(o.org(first[v2]) == v2);
            }
            assert forall|v2: int, w: int| 0 <= v2 < back@.len() && 0 <= w < back@.len() && v2 != w implies #[trigger] back@[v2] != #[trigger] back@[w] by {
                assert(vmap@[back@[v2] as int] == Some(v2 as usize));
                assert(vmap@[back@[w] as int] == Some(w as usize));
            }
        }
        (hes, back)
    }

    /// Renumber the patches in the order in which faces first use them,
    /// dropping the others; returns the faces and, for each new patch, the
    /// old one.
    fn relabel_patches(&self) -> (r: (Vec<Face>, Vec<usize>))
        requires
            self@.wf(),
        ensures
            r.0@.len() == self@.nf(),
            r.1@.len() <= self@.nf(),
            ({
                let o = MeshModel { vertices: self@.vertices, half_edges: self@.half_edges, faces: r.0@, patches: r.1@.map_values(|p: usize| self@.patches[p as int]) };
                &&& forall|f: int| #![trigger o.faces[f]]
                    0 <= f < o.nf() ==> o.faces[f].half_edge == self@.faces[f].half_edge && match (
                        o.faces[f].patch,
                        self@.faces[f].patch,
                    ) {
                        (Some(p), Some(q)) => p.0 < o.np() && r.1@[p.0 as int] == q.0,
                        (None, None) => true,
                        _ => false,
                    }
                &&& forall|p: int| #![trigger r.1@[p]] 0 <= p < r.1@.len() ==> r.1@[p] < self@.np()
                &&& forall|p: int, q: int| 0 <= p < r.1@.len() && 0 <= q < r.1@.len() && p != q ==> #[trigger] r.1@[p] != #[trigger] r.1@[q]
                &&& forall|f: int, p: int|
                    0 <= f < o.nf() && o.faces[f].patch.is_some() && 0 <= p < #[trigger] o.faces[f].patch.unwrap().0
                        ==> #[trigger] o.patch_used_before(p, f)
                &&& forall|p: int| 0 <= p < o.np() ==> #[trigger] o.patch_used_before(p, o.nf())
            }),
    {
        let ghost m = self@;
        let np = self.n_patches();
        let nf = self.n_faces();
        let mut pmap: Vec<Option<usize>> = Vec::new();
        let mut v: usize = 0;
        while v < np
            invariant
                v <= np,
                pmap@.len() == v,
                forall|w: int| 0 <= w < v ==> (#[trigger] pmap@[w]).is_none(),
            decreases np - v,
        {
            pmap.push(None);
            v += 1;
        }
        let mut back: Vec<usize> = Vec::new();
        let mut faces: Vec<Face> = Vec::new();
        let ghost mut first: Seq<int> = Seq::empty();
        proof {
            reveal(MeshModel::faces_wf);
        }
        let mut f: usize = 0;
        while f < nf
            invariant
                m == self@,
                m.wf(),
                m.faces_wf(),
                np == m.np(),
                nf == m.nf(),
                f <= nf,
                pmap@.len() == np,
                faces@.len() == f,
                back@.len() <= f,
                first.len() == back@.len(),
                forall|w: int| #![trigger pmap@[w]]
                    0 <= w < np && pmap@[w].is_some() ==> pmap@[w].unwrap() < back@.len() && back@[pmap@[w].unwrap() as int] == w,
                forall|i: int| #![trigger back@[i]]
                    0 <= i < back@.len() ==> back@[i] < np && pmap@[back@[i] as int] == Some(i as usize),
                forall|i: int| #![trigger first[i]]
                    0 <= i < first.len() ==> 0 <= first[i] < f && faces@[first[i]].patch == Some(PatchHandle(i as usize)),
                forall|i: int, j: int| 0 <= i < j < first.len() ==> #[trigger] first[i] < #[trigger] first[j],
                forall|g: int| #![trigger faces@[g]]
                    0 <= g < f ==> faces@[g].half_edge == m.faces[g].half_edge && match (faces@[g].patch, m.faces[g].patch) {
                        (Some(p), Some(q)) => p.0 < back@.len() && back@[p.0 as int] == q.0 && first[p.0 as int] <= g,
                        (None, None) => true,
                        _ => false,
                    },
            decreases nf - f,
        {
            let fa = self.face(f);
            proof {
                reveal(MeshModel::faces_wf);
                assert(m.faces[f as int].patch == m.faces[f as int].patch);
            }
            let patch = match fa.patch {
                Some(p) => {
                    let label = match pmap[p.0] {
                        Some(l) => l,
                        None => {
                            let l = back.len();
                            pmap.set(p.0, Some(l));
                            back.push(p.0);
                            proof {
                                first = first.push(f as int);
                            }
                            l
                        },
                    };
                    Some(PatchHandle(label))
                },
                None => None,
            };
            faces.push(Face { half_edge: fa.half_edge, patch });
            f += 1;
        }
        // The number of labels fits in `usize`.
        let nback = back.len();
        assert(nback == back@.len());
        proof {
            let o = MeshModel { vertices: m.vertices, half_edges: m.half_edges, faces: faces@, patches: back@.map_values(|p: usize| m.patches[p as int]) };
            assert forall|f2: int, p2: int|
                0 <= f2 < o.nf() && o.faces[f2].patch.is_some() && 0 <= p2 < #[trigger] o.faces[f2].patch.unwrap().0
                implies #[trigger] o.patch_used_before(p2, f2) by {
                assert(faces@[f2] == faces@[f2]);
                let l = faces@[f2].patch.unwrap().0 as int;
                assert(first[p2] < first[l]);
                assert(o.faces[first[p2]].patch == Some(PatchHandle(p2 as usize)));
            }
            assert forall|p2: int| 0 <= p2 < o.np() implies #[trigger] o.patch_used_before(p2, o.nf()) by {
                assert(first[p2] == first[p2]);
                assert(o.faces[first[p2]].patch == Some(PatchHandle(p2 as usize)));
            }
            assert forall|p2: int, q: int| 0 <= p2 < back@.len() && 0 <= q < back@.len() && p2 != q implies #[trigger] back@[p2] != #[trigger] back@[q] by {
                assert(pmap@[back@[p2] as int] == Some(p2 as usize));
                assert(pmap@[back@[q] as int] == Some(q as usize));
            }
        }
        (faces, back)
    }

    /// A copy with the unused vertices and patches dropped and the others
    /// numbered in order of first use.
    fn compact(&self) -> (r: HeMesh<P>)
        requires
            self@.wf(),
        ensures
            r@.wf(),
            exists|back: Seq<usize>, pback: Seq<usize>| #[trigger] r@.compacts(self@, back, pback),
    {
        let ghost m = self@;
        let (hes, back) = self.relabel_vertices();
        let (faces, pback) = self.relabel_patches();
        let mut vertices: Vec<Vertex<P>> = Vec::new();
        let mut i: usize = 0;
        while i < back.len()
            invariant
                m == self@,
                forall|v: int| #![trigger back@[v]] 0 <= v < back@.len() ==> back@[v] < m.nv(),
                i <= back@.len(),
                vertices@.len() == i,
                forall|w: int| 0 <= w < i ==> #[trigger] vertices@[w].point == m.vertices[back@[w] as int].point,
            decreases back@.len() - i,
        {
            vertices.push(Vertex { point: self.vertex(back[i]).point, half_edge: None });
            i += 1;
        }
        let mut patches: Vec<Patch> = Vec::new();
        let mut i: usize = 0;
        while i < pback.len()
            invariant
                m == self@,
                forall|p: int| #![trigger pback@[p]] 0 <= p < pback@.len() ==> pback@[p] < m.np(),
                i <= pback@.len(),
                patches@.len() == i,
                forall|w: int| 0 <= w < i ==> #[trigger] patches@[w].name@ == m.patches[pback@[w] as int],
            decreases pback@.len() - i,
        {
            let name = self.patch(pback[i]).name().to_owned();
            patches.push(Patch { name });
            i += 1;
        }
        let mut r = HeMesh::from_parts(vertices, hes, faces, patches);
        proof {
            let o1 = MeshModel { vertices: back@.map_values(|v: usize| m.vertices[v as int]), half_edges: hes@, faces: m.faces, patches: m.patches };
            let o2 = MeshModel { vertices: m.vertices, half_edges: m.half_edges, faces: faces@, patches: pback@.map_values(|p: usize| m.patches[p as int]) };
            assert(r@.patches =~= pback@.map_values(|p: usize| m.patches[p as int]));
            lemma_compact_parts(m, o1, o2, r@, back@, pback@);
            lemma_compact_shape(m, r@, back@, pback@);
            reveal(MeshModel::loops_wf);
            assert forall|h: int| 0 <= h < r@.nh() implies #[trigger] r@.org(h) < r@.nv() by {
                assert(r@.half_edges[h] == r@.half_edges[h]);
            }
        }
        let ghost pre = r@;
        r.relink();
        proof {
            lemma_compacts_relinked(m, pre, r@, back@, pback@);
        }
        r
    }

    /// Set `next`, `prev` and `twin` of the copied half-edges.
    #[verifier::rlimit(100)]
    fn link_copies(
        &self,
        ids: &Vec<usize>,
        faces: &Vec<Face>,
        hes: &mut Vec<HalfEdge>,
        pos: &Vec<Option<usize>>,
    )
        requires
            self@.wf(),
            distinct_faces(ids@, self@.nf()),
            copied(self@, ids@, ids@.len() as int, faces@, old(hes)@),
            old(hes)@.len() <= usize::MAX,
            pos@.len() == self@.nf(),
            forall|f: int| #![trigger pos@[f]]
                0 <= f < self@.nf() && pos@[f].is_some() ==> pos@[f].unwrap() < ids@.len() && ids@[pos@[f].unwrap() as int] == f,
            forall|k: int| 0 <= k < ids@.len() ==> pos@[#[trigger] ids@[k] as int] == Some(k as usize),
        ensures
            final(hes)@.len() == old(hes)@.len(),
            forall|e: int| #![trigger final(hes)@[e]]
                0 <= e < old(hes)@.len() ==> {
                    let k = old(hes)@[e].face.0 as int;
                    let st = faces@[k].half_edge.0 as int;
                    let fs = self@.fstart(ids@[k] as int);
                    &&& final(hes)@[e].origin == old(hes)@[e].origin
                    &&& final(hes)@[e].face == old(hes)@[e].face
                    &&& linked_copy(self@, final(hes)@[e], fs + (e - st), st, fs, faces@, pos@)
                },
    {
        let ghost m = self@;
        let ghost hes0 = hes@;
        let n = hes.len();
        let mut e: usize = 0;
        while e < n
            invariant
                m == self@,
                m.wf(),
                distinct_faces(ids@, m.nf()),
                copied(m, ids@, ids@.len() as int, faces@, hes0),
                n == hes0.len(),
                hes@.len() == n,
                pos@.len() == m.nf(),
                forall|f: int| #![trigger pos@[f]]
                    0 <= f < m.nf() && pos@[f].is_some() ==> pos@[f].unwrap() < ids@.len() && ids@[pos@[f].unwrap() as int] == f,
                forall|k: int| 0 <= k < ids@.len() ==> pos@[#[trigger] ids@[k] as int] == Some(k as usize),
                e <= n,
                forall|x: int| #![trigger hes@[x]]
                    e <= x < n ==> hes@[x] == hes0[x],
                forall|x: int| #![trigger hes@[x]]
                    0 <= x < e ==> {
                        let k = hes0[x].face.0 as int;
                        let st = faces@[k].half_edge.0 as int;
                        let fs = m.fstart(ids@[k] as int);
                        &&& hes@[x].origin == hes0[x].origin
                        &&& hes@[x].face == hes0[x].face
                        &&& linked_copy(m, hes@[x], fs + (x - st), st, fs, faces@, pos@)
                    },
            decreases n - e,
        {
            let cur = hes[e];
            assert(hes0[e as int] == hes0[e as int]);
            let k = cur.face.0;
            let st = faces[k].half_edge.0;
            let f = ids[k];
            let (fs, fe) = self.face_range(f);
            let h = fs + (e - st);
            proof {
                lemma_copied_prefix(m, ids@, ids@.len() as int, faces@, hes0, k as int);
                lemma_loop_links(m, h as int);
                lemma_twin_links(m, h as int);
                reveal(MeshModel::loops_wf);
                assert(m.half_edges[h as int] == m.half_edges[h as int]);
            }
            let he = self.half_edge(h);
            let next = st + (he.next.0 - fs);
            let prev = st + (he.prev.0 - fs);
            let twin = match he.twin {
                Some(t) => {
                    let g = self.half_edge(t.0).face.0;
                    proof {
                        assert(m.half_edges[t.0 as int] == m.half_edges[t.0 as int]);
                    }
                    match pos[g] {
                        Some(k2) => {
                            let (gs, ge) = self.face_range(g);
                            proof {
                                lemma_copied_prefix(m, ids@, ids@.len() as int, faces@, hes0, k2 as int);
                            }
                            Some(HalfEdgeHandle(faces[k2].half_edge.0 + (t.0 - gs)))
                        },
                        None => None,
                    }
                },
                None => None,
            };
            hes.set(e, HalfEdge { origin: cur.origin, face: cur.face, prev: HalfEdgeHandle(prev), next: HalfEdgeHandle(next), twin });
            e += 1;
        }
    }
}

/// The links of the copy of half-edge `h` of `m` at `h2`, whose face starts
/// at `st` in the copy and at `fs` in `m`.
pub open spec fn linked_copy<P>(
    m: MeshModel<P>,
    e: HalfEdge,
    h: int,
    st: int,
    fs: int,
    faces: Seq<Face>,
    pos: Seq<Option<usize>>,
) -> bool {
    &&& e.next.0 == st + (m.nxt(h) - fs)
    &&& e.prev.0 == st + (m.prv(h) - fs)
    &&& match m.tw(h) {
        Some(t) => {
            let g = m.fc(t.0 as int);
            match pos[g] {
                Some(k2) => e.twin == Some(
                    HalfEdgeHandle((faces[k2 as int].half_edge.0 + (t.0 - m.fstart(g))) as usize),
                ),
                None => e.twin.is_none(),
            }
        },
        None => e.twin.is_none(),
    }
}

/// What the arrays of the copy look like as a mesh.
#[verifier::opaque]
pub open spec fn copy_facts<P>(
    m: MeshModel<P>,
    ids: Seq<usize>,
    hes0: Seq<HalfEdge>,
    pos: Seq<Option<usize>>,
    o: MeshModel<P>,
) -> bool {
    &&& m.wf()
    &&& distinct_faces(ids, m.nf())
    &&& copied(m, ids, ids.len() as int, o.faces, hes0)
    &&& hes0.len() <= usize::MAX
    &&& o.half_edges.len() == hes0.len()
    &&& o.nv() == m.nv()
    &&& o.patches == m.patches
    &&& pos.len() == m.nf()
    &&& forall|f: int| #![trigger pos[f]]
        0 <= f < m.nf() && pos[f].is_some() ==> pos[f].unwrap() < ids.len() && ids[pos[f].unwrap() as int] == f
    &&& forall|k: int| 0 <= k < ids.len() ==> pos[#[trigger] ids[k] as int] == Some(k as usize)
    &&& forall|e: int| #![trigger o.half_edges[e]]
        0 <= e < hes0.len() ==> {
            let k = hes0[e].face.0 as int;
            let st = o.faces[k].half_edge.0 as int;
            let fs = m.fstart(ids[k] as int);
            &&& o.half_edges[e].origin == hes0[e].origin
            &&& o.half_edges[e].face == hes0[e].face
            &&& linked_copy(m, o.half_edges[e], fs + (e - st), st, fs, o.faces, pos)
        }
}

proof fn lemma_copy_range<P>(
    m: MeshModel<P>,
    ids: Seq<usize>,
    hes0: Seq<HalfEdge>,
    pos: Seq<Option<usize>>,
    o: MeshModel<P>,
    k: int,
)
    requires
        m.wf(),
        distinct_faces(ids, m.nf()),
        copy_facts(m, ids, hes0, pos, o),
        0 <= k < o.nf(),
    ensures
        o.fend(k) == o.fstart(k) + fsize(m, ids[k] as int),
        o.fend(k) <= o.nh(),
        o.nh() <= usize::MAX,
        0 <= ids[k] < m.nf(),
        m.fstart(ids[k] as int) + 3 <= m.fend(ids[k] as int) <= m.nh(),
        o.faces[k].patch == m.faces[ids[k] as int].patch,
{
    reveal(copy_facts);
    assert(o.faces[k] == o.faces[k]);
    lemma_copied_prefix(m, ids, ids.len() as int, o.faces, hes0, k);
    reveal(MeshModel::faces_wf);
    assert(ids[k] < m.nf());
    assert(m.fstart(ids[k] as int) + 3 <= m.fend(ids[k] as int) <= m.nh());
}

proof fn lemma_copy_half_edge<P>(
    m: MeshModel<P>,
    ids: Seq<usize>,
    hes0: Seq<HalfEdge>,
    pos: Seq<Option<usize>>,
    o: MeshModel<P>,
    x: int,
)
    requires
        m.wf(),
        distinct_faces(ids, m.nf()),
        copy_facts(m, ids, hes0, pos, o),
        0 <= x < o.nh(),
    ensures
        o.nf() == ids.len(),
        pos.len() == m.nf(),
        0 <= o.source(m, ids, x) < m.nh(),
        0 <= o.fc(x) < o.nf(),
        o.fstart(o.fc(x)) <= x < o.fend(o.fc(x)),
        o.fend(o.fc(x)) == o.fstart(o.fc(x)) + fsize(m, ids[o.fc(x)] as int),
        o.fend(o.fc(x)) <= o.nh(),
        m.fstart(ids[o.fc(x)] as int) <= o.source(m, ids, x) < m.fend(ids[o.fc(x)] as int),
        m.fc(o.source(m, ids, x)) == ids[o.fc(x)],
        o.org(x) == m.org(o.source(m, ids, x)),
        o.org(x) < o.nv(),
        o.nxt(x) == o.fstart(o.fc(x)) + (m.nxt(o.source(m, ids, x)) - m.fstart(ids[o.fc(x)] as int)),
        o.prv(x) == o.fstart(o.fc(x)) + (m.prv(o.source(m, ids, x)) - m.fstart(ids[o.fc(x)] as int)),
        linked_copy(m, o.half_edges[x], o.source(m, ids, x), o.fstart(o.fc(x)), m.fstart(ids[o.fc(x)] as int), o.faces, pos),
{
    reveal(copy_facts);
    assert(hes0[x] == hes0[x]);
    assert(o.half_edges[x] == o.half_edges[x]);
    let k = o.fc(x);
    lemma_copy_range(m, ids, hes0, pos, o, k);
    reveal(MeshModel::loops_wf);
    let h = o.source(m, ids, x);
    assert(m.fc(h) == ids[k]);
    assert(m.half_edges[h] == m.half_edges[h]);
}

proof fn lemma_copy_ends<P>(
    m: MeshModel<P>,
    ids: Seq<usize>,
    hes0: Seq<HalfEdge>,
    pos: Seq<Option<usize>>,
    o: MeshModel<P>,
    x: int,
)
    requires
        m.wf(),
        distinct_faces(ids, m.nf()),
        copy_facts(m, ids, hes0, pos, o),
        0 <= x < o.nh(),
    ensures
        o.org(x) == m.org(o.source(m, ids, x)),
        o.dst(x) == m.dst(o.source(m, ids, x)),
        0 <= o.nxt(x) < o.nh(),
        o.fc(o.nxt(x)) == o.fc(x),
        o.source(m, ids, o.nxt(x)) == m.nxt(o.source(m, ids, x)),
{
    lemma_copy_half_edge(m, ids, hes0, pos, o, x);
    let k = o.fc(x);
    lemma_copy_range(m, ids, hes0, pos, o, k);
    let h = o.source(m, ids, x);
    lemma_loop_links(m, h);
    let y = o.nxt(x);
    assert(o.fstart(k) <= y < o.fend(k));
    lemma_copy_member(m, ids, hes0, pos, o, k, y);
    lemma_copy_half_edge(m, ids, hes0, pos, o, y);
}

proof fn lemma_copy_member<P>(
    m: MeshModel<P>,
    ids: Seq<usize>,
    hes0: Seq<HalfEdge>,
    pos: Seq<Option<usize>>,
    o: MeshModel<P>,
    k: int,
    y: int,
)
    requires
        m.wf(),
        distinct_faces(ids, m.nf()),
        copy_facts(m, ids, hes0, pos, o),
        0 <= k < o.nf(),
        o.fstart(k) <= y < o.fend(k),
    ensures
        o.fc(y) == k,
        0 <= y < o.nh(),
{
    lemma_copy_range(m, ids, hes0, pos, o, k);
    reveal(copy_facts);
    assert(o.faces[k] == o.faces[k]);
    assert(hes0[y] == hes0[y]);
    assert(o.half_edges[y] == o.half_edges[y]);
}

proof fn lemma_copy_faces_wf<P>(
    m: MeshModel<P>,
    ids: Seq<usize>,
    hes0: Seq<HalfEdge>,
    pos: Seq<Option<usize>>,
    o: MeshModel<P>,
)
    requires
        m.wf(),
        distinct_faces(ids, m.nf()),
        copy_facts(m, ids, hes0, pos, o),
    ensures
        o.faces_wf(),
{
    reveal(MeshModel::faces_wf);
    assert(o.nf() == ids.len() && o.patches == m.patches && o.nh() == hes0.len()) by {
        reveal(copy_facts);
    }
    assert(o.nf() == 0 ==> o.nh() == 0) by {
        reveal(copy_facts);
    }
    assert(o.nf() > 0 ==> o.fstart(0) == 0) by {
        reveal(copy_facts);
    }
    assert forall|k: int| 0 <= k < o.nf() implies o.fstart(k) + 3 <= #[trigger] o.fend(k) <= o.nh() by {
        lemma_copy_range(m, ids, hes0, pos, o, k);
    }
    assert forall|k: int| #![trigger o.faces[k].patch]
        0 <= k < o.nf() && o.faces[k].patch.is_some() implies o.faces[k].patch.unwrap().0 < o.np() by {
        lemma_copy_range(m, ids, hes0, pos, o, k);
        assert(m.faces[ids[k] as int].patch == o.faces[k].patch);
    }
}

proof fn lemma_copy_loops_wf<P>(
    m: MeshModel<P>,
    ids: Seq<usize>,
    hes0: Seq<HalfEdge>,
    pos: Seq<Option<usize>>,
    o: MeshModel<P>,
)
    requires
        m.wf(),
        distinct_faces(ids, m.nf()),
        copy_facts(m, ids, hes0, pos, o),
    ensures
        o.loops_wf(),
        forall|k: int| 0 <= k < o.nf() ==> #[trigger] o.forward(k) == m.forward(ids[k] as int),
{
    assert forall|k: int| 0 <= k < o.nf() implies #[trigger] o.forward(k) == m.forward(ids[k] as int) by {
        lemma_copy_range(m, ids, hes0, pos, o, k);
        lemma_copy_member(m, ids, hes0, pos, o, k, o.fstart(k));
        lemma_copy_half_edge(m, ids, hes0, pos, o, o.fstart(k));
    }
    reveal(MeshModel::loops_wf);
    assert forall|x: int| #![trigger o.half_edges[x]] 0 <= x < o.nh() implies {
        &&& 0 <= o.fc(x) < o.nf()
        &&& o.fstart(o.fc(x)) <= x < o.fend(o.fc(x))
        &&& o.org(x) < o.nv()
        &&& if o.forward(o.fc(x)) {
            o.nxt(x) == o.succ(x) && o.prv(x) == o.pred(x)
        } else {
            o.nxt(x) == o.pred(x) && o.prv(x) == o.succ(x)
        }
    } by {
        lemma_copy_half_edge(m, ids, hes0, pos, o, x);
        let k = o.fc(x);
        lemma_copy_range(m, ids, hes0, pos, o, k);
        let h = o.source(m, ids, x);
        assert(m.half_edges[h] == m.half_edges[h]);
        assert(o.forward(k) == m.forward(ids[k] as int));
    }
    assert forall|k: int, x: int| #![trigger o.fstart(k), o.half_edges[x]]
        0 <= k < o.nf() && o.fstart(k) <= x < o.fend(k) implies o.fc(x) == k by {
        lemma_copy_member(m, ids, hes0, pos, o, k, x);
    }
}

proof fn lemma_copy_twin<P>(
    m: MeshModel<P>,
    ids: Seq<usize>,
    hes0: Seq<HalfEdge>,
    pos: Seq<Option<usize>>,
    o: MeshModel<P>,
    x: int,
)
    requires
        m.wf(),
        distinct_faces(ids, m.nf()),
        copy_facts(m, ids, hes0, pos, o),
        0 <= x < o.nh(),
    ensures
        o.tw(x).is_some() <==> (m.tw(o.source(m, ids, x)).is_some() && ids.contains(
            m.fc(m.tw(o.source(m, ids, x)).unwrap().0 as int) as usize,
        )),
        o.tw(x).is_some() ==> {
            let t = o.tw(x).unwrap().0 as int;
            &&& 0 <= t < o.nh()
            &&& o.source(m, ids, t) == m.tw(o.source(m, ids, x)).unwrap().0
        },
{
    lemma_copy_half_edge(m, ids, hes0, pos, o, x);
    let h = o.source(m, ids, x);
    lemma_loop_links(m, h);
    lemma_twin_links(m, h);
    assert(pos.len() == m.nf() && o.nf() == ids.len()) by {
        reveal(copy_facts);
    }
    if m.tw(h).is_some() {
        let t = m.tw(h).unwrap().0 as int;
        lemma_loop_links(m, t);
        let g = m.fc(t);
        assert(forall|f: int| #![trigger pos[f]]
            0 <= f < m.nf() && pos[f].is_some() ==> pos[f].unwrap() < ids.len() && ids[pos[f].unwrap() as int] == f) by {
            reveal(copy_facts);
        }
        assert(forall|k: int| 0 <= k < ids.len() ==> pos[#[trigger] ids[k] as int] == Some(k as usize)) by {
            reveal(copy_facts);
        }
        if ids.contains(g as usize) {
            let k2 = choose|k2: int| 0 <= k2 < ids.len() && ids[k2] == g as usize;
            assert(pos[ids[k2] as int] == Some(k2 as usize));
            lemma_copy_range(m, ids, hes0, pos, o, k2);
            let y = o.fstart(k2) + (t - m.fstart(g));
            lemma_copy_member(m, ids, hes0, pos, o, k2, y);
            assert(o.tw(x) == Some(HalfEdgeHandle(y as usize)));
            assert(o.source(m, ids, y) == t);
        } else {
            if pos[g].is_some() {
                assert(ids[pos[g].unwrap() as int] == g);
            }
        }
    }
}

proof fn lemma_copy_twins_wf<P>(
    m: MeshModel<P>,
    ids: Seq<usize>,
    hes0: Seq<HalfEdge>,
    pos: Seq<Option<usize>>,
    o: MeshModel<P>,
)
    requires
        m.wf(),
        distinct_faces(ids, m.nf()),
        copy_facts(m, ids, hes0, pos, o),
    ensures
        o.twins_wf(),
{
    reveal(MeshModel::twins_wf);
    assert forall|x: int| #![trigger o.tw(x)] 0 <= x < o.nh() && o.tw(x).is_some() implies {
        let t = o.tw(x).unwrap().0 as int;
        &&& 0 <= t < o.nh()
        &&& t != x
        &&& o.same_edge(x, t)
    } by {
        lemma_copy_twin(m, ids, hes0, pos, o, x);
        lemma_copy_half_edge(m, ids, hes0, pos, o, x);
        let t = o.tw(x).unwrap().0 as int;
        lemma_copy_ends(m, ids, hes0, pos, o, x);
        lemma_copy_ends(m, ids, hes0, pos, o, t);
        lemma_twin_links(m, o.source(m, ids, x));
    }
    assert forall|x: int, y: int|
        0 <= x < o.nh() && 0 <= y < o.nh() && x != y && #[trigger] o.same_edge(x, y)
            implies o.tw(x) == Some(HalfEdgeHandle(y as usize)) by {
        lemma_copy_ends(m, ids, hes0, pos, o, x);
        lemma_copy_ends(m, ids, hes0, pos, o, y);
        lemma_copy_half_edge(m, ids, hes0, pos, o, x);
        lemma_copy_half_edge(m, ids, hes0, pos, o, y);
        let hx = o.source(m, ids, x);
        let hy = o.source(m, ids, y);
        if hx == hy {
            assert(ids[o.fc(x)] == ids[o.fc(y)]);
            assert(o.fc(x) == o.fc(y));
        }
        assert(m.same_edge(hx, hy));
        lemma_twin_links(m, hx);
        lemma_loop_links(m, hy);
        assert(m.tw(hx) == Some(HalfEdgeHandle(hy as usize))) by {
            reveal(MeshModel::twins_wf);
        }
        assert(ids.contains(m.fc(hy) as usize)) by {
            assert(ids[o.fc(y)] == m.fc(hy));
        }
        lemma_copy_twin(m, ids, hes0, pos, o, x);
        let t = o.tw(x).unwrap().0 as int;
        lemma_copy_half_edge(m, ids, hes0, pos, o, t);
        lemma_copy_range(m, ids, hes0, pos, o, o.fc(y));
        lemma_copy_range(m, ids, hes0, pos, o, o.fc(t));
        if o.fc(t) != o.fc(y) {
            assert(ids[o.fc(t)] != ids[o.fc(y)]);
        }
    }
}

proof fn lemma_copy_keeps<P>(
    m: MeshModel<P>,
    ids: Seq<usize>,
    hes0: Seq<HalfEdge>,
    pos: Seq<Option<usize>>,
    o: MeshModel<P>,
)
    requires
        m.wf(),
        distinct_faces(ids, m.nf()),
        copy_facts(m, ids, hes0, pos, o),
        forall|v: int| 0 <= v < o.nv() ==> #[trigger] o.vertices[v].point == m.vertices[v].point,
    ensures
        o.shape_wf(),
        o.keeps(m, ids),
{
    lemma_copy_faces_wf(m, ids, hes0, pos, o);
    lemma_copy_loops_wf(m, ids, hes0, pos, o);
    lemma_copy_twins_wf(m, ids, hes0, pos, o);
    assert(o.nv() == m.nv() && o.patches == m.patches && o.nf() == ids.len()) by {
        reveal(copy_facts);
    }
    assert forall|k: int| #![trigger o.faces[k]] 0 <= k < o.nf() implies {
        &&& o.faces[k].patch == m.faces[ids[k] as int].patch
        &&& o.fend(k) - o.fstart(k) == m.fend(ids[k] as int) - m.fstart(ids[k] as int)
        &&& o.forward(k) == m.forward(ids[k] as int)
    } by {
        lemma_copy_range(m, ids, hes0, pos, o, k);
    }
    assert forall|x: int| #![trigger o.half_edges[x]] 0 <= x < o.nh() implies {
        &&& o.org(x) == m.org(o.source(m, ids, x))
        &&& o.tw(x).is_some() <==> (m.tw(o.source(m, ids, x)).is_some() && ids.contains(
            m.fc(m.tw(o.source(m, ids, x)).unwrap().0 as int) as usize,
        ))
    } by {
        lemma_copy_half_edge(m, ids, hes0, pos, o, x);
        lemma_copy_twin(m, ids, hes0, pos, o, x);
    }
}

proof fn lemma_copied_step<P>(
    m: MeshModel<P>,
    ids: Seq<usize>,
    k: int,
    faces0: Seq<Face>,
    hes0: Seq<HalfEdge>,
    faces: Seq<Face>,
    hes: Seq<HalfEdge>,
)
    requires
        m.wf(),
        0 <= k < ids.len(),
        distinct_faces(ids, m.nf()),
        copied(m, ids, k, faces0, hes0),
        faces == faces0.push(Face { half_edge: HalfEdgeHandle(hes0.len() as usize), patch: m.faces[ids[k] as int].patch }),
        hes.len() == hes0.len() + fsize(m, ids[k] as int),
        hes0.len() <= usize::MAX,
        forall|e: int| #![trigger hes[e]] 0 <= e < hes0.len() ==> hes[e] == hes0[e],
        forall|e: int| #![trigger hes[e]]
            hes0.len() <= e < hes.len() ==> hes[e].face.0 == k && hes[e].origin.0 == m.org(
                m.fstart(ids[k] as int) + (e - hes0.len()),
            ),
    ensures
        copied(m, ids, k + 1, faces, hes),
{
    let s = hes0.len() as int;
    assert(faces[k] == Face { half_edge: HalfEdgeHandle(s as usize), patch: m.faces[ids[k] as int].patch });
    assert forall|j: int| #![trigger faces[j]] 0 <= j < k + 1 implies {
        &&& faces[j].patch == m.faces[ids[j] as int].patch
        &&& faces[j].half_edge.0 + fsize(m, ids[j] as int) == if j + 1 < k + 1 {
            faces[j + 1].half_edge.0 as int
        } else {
            hes.len() as int
        }
    } by {
        if j < k {
            assert(faces[j] == faces0[j]);
            if j + 1 < k {
                assert(faces[j + 1] == faces0[j + 1]);
            }
        }
    }
    assert forall|h: int| #![trigger hes[h]] 0 <= h < hes.len() implies {
        let j = hes[h].face.0 as int;
        &&& 0 <= j < k + 1
        &&& faces[j].half_edge.0 <= h < faces[j].half_edge.0 + fsize(m, ids[j] as int)
        &&& hes[h].origin.0 == m.org(m.fstart(ids[j] as int) + (h - faces[j].half_edge.0))
    } by {
        if h < s {
            assert(hes0[h] == hes0[h]);
            let j = hes0[h].face.0 as int;
            assert(faces[j] == faces0[j]);
        }
    }
    assert forall|j: int, h: int| #![trigger faces[j], hes[h]]
        0 <= j < k + 1 && faces[j].half_edge.0 <= h < faces[j].half_edge.0 + fsize(m, ids[j] as int)
            implies hes[h].face.0 == j by {
        if j < k {
            assert(faces[j] == faces0[j]);
            assert(faces0[j].half_edge.0 + fsize(m, ids[j] as int) <= s) by {
                lemma_copied_prefix(m, ids, k, faces0, hes0, j);
            }
            assert(hes0[h] == hes0[h]);
        }
    }
}

/// The faces copied first end before the ones copied later start.
pub proof fn lemma_copied_prefix<P>(
    m: MeshModel<P>,
    ids: Seq<usize>,
    n: int,
    faces: Seq<Face>,
    hes: Seq<HalfEdge>,
    j: int,
)
    requires
        m.wf(),
        distinct_faces(ids, m.nf()),
        n <= ids.len(),
        copied(m, ids, n, faces, hes),
        0 <= j < n,
    ensures
        faces[j].half_edge.0 + fsize(m, ids[j] as int) <= hes.len(),
    decreases n - j,
{
    assert(faces[j] == faces[j]);
    if j + 1 < n {
        lemma_copied_prefix(m, ids, n, faces, hes, j + 1);
        assert(faces[j + 1] == faces[j + 1]);
        reveal(MeshModel::faces_wf);
        assert(ids[j + 1] < m.nf());
        assert(m.fstart(ids[j + 1] as int) + 3 <= m.fend(ids[j + 1] as int));
    }
}

} // verus!
