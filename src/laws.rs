//! Properties that relate several operations.

use vstd::prelude::*;

use crate::half_edge::{HalfEdgeHandle, MeshModel};
use crate::queries::{lemma_loop_links, lemma_twin_links};
use crate::merge::{fits_with, lemma_merged_range, merged, shift_face, shift_half_edge};

verus! {

/// In a well-formed mesh, `next` and `prev` undo each other and the twin of a
/// twin is the half-edge itself.
pub proof fn lemma_half_edge_links<P>(m: MeshModel<P>, h: int)
    requires
        m.wf(),
        0 <= h < m.nh(),
    ensures
        m.nxt(m.prv(h)) == h,
        m.prv(m.nxt(h)) == h,
        m.tw(h).is_some() ==> m.tw(m.tw(h).unwrap().0 as int) == Some(
            crate::half_edge::HalfEdgeHandle(h as usize),
        ),
{
    lemma_loop_links(m, h);
    lemma_twin_links(m, h);
}

/// The faces that `b` brings into `merged(a, b)`.
pub open spec fn appended_faces<P>(a: MeshModel<P>, b: MeshModel<P>) -> Seq<usize> {
    Seq::new(b.nf() as nat, |k: int| (a.nf() + k) as usize)
}

/// `o` has the same loops, twins and patch names as `b`, and its vertices
/// are `b`'s, renumbered: corners at the same vertex in one are at the same
/// vertex in the other, and at the same position.
pub open spec fn isomorphic<P>(o: MeshModel<P>, b: MeshModel<P>) -> bool {
    &&& o.nf() == b.nf()
    &&& o.nh() == b.nh()
    &&& forall|k: int| #![trigger o.faces[k]]
        0 <= k < o.nf() ==> {
            &&& o.fstart(k) == b.fstart(k)
            &&& o.faces[k].patch.is_some() == b.faces[k].patch.is_some()
            &&& o.faces[k].patch.is_some() ==> o.patches[o.faces[k].patch.unwrap().0 as int]
                == b.patches[b.faces[k].patch.unwrap().0 as int]
        }
    &&& forall|h: int| #![trigger o.half_edges[h]]
        0 <= h < o.nh() ==> {
            &&& o.half_edges[h].face == b.half_edges[h].face
            &&& o.half_edges[h].next == b.half_edges[h].next
            &&& o.half_edges[h].prev == b.half_edges[h].prev
            &&& o.half_edges[h].twin == b.half_edges[h].twin
            &&& o.vertices[o.org(h)].point == b.vertices[b.org(h)].point
        }
    &&& forall|h: int, g: int|
        0 <= h < o.nh() && 0 <= g < o.nh() ==> (#[trigger] o.org(h) == #[trigger] o.org(g) <==> b.org(h)
            == b.org(g))
}

proof fn lemma_kept_starts<P>(a: MeshModel<P>, b: MeshModel<P>, k: MeshModel<P>, j: int)
    requires
        a.wf(),
        b.wf(),
        fits_with(a, b),
        k.wf(),
        k.keeps(merged(a, b), appended_faces(a, b)),
        0 <= j < b.nf(),
    ensures
        k.fstart(j) == b.fstart(j),
        k.fend(j) == b.fend(j),
        k.forward(j) == b.forward(j),
        k.faces[j].patch == merged(a, b).faces[a.nf() + j].patch,
    decreases j,
{
    let m = merged(a, b);
    let ids = appended_faces(a, b);
    assert(k.faces[j] == k.faces[j]);
    assert(ids[j] == a.nf() + j);
    lemma_merged_range(a, b, a.nf() + j);
    if j > 0 {
        lemma_kept_starts(a, b, k, j - 1);
    } else {
        reveal(MeshModel::faces_wf);
        assert(k.fstart(0) == 0);
        assert(b.fstart(0) == 0);
    }
    let s0 = b.fstart(j);
    lemma_loop_links(b, s0);
    assert(m.fstart(a.nf() + j) == s0 + a.nh());
    assert(m.half_edges[s0 + a.nh()] == shift_half_edge(b.half_edges[s0], a.nv(), a.nf(), a.nh()));
}

proof fn lemma_kept_loops<P>(a: MeshModel<P>, b: MeshModel<P>, k: MeshModel<P>, h: int)
    requires
        a.wf(),
        b.wf(),
        fits_with(a, b),
        k.wf(),
        k.keeps(merged(a, b), appended_faces(a, b)),
        0 <= h < k.nh(),
    ensures
        k.nh() == b.nh(),
        k.fc(h) == b.fc(h),
        k.source(merged(a, b), appended_faces(a, b), h) == h + a.nh(),
        k.org(h) == b.org(h) + a.nv(),
        k.nxt(h) == b.nxt(h),
        k.prv(h) == b.prv(h),
        0 <= b.nxt(h) < b.nh(),
{
    let m = merged(a, b);
    lemma_kept_nh(a, b, k);
    lemma_loop_links(k, h);
    let j = k.fc(h);
    lemma_kept_starts(a, b, k, j);
    lemma_loop_links(b, h);
    assert(b.fc(h) == j) by {
        reveal(MeshModel::loops_wf);
        reveal(MeshModel::faces_wf);
        assert(b.fstart(j) + 3 <= b.fend(j) <= b.nh());
        assert(b.half_edges[h] == b.half_edges[h]);
    }
    assert(appended_faces(a, b)[j] == a.nf() + j);
    lemma_merged_range(a, b, a.nf() + j);
    assert(m.half_edges[h + a.nh()] == shift_half_edge(b.half_edges[h], a.nv(), a.nf(), a.nh()));
    assert(k.half_edges[h] == k.half_edges[h]);
    reveal(MeshModel::loops_wf);
    assert(b.half_edges[h] == b.half_edges[h]);
}

proof fn lemma_kept_nh<P>(a: MeshModel<P>, b: MeshModel<P>, k: MeshModel<P>)
    requires
        a.wf(),
        b.wf(),
        fits_with(a, b),
        k.wf(),
        k.keeps(merged(a, b), appended_faces(a, b)),
    ensures
        k.nh() == b.nh(),
        k.nf() == b.nf(),
{
    reveal(MeshModel::faces_wf);
    if b.nf() > 0 {
        lemma_kept_starts(a, b, k, b.nf() - 1);
    }
}

proof fn lemma_kept_twin<P>(a: MeshModel<P>, b: MeshModel<P>, k: MeshModel<P>, h: int)
    requires
        a.wf(),
        b.wf(),
        fits_with(a, b),
        k.wf(),
        k.keeps(merged(a, b), appended_faces(a, b)),
        0 <= h < k.nh(),
    ensures
        k.tw(h) == b.tw(h),
{
    lemma_kept_nh(a, b, k);
    lemma_kept_loops(a, b, k, h);
    lemma_twin_links(b, h);
    lemma_twin_links(k, h);
    if b.tw(h).is_some() {
        let t = b.tw(h).unwrap().0 as int;
        lemma_kept_loops(a, b, k, t);
        lemma_loop_links(b, t);
        lemma_kept_loops(a, b, k, b.nxt(h));
        lemma_kept_loops(a, b, k, b.nxt(t));
        assert(k.same_edge(h, t));
        reveal(MeshModel::twins_wf);
    }
    if k.tw(h).is_some() {
        let t = k.tw(h).unwrap().0 as int;
        lemma_kept_loops(a, b, k, t);
        lemma_loop_links(b, t);
        lemma_kept_loops(a, b, k, b.nxt(h));
        lemma_kept_loops(a, b, k, b.nxt(t));
        assert(b.same_edge(h, t));
        reveal(MeshModel::twins_wf);
    }
}

proof fn lemma_extracted_faces<P>(
    a: MeshModel<P>,
    b: MeshModel<P>,
    k: MeshModel<P>,
    o: MeshModel<P>,
    back: Seq<usize>,
    pback: Seq<usize>,
)
    requires
        a.wf(),
        b.wf(),
        fits_with(a, b),
        k.wf(),
        k.keeps(merged(a, b), appended_faces(a, b)),
        o.compacts(k, back, pback),
    ensures
        o.nf() == b.nf(),
        o.nh() == b.nh(),
        forall|j: int| #![trigger o.faces[j]]
            0 <= j < o.nf() ==> {
                &&& o.fstart(j) == b.fstart(j)
                &&& o.faces[j].patch.is_some() == b.faces[j].patch.is_some()
                &&& o.faces[j].patch.is_some() ==> o.patches[o.faces[j].patch.unwrap().0 as int]
                    == b.patches[b.faces[j].patch.unwrap().0 as int]
            },
{
    let m = merged(a, b);
    lemma_kept_nh(a, b, k);
    assert forall|j: int| #![trigger o.faces[j]] 0 <= j < o.nf() implies {
        &&& o.fstart(j) == b.fstart(j)
        &&& o.faces[j].patch.is_some() == b.faces[j].patch.is_some()
        &&& o.faces[j].patch.is_some() ==> o.patches[o.faces[j].patch.unwrap().0 as int]
            == b.patches[b.faces[j].patch.unwrap().0 as int]
    } by {
        lemma_extracted_face(a, b, k, o, back, pback, j);
    }
}

proof fn lemma_extracted_face<P>(
    a: MeshModel<P>,
    b: MeshModel<P>,
    k: MeshModel<P>,
    o: MeshModel<P>,
    back: Seq<usize>,
    pback: Seq<usize>,
    j: int,
)
    requires
        a.wf(),
        b.wf(),
        fits_with(a, b),
        k.wf(),
        k.keeps(merged(a, b), appended_faces(a, b)),
        o.compacts(k, back, pback),
        0 <= j < o.nf(),
    ensures
        o.fstart(j) == b.fstart(j),
        o.faces[j].patch.is_some() == b.faces[j].patch.is_some(),
        o.faces[j].patch.is_some() ==> o.patches[o.faces[j].patch.unwrap().0 as int]
            == b.patches[b.faces[j].patch.unwrap().0 as int],
{
    let m = merged(a, b);
    lemma_kept_nh(a, b, k);
    lemma_kept_starts(a, b, k, j);
    assert(o.faces[j] == o.faces[j]);
    if j + 1 < o.nf() {
        assert(o.faces[j + 1] == o.faces[j + 1]);
    }
    assert(m.faces[a.nf() + j] == shift_face(b.faces[j], a.nh(), a.np()));
    assert(b.faces[j].patch.is_some() ==> b.faces[j].patch.unwrap().0 < b.np()) by {
        reveal(MeshModel::faces_wf);
        assert(b.faces[j].patch == b.faces[j].patch);
    }
    if o.faces[j].patch.is_some() {
        let p = o.faces[j].patch.unwrap().0 as int;
        assert(pback[p] == pback[p]);
    }
}

proof fn lemma_extracted_half_edges<P>(
    a: MeshModel<P>,
    b: MeshModel<P>,
    k: MeshModel<P>,
    o: MeshModel<P>,
    back: Seq<usize>,
    pback: Seq<usize>,
)
    requires
        a.wf(),
        b.wf(),
        fits_with(a, b),
        k.wf(),
        k.keeps(merged(a, b), appended_faces(a, b)),
        o.compacts(k, back, pback),
    ensures
        forall|h: int| #![trigger o.half_edges[h]]
            0 <= h < o.nh() ==> {
                &&& o.half_edges[h].face == b.half_edges[h].face
                &&& o.half_edges[h].next == b.half_edges[h].next
                &&& o.half_edges[h].prev == b.half_edges[h].prev
                &&& o.half_edges[h].twin == b.half_edges[h].twin
                &&& o.vertices[o.org(h)].point == b.vertices[b.org(h)].point
            },
        forall|h: int, g: int|
            0 <= h < o.nh() && 0 <= g < o.nh() ==> (#[trigger] o.org(h) == #[trigger] o.org(g) <==> b.org(h)
                == b.org(g)),
{
    let m = merged(a, b);
    lemma_kept_nh(a, b, k);
    assert forall|h: int| #![trigger o.half_edges[h]] 0 <= h < o.nh() implies {
        &&& o.half_edges[h].face == b.half_edges[h].face
        &&& o.half_edges[h].next == b.half_edges[h].next
        &&& o.half_edges[h].prev == b.half_edges[h].prev
        &&& o.half_edges[h].twin == b.half_edges[h].twin
        &&& o.vertices[o.org(h)].point == b.vertices[b.org(h)].point
    } by {
        assert(o.half_edges[h] == o.half_edges[h]);
        lemma_kept_loops(a, b, k, h);
        lemma_kept_twin(a, b, k, h);
        lemma_loop_links(b, h);
        let v = o.org(h);
        assert(back[v] == back[v]);
        assert(k.vertices[back[v] as int].point == m.vertices[back[v] as int].point);
        assert(m.vertices[b.org(h) + a.nv()].point == b.vertices[b.org(h)].point);
    }
    assert forall|h: int, g: int| 0 <= h < o.nh() && 0 <= g < o.nh() implies (#[trigger] o.org(h)
        == #[trigger] o.org(g) <==> b.org(h) == b.org(g)) by {
        assert(o.half_edges[h] == o.half_edges[h]);
        assert(o.half_edges[g] == o.half_edges[g]);
        lemma_kept_loops(a, b, k, h);
        lemma_kept_loops(a, b, k, g);
    }
}

/// Merging `b` into `a` and then extracting exactly the faces that came
/// from `b` gives back `b`: the same faces in the same order, the same
/// loops, twins and patch names, and the same vertex positions, with the
/// vertices renumbered.
pub proof fn lemma_merge_then_extract<P>(a: MeshModel<P>, b: MeshModel<P>, o: MeshModel<P>)
    requires
        a.wf(),
        b.wf(),
        fits_with(a, b),
        o.extracted_from(merged(a, b), appended_faces(a, b)),
    ensures
        isomorphic(o, b),
{
    let (k, back, pback) = choose|k: MeshModel<P>, back: Seq<usize>, pback: Seq<usize>|
        k.wf() && #[trigger] k.keeps(merged(a, b), appended_faces(a, b)) && #[trigger] o.compacts(
            k,
            back,
            pback,
        );
    lemma_extracted_faces(a, b, k, o, back, pback);
    lemma_extracted_half_edges(a, b, k, o, back, pback);
}

} // verus!
