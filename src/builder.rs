//! Building a half-edge mesh from an interchange mesh: one half-edge per
//! corner, loops per face, and twins for shared edges.

use vstd::prelude::*;

use crate::errors::{BuildError, NonManifoldError};
use crate::half_edge::{
    Face, FaceHandle, HalfEdge, HalfEdgeHandle, HeMesh, MeshModel, Patch, PatchHandle, Vertex,
    VertexHandle,
};
use crate::io::IOMesh;

verus! {

/// Number of corners (vertex references) of face `f`.
pub open spec fn face_len<P>(io: IOMesh<P>, f: int) -> int {
    io.spec_faces()[f].spec_vertices().len() as int
}

/// Number of corners in the faces before face `f`: where the half-edges of
/// face `f` start in a mesh built from `io`.
pub open spec fn corner_offset<P>(io: IOMesh<P>, f: int) -> int
    decreases f,
{
    if f <= 0 {
        0
    } else {
        corner_offset(io, f - 1) + face_len(io, f - 1)
    }
}

pub open spec fn is_corner<P>(io: IOMesh<P>, f: int, k: int) -> bool {
    0 <= f < io.spec_faces().len() && 0 <= k < face_len(io, f)
}

/// The vertex at corner `k` of face `f`.
pub open spec fn corner_org<P>(io: IOMesh<P>, f: int, k: int) -> int {
    io.spec_faces()[f].spec_vertices()[k] as int
}

/// The vertex after corner `k` of face `f`, cyclically.
pub open spec fn corner_dst<P>(io: IOMesh<P>, f: int, k: int) -> int {
    if k + 1 < face_len(io, f) {
        corner_org(io, f, k + 1)
    } else {
        corner_org(io, f, 0)
    }
}

/// The edges leaving two corners join the same two vertices.
pub open spec fn corners_share_edge<P>(io: IOMesh<P>, f1: int, k1: int, f2: int, k2: int) -> bool {
    ||| (corner_org(io, f1, k1) == corner_org(io, f2, k2) && corner_dst(io, f1, k1) == corner_dst(
        io,
        f2,
        k2,
    ))
    ||| (corner_org(io, f1, k1) == corner_dst(io, f2, k2) && corner_dst(io, f1, k1) == corner_org(
        io,
        f2,
        k2,
    ))
}

/// Face `f` has at least three corners, and names existing vertices and
/// patches only.
pub open spec fn face_valid<P>(io: IOMesh<P>, f: int) -> bool {
    &&& face_len(io, f) >= 3
    &&& forall|k: int|
        0 <= k < face_len(io, f) ==> #[trigger] corner_org(io, f, k) < io.spec_vertices().len()
    &&& io.spec_faces()[f].spec_patch().is_some() ==> io.spec_faces()[f].spec_patch().unwrap()
        < io.spec_patches().len()
}

pub open spec fn faces_valid<P>(io: IOMesh<P>) -> bool {
    forall|f: int| 0 <= f < io.spec_faces().len() ==> #[trigger] face_valid(io, f)
}

/// Three distinct corners lie on the undirected edge from `p` to `q`.
pub open spec fn non_manifold_at<P>(io: IOMesh<P>, p: int, q: int) -> bool {
    exists|f1: int, k1: int, f2: int, k2: int, f3: int, k3: int|
        {
            &&& #[trigger] is_corner(io, f1, k1)
            &&& #[trigger] is_corner(io, f2, k2)
            &&& #[trigger] is_corner(io, f3, k3)
            &&& (f1, k1) != (f2, k2)
            &&& (f1, k1) != (f3, k3)
            &&& (f2, k2) != (f3, k3)
            &&& corner_org(io, f1, k1) == p
            &&& corner_dst(io, f1, k1) == q
            &&& corners_share_edge(io, f1, k1, f2, k2)
            &&& corners_share_edge(io, f1, k1, f3, k3)
        }
}

/// Some undirected edge is used by more than two corners.
pub open spec fn is_non_manifold<P>(io: IOMesh<P>) -> bool {
    exists|p: int, q: int| non_manifold_at(io, p, q)
}

pub open spec fn patch_handle(p: Option<usize>) -> Option<PatchHandle> {
    match p {
        Some(i) => Some(PatchHandle(i)),
        None => None,
    }
}

proof fn lemma_offset_monotonic<P>(io: IOMesh<P>, g: int, f: int)
    requires
        0 <= g < f,
    ensures
        corner_offset(io, g) + face_len(io, g) <= corner_offset(io, f),
    decreases f - g,
{
    if g + 1 < f {
        lemma_offset_monotonic(io, g + 1, f);
    }
}

proof fn lemma_offset_nonneg<P>(io: IOMesh<P>, f: int)
    ensures
        0 <= corner_offset(io, f),
    decreases f,
{
    if f > 0 {
        lemma_offset_nonneg(io, f - 1);
    }
}

proof fn lemma_corners_below<P>(io: IOMesh<P>, f: int)
    ensures
        forall|g: int, j: int|
            #[trigger] is_corner(io, g, j) && g < f ==> 0 <= corner_offset(io, g)
                && corner_offset(io, g) + j < corner_offset(io, f),
{
    assert forall|g: int, j: int| #[trigger] is_corner(io, g, j) && g < f implies corner_offset(
        io,
        g,
    ) + j < corner_offset(io, f) && 0 <= corner_offset(io, g) by {
        lemma_offset_monotonic(io, g, f);
        lemma_offset_nonneg(io, g);
    }
}

/// The face record of face `f` in a mesh built from `io`.
pub open spec fn io_face_record<P>(io: IOMesh<P>, f: int) -> Face {
    Face {
        half_edge: HalfEdgeHandle(corner_offset(io, f) as usize),
        patch: patch_handle(io.spec_faces()[f].spec_patch()),
    }
}

/// The half-edge that leaves corner `k` of face `f`, without its twin.
pub open spec fn corner_half_edge<P>(io: IOMesh<P>, f: int, k: int) -> HalfEdge {
    let off = corner_offset(io, f);
    let n = face_len(io, f);
    HalfEdge {
        origin: VertexHandle(corner_org(io, f, k) as usize),
        face: FaceHandle(f as usize),
        next: HalfEdgeHandle((if k + 1 < n { off + k + 1 } else { off }) as usize),
        prev: HalfEdgeHandle((if k == 0 { off + n - 1 } else { off + k - 1 }) as usize),
        twin: None,
    }
}

pub open spec fn same_links(a: HalfEdge, b: HalfEdge) -> bool {
    a.origin == b.origin && a.face == b.face && a.next == b.next && a.prev == b.prev
}

/// The half-edges and faces are those of `io`, in corner order.
pub open spec fn laid_out<P>(io: IOMesh<P>, hes: Seq<HalfEdge>, faces: Seq<Face>) -> bool {
    &&& faces.len() == io.spec_faces().len()
    &&& faces.len() <= usize::MAX
    &&& hes.len() <= usize::MAX
    &&& hes.len() == corner_offset(io, io.spec_faces().len() as int)
    &&& forall|f: int| #![trigger faces[f]]
        0 <= f < faces.len() ==> faces[f] == io_face_record(io, f)
    &&& forall|f: int, k: int| #![trigger corner_half_edge(io, f, k)]
        is_corner(io, f, k) ==> same_links(
            hes[corner_offset(io, f) + k],
            corner_half_edge(io, f, k),
        )
    &&& forall|h: int| #![trigger hes[h]]
        0 <= h < hes.len() ==> {
            let f = hes[h].face.0 as int;
            &&& 0 <= f < faces.len()
            &&& corner_offset(io, f) <= h < corner_offset(io, f) + face_len(io, f)
            &&& same_links(hes[h], corner_half_edge(io, f, h - corner_offset(io, f)))
        }
}

/// A mesh built from `io`: same vertices, patches, faces and corners.
pub open spec fn built_from<P>(m: MeshModel<P>, io: IOMesh<P>) -> bool {
    &&& m.nv() == io.spec_vertices().len()
    &&& forall|v: int| #![trigger m.vertices[v]]
        0 <= v < m.nv() ==> m.vertices[v].point == io.spec_vertices()[v].spec_origin()
    &&& m.np() == io.spec_patches().len()
    &&& forall|i: int| #![trigger m.patches[i]] 0 <= i < m.np() ==> m.patches[i] == io.spec_patches()[i]@
    &&& laid_out(io, m.half_edges, m.faces)
}

/// Index of the first face that is not valid, if any.
fn first_invalid_face<P>(io: &IOMesh<P>) -> (r: Option<usize>)
    ensures
        match r {
            Some(f) => f < io.spec_faces().len() && !face_valid(*io, f as int) && forall|g: int|
                0 <= g < f ==> #[trigger] face_valid(*io, g),
            None => faces_valid(*io),
        },
{
    let nv = io.number_of_vertices();
    let np = io.number_of_patches();
    let nf = io.number_of_faces();
    let mut f: usize = 0;
    while f < nf
        invariant
            nv == io.spec_vertices().len(),
            np == io.spec_patches().len(),
            nf == io.spec_faces().len(),
            f <= nf,
            forall|g: int| 0 <= g < f ==> #[trigger] face_valid(*io, g),
        decreases nf - f,
    {
        let face = io.face(f);
        let vs = face.vertices();
        if vs.len() < 3 {
            assert(!face_valid(*io, f as int));
            return Some(f);
        }
        let mut k: usize = 0;
        while k < vs.len()
            invariant
                nv == io.spec_vertices().len(),
                f < nf == io.spec_faces().len(),
                vs@ == io.spec_faces()[f as int].spec_vertices(),
                k <= vs.len(),
                forall|j: int| 0 <= j < k ==> #[trigger] corner_org(*io, f as int, j) < nv,
                forall|g: int| 0 <= g < f ==> #[trigger] face_valid(*io, g),
            decreases vs.len() - k,
        {
            if vs[k] >= nv {
                assert(corner_org(*io, f as int, k as int) >= nv);
                return Some(f);
            }
            k += 1;
        }
        match face.patch() {
            Some(p) => {
                if p >= np {
                    return Some(f);
                }
            },
            None => {},
        }
        assert(face_valid(*io, f as int));
        f += 1;
    }
    None
}

/// Lay out one half-edge per corner, face by face, each face's half-edges
/// chained into a loop in corner order.
fn build_loops<P>(io: &IOMesh<P>) -> (r: (Vec<HalfEdge>, Vec<Face>))
    requires
        faces_valid(*io),
    ensures
        laid_out(*io, r.0@, r.1@),
        forall|h: int| 0 <= h < r.0@.len() ==> (#[trigger] r.0@[h]).twin.is_none(),
{
    let nf = io.number_of_faces();
    let mut hes: Vec<HalfEdge> = Vec::new();
    let mut faces: Vec<Face> = Vec::new();
    let mut f: usize = 0;
    while f < nf
        invariant
            nf == io.spec_faces().len(),
            faces_valid(*io),
            f <= nf,
            faces@.len() == f,
            hes@.len() == corner_offset(*io, f as int),
            forall|g: int| #![trigger faces@[g]]
                0 <= g < f ==> faces@[g] == io_face_record(*io, g),
            forall|g: int, k: int| #![trigger corner_half_edge(*io, g, k)]
                is_corner(*io, g, k) && g < f ==> same_links(
                    hes@[corner_offset(*io, g) + k],
                    corner_half_edge(*io, g, k),
                ),
            forall|h: int| #![trigger hes@[h]]
                0 <= h < hes@.len() ==> {
                    let g = hes@[h].face.0 as int;
                    &&& 0 <= g < f
                    &&& corner_offset(*io, g) <= h < corner_offset(*io, g) + face_len(*io, g)
                    &&& same_links(hes@[h], corner_half_edge(*io, g, h - corner_offset(*io, g)))
                    &&& hes@[h].twin.is_none()
                },
        decreases nf - f,
    {
        let face = io.face(f);
        let vs = face.vertices();
        let n = vs.len();
        assert(face_valid(*io, f as int));
        let patch = match face.patch() {
            Some(p) => Some(PatchHandle(p)),
            None => None,
        };
        let s = hes.len();
        faces.push(Face { half_edge: HalfEdgeHandle(s), patch });
        let ghost off = corner_offset(*io, f as int);
        proof {
            lemma_corners_below(*io, f as int);
        }
        let mut k: usize = 0;
        while k < n
            invariant
                nf == io.spec_faces().len(),
                f < nf,
                vs@ == io.spec_faces()[f as int].spec_vertices(),
                n == vs@.len(),
                n >= 3,
                s == off,
                off == corner_offset(*io, f as int),
                k <= n,
                hes@.len() == off + k,
                forall|g: int, j: int|
                    #[trigger] is_corner(*io, g, j) && g < f ==> 0 <= corner_offset(*io, g)
                        && corner_offset(*io, g) + j < off,
                forall|g: int, j: int| #![trigger corner_half_edge(*io, g, j)]
                    is_corner(*io, g, j) && g < f ==> same_links(
                        hes@[corner_offset(*io, g) + j],
                        corner_half_edge(*io, g, j),
                    ),
                forall|h: int| #![trigger hes@[h]]
                    0 <= h < off ==> {
                        let g = hes@[h].face.0 as int;
                        &&& 0 <= g < f
                        &&& corner_offset(*io, g) <= h < corner_offset(*io, g) + face_len(*io, g)
                        &&& same_links(
                            hes@[h],
                            corner_half_edge(*io, g, h - corner_offset(*io, g)),
                        )
                        &&& hes@[h].twin.is_none()
                    },
                forall|j: int| #![trigger hes@[off + j]]
                    0 <= j < k ==> {
                        let e = corner_half_edge(*io, f as int, j);
                        &&& hes@[off + j].origin == e.origin
                        &&& hes@[off + j].face == e.face
                        &&& hes@[off + j].twin.is_none()
                        &&& (j + 1 < n ==> hes@[off + j].next == e.next)
                        &&& (j > 0 ==> hes@[off + j].prev == e.prev)
                    },
            decreases n - k,
        {
            let ghost pre = hes@;
            let h = hes.len();
            let prev = if k == 0 {
                HalfEdgeHandle(h)
            } else {
                HalfEdgeHandle(h - 1)
            };
            hes.push(
                HalfEdge {
                    origin: VertexHandle(vs[k]),
                    face: FaceHandle(f),
                    prev,
                    next: HalfEdgeHandle(h),
                    twin: None,
                },
            );
            if k + 1 < n {
                let l = hes.len();
                let mut e = hes[h];
                e.next = HalfEdgeHandle(l);
                hes.set(h, e);
            }
            assert(hes@[off + k as int] == hes@[h as int]);
            assert forall|g: int, j: int|
                is_corner(*io, g, j) && g < f implies same_links(
                hes@[corner_offset(*io, g) + j],
                #[trigger] corner_half_edge(*io, g, j),
            ) by {
                assert(corner_offset(*io, g) + j < off);
                assert(hes@[corner_offset(*io, g) + j] == pre[corner_offset(*io, g) + j]);
            }
            k += 1;
        }
        let last = hes.len() - 1;
        let mut e = hes[s];
        e.prev = HalfEdgeHandle(last);
        hes.set(s, e);
        let mut e = hes[last];
        e.next = HalfEdgeHandle(s);
        hes.set(last, e);
        assert(corner_offset(*io, f + 1) == off + n);
        assert forall|j: int| 0 <= j < n implies same_links(
            hes@[off + j],
            #[trigger] corner_half_edge(*io, f as int, j),
        ) by {
            assert(hes@[off + j] == hes@[off + j]);
        }
        assert forall|h: int| 0 <= h < hes@.len() implies {
            let g = (#[trigger] hes@[h]).face.0 as int;
            &&& 0 <= g < f + 1
            &&& corner_offset(*io, g) <= h < corner_offset(*io, g) + face_len(*io, g)
            &&& same_links(hes@[h], corner_half_edge(*io, g, h - corner_offset(*io, g)))
            &&& hes@[h].twin.is_none()
        } by {
            if h >= off {
                assert(hes@[off + (h - off)] == hes@[h]);
                assert(same_links(hes@[off + (h - off)], corner_half_edge(*io, f as int, h - off)));
            }
        }
        f += 1;
    }
    // The lengths of vectors fit in `usize`.
    let nfaces = faces.len();
    let nhes = hes.len();
    assert(nfaces == faces@.len() && nhes == hes@.len());
    (hes, faces)
}

pub open spec fn s_org(hes: Seq<HalfEdge>, h: int) -> int {
    hes[h].origin.0 as int
}

pub open spec fn s_dst(hes: Seq<HalfEdge>, h: int) -> int {
    s_org(hes, hes[h].next.0 as int)
}

pub open spec fn s_same(hes: Seq<HalfEdge>, h: int, g: int) -> bool {
    ||| (s_org(hes, h) == s_org(hes, g) && s_dst(hes, h) == s_dst(hes, g))
    ||| (s_org(hes, h) == s_dst(hes, g) && s_dst(hes, h) == s_org(hes, g))
}

pub open spec fn links_bounded(hes: Seq<HalfEdge>, nv: int) -> bool {
    forall|h: int| #![trigger hes[h]]
        0 <= h < hes.len() ==> hes[h].origin.0 < nv && hes[h].next.0 < hes.len()
}

/// Look through `list` for half-edges other than `h` on the edge of `h`,
/// starting from what was `found` before; two distinct ones are an error.
fn scan_for_twin(
    hes: &Vec<HalfEdge>,
    list: &Vec<usize>,
    h: usize,
    found: Option<usize>,
    Ghost(nv): Ghost<int>,
) -> (r: Result<Option<usize>, (usize, usize)>)
    requires
        links_bounded(hes@, nv),
        h < hes@.len(),
        forall|i: int| 0 <= i < list@.len() ==> #[trigger] list@[i] < hes@.len(),
        found.is_some() ==> found.unwrap() < hes@.len() && found.unwrap() != h && s_same(
            hes@,
            h as int,
            found.unwrap() as int,
        ),
    ensures
        match r {
            Ok(t) => {
                &&& found.is_some() ==> t == found
                &&& t.is_some() ==> t.unwrap() < hes@.len() && t.unwrap() != h && s_same(
                    hes@,
                    h as int,
                    t.unwrap() as int,
                )
                &&& forall|i: int|
                    0 <= i < list@.len() && #[trigger] list@[i] != h && s_same(
                        hes@,
                        h as int,
                        list@[i] as int,
                    ) ==> t == Some(list@[i])
            },
            Err((a, b)) => {
                &&& a < hes@.len() && b < hes@.len() && a != b && a != h && b != h
                &&& s_same(hes@, h as int, a as int) && s_same(hes@, h as int, b as int)
            },
        },
{
    let a = hes[h].origin.0;
    let b = hes[hes[h].next.0].origin.0;
    let mut t = found;
    let mut i: usize = 0;
    while i < list.len()
        invariant
            links_bounded(hes@, nv),
            h < hes@.len(),
            a == s_org(hes@, h as int),
            b == s_dst(hes@, h as int),
            forall|i: int| 0 <= i < list@.len() ==> #[trigger] list@[i] < hes@.len(),
            found.is_some() ==> t == found,
            t.is_some() ==> t.unwrap() < hes@.len() && t.unwrap() != h && s_same(
                hes@,
                h as int,
                t.unwrap() as int,
            ),
            i <= list@.len(),
            forall|j: int|
                0 <= j < i && #[trigger] list@[j] != h && s_same(hes@, h as int, list@[j] as int)
                    ==> t == Some(list@[j]),
        decreases list@.len() - i,
    {
        let g = list[i];
        let ga = hes[g].origin.0;
        let gb = hes[hes[g].next.0].origin.0;
        if g != h && ((ga == a && gb == b) || (ga == b && gb == a)) {
            match t {
                Some(u) => {
                    if u != g {
                        return Err((u, g));
                    }
                },
                None => {
                    t = Some(g);
                },
            }
        }
        i += 1;
    }
    Ok(t)
}

/// Pair every half-edge with the one other half-edge on its undirected edge,
/// if there is one. Fails with three distinct half-edges on one edge.
fn resolve_twins(hes: &mut Vec<HalfEdge>, nv: usize) -> (r: Result<(), (usize, usize, usize)>)
    requires
        links_bounded(old(hes)@, nv as int),
    ensures
        final(hes)@.len() == old(hes)@.len(),
        forall|h: int|
            0 <= h < old(hes)@.len() ==> same_links(#[trigger] final(hes)@[h], old(hes)@[h]),
        match r {
            Ok(()) => {
                &&& forall|h: int| #![trigger final(hes)@[h].twin]
                    0 <= h < final(hes)@.len() && final(hes)@[h].twin.is_some() ==> {
                        let t = final(hes)@[h].twin.unwrap().0 as int;
                        &&& 0 <= t < final(hes)@.len()
                        &&& t != h
                        &&& s_same(old(hes)@, h, t)
                    }
                &&& forall|h: int, g: int|
                    0 <= h < final(hes)@.len() && 0 <= g < final(hes)@.len() && h != g
                        && #[trigger] s_same(old(hes)@, h, g) ==> final(hes)@[h].twin == Some(
                        HalfEdgeHandle(g as usize),
                    )
            },
            Err((a, b, c)) => {
                &&& a < old(hes)@.len() && b < old(hes)@.len() && c < old(hes)@.len()
                &&& a != b && a != c && b != c
                &&& s_same(old(hes)@, a as int, b as int)
                &&& s_same(old(hes)@, a as int, c as int)
            },
        },
{
    let ghost pre = hes@;
    let n = hes.len();
    let mut out: Vec<Vec<usize>> = Vec::new();
    let mut v: usize = 0;
    while v < nv
        invariant
            v <= nv,
            out@.len() == v,
            forall|w: int| 0 <= w < v ==> (#[trigger] out@[w])@.len() == 0,
        decreases nv - v,
    {
        out.push(Vec::new());
        v += 1;
    }
    let mut h: usize = 0;
    while h < n
        invariant
            hes@ == pre,
            pre == old(hes)@,
            n == pre.len(),
            links_bounded(pre, nv as int),
            h <= n,
            out@.len() == nv,
            forall|w: int, i: int|
                0 <= w < nv && 0 <= i < out@[w]@.len() ==> #[trigger] out@[w]@[i] < h && s_org(
                    pre,
                    out@[w]@[i] as int,
                ) == w,
            forall|g: int|
                0 <= g < h ==> (#[trigger] out@[s_org(pre, g)]@).contains(g as usize),
        decreases n - h,
    {
        let o = hes[h].origin.0;
        let ghost before = out@;
        out[o].push(h);
        assert forall|g: int| 0 <= g < h + 1 implies (#[trigger] out@[s_org(pre, g)]@).contains(
            g as usize,
        ) by {
            if g < h {
                let w = s_org(pre, g);
                let i = choose|i: int| 0 <= i < before[w]@.len() && before[w]@[i] == g as usize;
                assert(out@[w]@[i] == g as usize);
            } else {
                assert(out@[o as int]@[out@[o as int]@.len() - 1] == h);
            }
        }
        h += 1;
    }
    let mut h: usize = 0;
    while h < n
        invariant
            n == pre.len(),
            pre == old(hes)@,
            hes@.len() == n,
            links_bounded(pre, nv as int),
            forall|g: int| 0 <= g < n ==> same_links(#[trigger] hes@[g], pre[g]),
            h <= n,
            out@.len() == nv,
            forall|w: int, i: int|
                0 <= w < nv && 0 <= i < out@[w]@.len() ==> #[trigger] out@[w]@[i] < n && s_org(
                    pre,
                    out@[w]@[i] as int,
                ) == w,
            forall|g: int| 0 <= g < n ==> (#[trigger] out@[s_org(pre, g)]@).contains(g as usize),
            forall|g: int| #![trigger hes@[g].twin]
                0 <= g < h && hes@[g].twin.is_some() ==> {
                    let t = hes@[g].twin.unwrap().0 as int;
                    &&& 0 <= t < n
                    &&& t != g
                    &&& s_same(pre, g, t)
                },
            forall|g: int, e: int|
                0 <= g < h && 0 <= e < n && g != e && #[trigger] s_same(pre, g, e)
                    ==> hes@[g].twin == Some(HalfEdgeHandle(e as usize)),
        decreases n - h,
    {
        let ghost cur = hes@;
        let a = hes[h].origin.0;
        let b = hes[hes[h].next.0].origin.0;
        let t1 = match scan_for_twin(hes, &out[a], h, None, Ghost(nv as int)) {
            Err((x, y)) => {
                return Err((h, x, y));
            },
            Ok(t) => t,
        };
        let t = match scan_for_twin(hes, &out[b], h, t1, Ghost(nv as int)) {
            Err((x, y)) => {
                return Err((h, x, y));
            },
            Ok(t) => t,
        };
        assert forall|e: int|
            0 <= e < n && h != e && #[trigger] s_same(pre, h as int, e) implies t == Some(
            e as usize,
        ) by {
            let w = s_org(pre, e);
            assert(out@[w]@.contains(e as usize));
            let i = choose|i: int| 0 <= i < out@[w]@.len() && out@[w]@[i] == e as usize;
            assert(same_links(cur[e], pre[e]));
            assert(same_links(cur[h as int], pre[h as int]));
            assert(same_links(cur[pre[e].next.0 as int], pre[pre[e].next.0 as int]));
            assert(same_links(cur[pre[h as int].next.0 as int], pre[pre[h as int].next.0 as int]));
            assert(s_same(cur, h as int, e));
            if w == a {
                assert(out@[a as int]@[i] == e);
            } else {
                assert(out@[b as int]@[i] == e);
            }
        }
        let mut e = hes[h];
        e.twin = match t {
            Some(g) => Some(HalfEdgeHandle(g)),
            None => None,
        };
        hes.set(h, e);
        h += 1;
    }
    Ok(())
}

proof fn lemma_corner_ends<P>(io: IOMesh<P>, hes: Seq<HalfEdge>, faces: Seq<Face>, f: int, k: int)
    requires
        laid_out(io, hes, faces),
        faces_valid(io),
        is_corner(io, f, k),
    ensures
        0 <= corner_offset(io, f) + k < hes.len(),
        corner_offset(io, f) + face_len(io, f) <= hes.len(),
        corner_org(io, f, k) < io.spec_vertices().len(),
        hes[corner_offset(io, f) + k].face.0 == f,
        s_org(hes, corner_offset(io, f) + k) == corner_org(io, f, k),
        s_dst(hes, corner_offset(io, f) + k) == corner_dst(io, f, k),
{
    let nf = io.spec_faces().len() as int;
    lemma_offset_nonneg(io, f);
    if f + 1 < nf {
        lemma_offset_monotonic(io, f, nf);
    }
    assert(face_valid(io, f));
    let e = corner_half_edge(io, f, k);
    assert(same_links(hes[corner_offset(io, f) + k], e));
    assert(corner_org(io, f, k) < io.spec_vertices().len());
    if k + 1 < face_len(io, f) {
        assert(same_links(hes[corner_offset(io, f) + k + 1], corner_half_edge(io, f, k + 1)));
    } else {
        assert(same_links(hes[corner_offset(io, f) + 0], corner_half_edge(io, f, 0)));
    }
}

proof fn lemma_half_edge_corner<P>(io: IOMesh<P>, hes: Seq<HalfEdge>, faces: Seq<Face>, h: int)
    requires
        laid_out(io, hes, faces),
        faces_valid(io),
        0 <= h < hes.len(),
    ensures
        is_corner(io, hes[h].face.0 as int, h - corner_offset(io, hes[h].face.0 as int)),
        s_org(hes, h) == corner_org(
            io,
            hes[h].face.0 as int,
            h - corner_offset(io, hes[h].face.0 as int),
        ),
        s_dst(hes, h) == corner_dst(
            io,
            hes[h].face.0 as int,
            h - corner_offset(io, hes[h].face.0 as int),
        ),
{
    let f = hes[h].face.0 as int;
    let k = h - corner_offset(io, f);
    assert(hes[h] == hes[h]);
    lemma_corner_ends(io, hes, faces, f, k);
}

proof fn lemma_links_bounded<P>(io: IOMesh<P>, hes: Seq<HalfEdge>, faces: Seq<Face>)
    requires
        laid_out(io, hes, faces),
        faces_valid(io),
    ensures
        links_bounded(hes, io.spec_vertices().len() as int),
{
    assert forall|h: int| 0 <= h < hes.len() implies (#[trigger] hes[h]).origin.0
        < io.spec_vertices().len() && hes[h].next.0 < hes.len() by {
        let f = hes[h].face.0 as int;
        let k = h - corner_offset(io, f);
        lemma_corner_ends(io, hes, faces, f, k);
        assert(face_valid(io, f));
        let nf = io.spec_faces().len() as int;
        if f + 1 < nf {
            lemma_offset_monotonic(io, f, nf);
        }
        lemma_offset_nonneg(io, f);
    }
}

/// Three distinct half-edges on one edge are three distinct corners on it.
proof fn lemma_triple_is_non_manifold<P>(
    io: IOMesh<P>,
    hes: Seq<HalfEdge>,
    faces: Seq<Face>,
    a: int,
    b: int,
    c: int,
)
    requires
        laid_out(io, hes, faces),
        faces_valid(io),
        0 <= a < hes.len(),
        0 <= b < hes.len(),
        0 <= c < hes.len(),
        a != b && a != c && b != c,
        s_same(hes, a, b),
        s_same(hes, a, c),
    ensures
        non_manifold_at(io, s_org(hes, a), s_dst(hes, a)),
{
    lemma_half_edge_corner(io, hes, faces, a);
    lemma_half_edge_corner(io, hes, faces, b);
    lemma_half_edge_corner(io, hes, faces, c);
    let fa = hes[a].face.0 as int;
    let fb = hes[b].face.0 as int;
    let fc = hes[c].face.0 as int;
    let ka = a - corner_offset(io, fa);
    let kb = b - corner_offset(io, fb);
    let kc = c - corner_offset(io, fc);
    assert(is_corner(io, fa, ka) && is_corner(io, fb, kb) && is_corner(io, fc, kc));
}

/// Three distinct corners on one edge are three distinct half-edges on it.
proof fn lemma_non_manifold_triple<P>(io: IOMesh<P>, hes: Seq<HalfEdge>, faces: Seq<Face>)
    requires
        laid_out(io, hes, faces),
        faces_valid(io),
        is_non_manifold(io),
    ensures
        exists|a: int, b: int, c: int|
            0 <= a < hes.len() && 0 <= b < hes.len() && 0 <= c < hes.len() && a != b && a != c
                && b != c && #[trigger] s_same(hes, a, b) && #[trigger] s_same(hes, a, c),
{
    let (p, q) = choose|p: int, q: int| non_manifold_at(io, p, q);
    let (f1, k1, f2, k2, f3, k3) = choose|f1: int, k1: int, f2: int, k2: int, f3: int, k3: int|
        {
            &&& #[trigger] is_corner(io, f1, k1)
            &&& #[trigger] is_corner(io, f2, k2)
            &&& #[trigger] is_corner(io, f3, k3)
            &&& (f1, k1) != (f2, k2)
            &&& (f1, k1) != (f3, k3)
            &&& (f2, k2) != (f3, k3)
            &&& corner_org(io, f1, k1) == p
            &&& corner_dst(io, f1, k1) == q
            &&& corners_share_edge(io, f1, k1, f2, k2)
            &&& corners_share_edge(io, f1, k1, f3, k3)
        };
    lemma_corner_ends(io, hes, faces, f1, k1);
    lemma_corner_ends(io, hes, faces, f2, k2);
    lemma_corner_ends(io, hes, faces, f3, k3);
    let a = corner_offset(io, f1) + k1;
    let b = corner_offset(io, f2) + k2;
    let c = corner_offset(io, f3) + k3;
    assert(s_same(hes, a, b) && s_same(hes, a, c));
}

proof fn lemma_built_mesh<P>(io: IOMesh<P>, pre: Seq<HalfEdge>, m: MeshModel<P>)
    requires
        faces_valid(io),
        laid_out(io, pre, m.faces),
        m.half_edges.len() == pre.len(),
        forall|h: int| 0 <= h < pre.len() ==> same_links(#[trigger] m.half_edges[h], pre[h]),
        forall|h: int| #![trigger m.half_edges[h].twin]
            0 <= h < m.nh() && m.half_edges[h].twin.is_some() ==> {
                let t = m.half_edges[h].twin.unwrap().0 as int;
                &&& 0 <= t < m.nh()
                &&& t != h
                &&& s_same(pre, h, t)
            },
        forall|h: int, g: int|
            0 <= h < m.nh() && 0 <= g < m.nh() && h != g && #[trigger] s_same(pre, h, g)
                ==> m.half_edges[h].twin == Some(HalfEdgeHandle(g as usize)),
        m.links_exact(),
        m.nv() == io.spec_vertices().len(),
        forall|v: int| #![trigger m.vertices[v]]
            0 <= v < m.nv() ==> m.vertices[v].point == io.spec_vertices()[v].spec_origin(),
        m.np() == io.spec_patches().len(),
        forall|i: int| #![trigger m.patches[i]] 0 <= i < m.np() ==> m.patches[i] == io.spec_patches()[i]@,
    ensures
        !is_non_manifold(io),
        m.wf(),
        built_from(m, io),
{
    let nf = io.spec_faces().len() as int;
    let nh = pre.len() as int;
    lemma_links_bounded(io, pre, m.faces);
    assert forall|h: int, g: int| 0 <= h < nh && 0 <= g < nh implies #[trigger] m.same_edge(h, g)
        == s_same(pre, h, g) by {
        assert(same_links(m.half_edges[h], pre[h]));
        assert(same_links(m.half_edges[g], pre[g]));
        assert(same_links(m.half_edges[pre[h].next.0 as int], pre[pre[h].next.0 as int]));
        assert(same_links(m.half_edges[pre[g].next.0 as int], pre[pre[g].next.0 as int]));
    }
    lemma_laid_out_links(io, pre, m.half_edges, m.faces);
    lemma_built_wf(io, m);
    reveal(MeshModel::twins_wf);
    reveal(MeshModel::links_wf);
    assert(m.twins_wf());
    assert(m.links_wf());
    if is_non_manifold(io) {
        lemma_non_manifold_triple(io, pre, m.faces);
        let (a, b, c) = choose|a: int, b: int, c: int|
            0 <= a < pre.len() && 0 <= b < pre.len() && 0 <= c < pre.len() && a != b && a != c
                && b != c && #[trigger] s_same(pre, a, b) && #[trigger] s_same(pre, a, c);
        assert(m.half_edges[a].twin == Some(HalfEdgeHandle(b as usize)));
        assert(m.half_edges[a].twin == Some(HalfEdgeHandle(c as usize)));
    }
}

proof fn lemma_laid_out_links<P>(io: IOMesh<P>, pre: Seq<HalfEdge>, hes: Seq<HalfEdge>, faces: Seq<Face>)
    requires
        laid_out(io, pre, faces),
        hes.len() == pre.len(),
        forall|h: int| 0 <= h < pre.len() ==> same_links(#[trigger] hes[h], pre[h]),
    ensures
        laid_out(io, hes, faces),
{
    assert forall|f: int, k: int| is_corner(io, f, k) implies same_links(
        hes[corner_offset(io, f) + k],
        #[trigger] corner_half_edge(io, f, k),
    ) by {
        assert(same_links(pre[corner_offset(io, f) + k], corner_half_edge(io, f, k)));
        lemma_offset_nonneg(io, f);
        let nf = io.spec_faces().len() as int;
        if f + 1 < nf {
            lemma_offset_monotonic(io, f, nf);
        }
        assert(same_links(hes[corner_offset(io, f) + k], pre[corner_offset(io, f) + k]));
    }
    assert forall|h: int| 0 <= h < hes.len() implies {
        let f = (#[trigger] hes[h]).face.0 as int;
        &&& 0 <= f < faces.len()
        &&& corner_offset(io, f) <= h < corner_offset(io, f) + face_len(io, f)
        &&& same_links(hes[h], corner_half_edge(io, f, h - corner_offset(io, f)))
    } by {
        assert(same_links(hes[h], pre[h]));
        assert(pre[h] == pre[h]);
    }
}

proof fn lemma_built_range<P>(io: IOMesh<P>, m: MeshModel<P>, f: int)
    requires
        faces_valid(io),
        laid_out(io, m.half_edges, m.faces),
        0 <= f < m.nf(),
    ensures
        m.fstart(f) == corner_offset(io, f),
        m.fend(f) == corner_offset(io, f) + face_len(io, f),
        m.fstart(f) + 3 <= m.fend(f),
        m.fend(f) <= m.nh(),
        m.faces[f].patch == patch_handle(io.spec_faces()[f].spec_patch()),
{
    assert(face_valid(io, f));
    lemma_corner_ends(io, m.half_edges, m.faces, f, 0);
    let nf = m.nf();
    assert(m.faces[f] == io_face_record(io, f));
    lemma_offset_nonneg(io, f);
    assert(face_valid(io, f));
    if f + 1 < nf {
        assert(m.faces[f + 1] == io_face_record(io, f + 1));
        lemma_offset_monotonic(io, f + 1, nf);
    }
}

proof fn lemma_built_half_edge<P>(io: IOMesh<P>, m: MeshModel<P>, h: int)
    requires
        faces_valid(io),
        laid_out(io, m.half_edges, m.faces),
        m.nv() == io.spec_vertices().len(),
        0 <= h < m.nh(),
    ensures
        0 <= m.fc(h) < m.nf(),
        m.fstart(m.fc(h)) <= h < m.fend(m.fc(h)),
        m.org(h) < m.nv(),
        m.forward(m.fc(h)),
        m.nxt(h) == m.succ(h),
        m.prv(h) == m.pred(h),
{
    let f = m.fc(h);
    assert(m.half_edges[h] == m.half_edges[h]);
    lemma_half_edge_corner(io, m.half_edges, m.faces, h);
    lemma_built_range(io, m, f);
    let s0 = corner_offset(io, f);
    lemma_corner_ends(io, m.half_edges, m.faces, f, 0);
    lemma_corner_ends(io, m.half_edges, m.faces, f, h - s0);
    assert(same_links(m.half_edges[s0 + 0], corner_half_edge(io, f, 0)));
    assert(same_links(m.half_edges[s0 + (h - s0)], corner_half_edge(io, f, h - s0)));
}

proof fn lemma_built_wf<P>(io: IOMesh<P>, m: MeshModel<P>)
    requires
        faces_valid(io),
        laid_out(io, m.half_edges, m.faces),
        m.nv() == io.spec_vertices().len(),
        m.np() == io.spec_patches().len(),
    ensures
        m.faces_wf(),
        m.loops_wf(),
{
    reveal(MeshModel::faces_wf);
    reveal(MeshModel::loops_wf);
    let nf = m.nf();
    if nf > 0 {
        assert(m.faces[0] == io_face_record(io, 0));
    }
    assert forall|f: int| 0 <= f < m.nf() implies m.fstart(f) + 3 <= #[trigger] m.fend(f) <= m.nh() by {
        lemma_built_range(io, m, f);
        assert(face_valid(io, f));
        lemma_corner_ends(io, m.half_edges, m.faces, f, 0);
        lemma_built_range(io, m, f);
    }
    assert forall|f: int|
        0 <= f < m.nf() && m.faces[f].patch.is_some() implies m.faces[f].patch.unwrap().0
        < m.np() by {
        lemma_built_range(io, m, f);
        assert(face_valid(io, f));
    }
    assert forall|h: int| #![trigger m.half_edges[h]] 0 <= h < m.nh() implies {
        &&& 0 <= m.fc(h) < m.nf()
        &&& m.fstart(m.fc(h)) <= h < m.fend(m.fc(h))
        &&& m.org(h) < m.nv()
        &&& if m.forward(m.fc(h)) {
            m.nxt(h) == m.succ(h) && m.prv(h) == m.pred(h)
        } else {
            m.nxt(h) == m.pred(h) && m.prv(h) == m.succ(h)
        }
    } by {
        lemma_built_half_edge(io, m, h);
    }
    assert forall|f: int, h: int| #![trigger m.fstart(f), m.half_edges[h]]
        0 <= f < m.nf() && m.fstart(f) <= h < m.fend(f) implies m.fc(h) == f by {
        lemma_built_range(io, m, f);
        lemma_corner_ends(io, m.half_edges, m.faces, f, h - m.fstart(f));
    }
}

impl<P: Copy> HeMesh<P> {
    /// Build the half-edge mesh of an interchange mesh: one half-edge per
    /// corner, face by face, each face's half-edges chained into a loop, and
    /// the two half-edges of every shared edge paired as twins.
    ///
    /// Fails on the first face with fewer than three vertices or that names
    /// a missing vertex or patch; otherwise fails exactly when more than two
    /// corners use one undirected edge.
    pub fn from_io(io: &IOMesh<P>) -> (r: Result<HeMesh<P>, BuildError>)
        ensures
            match r {
                Err(BuildError::InvalidFace(f)) => {
                    &&& f < io.spec_faces().len()
                    &&& !face_valid(*io, f as int)
                    &&& forall|g: int| 0 <= g < f ==> #[trigger] face_valid(*io, g)
                },
                Err(BuildError::NonManifold(e)) => {
                    &&& faces_valid(*io)
                    &&& non_manifold_at(*io, e.p as int, e.q as int)
                },
                Ok(m) => {
                    &&& faces_valid(*io)
                    &&& !is_non_manifold(*io)
                    &&& m@.wf()
                    &&& m@.links_exact()
                    &&& built_from(m@, *io)
                },
            },
    {
        match first_invalid_face(io) {
            Some(f) => {
                return Err(BuildError::InvalidFace(f));
            },
            None => {},
        }
        let nv = io.number_of_vertices();
        let (mut hes, faces) = build_loops(io);
        proof {
            lemma_links_bounded(*io, hes@, faces@);
        }
        let ghost pre = hes@;
        match resolve_twins(&mut hes, nv) {
            Err((a, b, c)) => {
                proof {
                    lemma_triple_is_non_manifold(*io, pre, faces@, a as int, b as int, c as int);
                }
                let p = hes[a].origin.0;
                let q = hes[hes[a].next.0].origin.0;
                assert(same_links(hes@[a as int], pre[a as int]));
                assert(same_links(hes@[pre[a as int].next.0 as int], pre[pre[a as int].next.0 as int]));
                return Err(BuildError::NonManifold(NonManifoldError { p, q }));
            },
            Ok(()) => {},
        }
        let mut vertices: Vec<Vertex<P>> = Vec::new();
        let mut v: usize = 0;
        while v < nv
            invariant
                nv == io.spec_vertices().len(),
                v <= nv,
                vertices@.len() == v,
                forall|w: int| #![trigger vertices@[w]]
                    0 <= w < v ==> vertices@[w].point == io.spec_vertices()[w].spec_origin(),
            decreases nv - v,
        {
            let point = io.vertex(v).origin();
            vertices.push(Vertex { point, half_edge: None });
            v += 1;
        }
        let np = io.number_of_patches();
        let mut patches: Vec<Patch> = Vec::new();
        let mut i: usize = 0;
        while i < np
            invariant
                np == io.spec_patches().len(),
                i <= np,
                patches@.len() == i,
                forall|j: int| #![trigger patches@[j]]
                    0 <= j < i ==> patches@[j].name@ == io.spec_patches()[j]@,
            decreases np - i,
        {
            let name = io.patch(i).name().to_owned();
            patches.push(Patch { name });
            i += 1;
        }
        let mut m = HeMesh::from_parts(vertices, hes, faces, patches);
        proof {
            lemma_links_bounded(*io, pre, faces@);
        }
        m.relink();
        proof {
            lemma_built_mesh(*io, pre, m@);
        }
        Ok(m)
    }
}

} // verus!
