//! Making the faces of each connected component wind alike.

use vstd::prelude::*;

use crate::components::nested_view;
use crate::half_edge::{HalfEdge, HeMesh, MeshModel, VertexHandle};
use crate::queries::{lemma_loop_links, lemma_twin_links};

verus! {

impl<P> MeshModel<P> {
    /// Half-edge `h` as it is once its face's loop is reversed: it leaves
    /// the vertex it used to point to, and `next` and `prev` swap.
    pub open spec fn reversed(&self, h: int) -> HalfEdge {
        HalfEdge {
            origin: VertexHandle(self.dst(h) as usize),
            face: self.half_edges[h].face,
            prev: self.half_edges[h].next,
            next: self.half_edges[h].prev,
            twin: self.half_edges[h].twin,
        }
    }

    /// `o` is this mesh with the loops of the faces marked in `flip`
    /// reversed; vertex positions, faces, patches and twins are unchanged.
    pub open spec fn flipped_by(&self, flip: Seq<bool>, o: MeshModel<P>) -> bool {
        &&& flip.len() == self.nf()
        &&& o.nv() == self.nv()
        &&& forall|v: int| 0 <= v < self.nv() ==> #[trigger] o.vertices[v].point == self.vertices[v].point
        &&& o.faces == self.faces
        &&& o.patches == self.patches
        &&& o.nh() == self.nh()
        &&& forall|h: int| #![trigger o.half_edges[h]]
            0 <= h < self.nh() ==> o.half_edges[h] == if flip[self.fc(h)] {
                self.reversed(h)
            } else {
                self.half_edges[h]
            }
    }

    /// Two half-edges that run the same way.
    pub open spec fn parallel(&self, h: int, g: int) -> bool {
        self.org(h) == self.org(g) && self.dst(h) == self.dst(g)
    }

    /// Reversing the faces marked in `flip` would make every pair of twins
    /// run in opposite directions.
    pub open spec fn consistent_under(&self, flip: Seq<bool>) -> bool {
        forall|h: int|
            0 <= h < self.nh() && (#[trigger] self.tw(h)).is_some() ==> {
                let t = self.tw(h).unwrap().0 as int;
                if flip[self.fc(h)] == flip[self.fc(t)] {
                    self.opposed(h, t)
                } else {
                    self.parallel(h, t)
                }
            }
    }

    /// Some choice of faces to reverse makes the mesh consistent.
    pub open spec fn orientable(&self) -> bool {
        exists|flip: Seq<bool>| flip.len() == self.nf() && #[trigger] self.consistent_under(flip)
    }

    /// No half-edge starts and ends at one vertex.
    pub open spec fn no_degenerate_edges(&self) -> bool {
        forall|h: int| 0 <= h < self.nh() ==> #[trigger] self.org(h) != self.dst(h)
    }
}

/// The ends of a half-edge after its face was reversed are swapped.
proof fn lemma_flipped_ends<P>(m: MeshModel<P>, o: MeshModel<P>, flip: Seq<bool>, h: int)
    requires
        m.shape_wf(),
        m.flipped_by(flip, o),
        0 <= h < m.nh(),
    ensures
        o.fc(h) == m.fc(h),
        o.tw(h) == m.tw(h),
        o.org(h) == if flip[m.fc(h)] { m.dst(h) } else { m.org(h) },
        o.dst(h) == if flip[m.fc(h)] { m.org(h) } else { m.dst(h) },
        o.nxt(h) == if flip[m.fc(h)] { m.prv(h) } else { m.nxt(h) },
        o.prv(h) == if flip[m.fc(h)] { m.nxt(h) } else { m.prv(h) },
{
    lemma_loop_links(m, h);
    assert(o.half_edges[h] == o.half_edges[h]);
    let n = m.nxt(h);
    let p = m.prv(h);
    lemma_loop_links(m, p);
    assert(o.half_edges[n] == o.half_edges[n]);
    assert(o.half_edges[p] == o.half_edges[p]);
    reveal(MeshModel::loops_wf);
    assert(m.half_edges[p] == m.half_edges[p]);
}

/// Reversing faces keeps a mesh well-formed but for its vertex links.
proof fn lemma_flipped_shape<P>(m: MeshModel<P>, o: MeshModel<P>, flip: Seq<bool>)
    requires
        m.shape_wf(),
        m.flipped_by(flip, o),
    ensures
        o.shape_wf(),
{
    assert(o.faces_wf()) by {
        reveal(MeshModel::faces_wf);
        assert forall|f: int| 0 <= f < o.nf() implies o.fstart(f) + 3 <= #[trigger] o.fend(f) <= o.nh() by {
            assert(m.fstart(f) + 3 <= m.fend(f) <= m.nh());
        }
    }
    assert(o.loops_wf()) by {
        assert forall|h: int| #![trigger o.half_edges[h]] 0 <= h < o.nh() implies {
            &&& 0 <= o.fc(h) < o.nf()
            &&& o.fstart(o.fc(h)) <= h < o.fend(o.fc(h))
            &&& o.org(h) < o.nv()
            &&& if o.forward(o.fc(h)) {
                o.nxt(h) == o.succ(h) && o.prv(h) == o.pred(h)
            } else {
                o.nxt(h) == o.pred(h) && o.prv(h) == o.succ(h)
            }
        } by {
            lemma_flipped_ends(m, o, flip, h);
            let f = m.fc(h);
            reveal(MeshModel::faces_wf);
            reveal(MeshModel::loops_wf);
            assert(m.half_edges[h] == m.half_edges[h]);
            assert(m.fstart(f) + 3 <= m.fend(f) <= m.nh());
            let s0 = m.fstart(f);
            assert(m.half_edges[s0] == m.half_edges[s0]);
            lemma_flipped_ends(m, o, flip, s0);
            lemma_loop_links(m, h);
            let n = m.nxt(h);
            assert(m.half_edges[n] == m.half_edges[n]);
        }
        assert forall|f: int, h: int| #![trigger o.fstart(f), o.half_edges[h]]
            0 <= f < o.nf() && o.fstart(f) <= h < o.fend(f) implies o.fc(h) == f by {
            reveal(MeshModel::loops_wf);
            reveal(MeshModel::faces_wf);
            assert(m.fstart(f) + 3 <= m.fend(f) <= m.nh());
            assert(m.half_edges[h] == m.half_edges[h]);
            lemma_flipped_ends(m, o, flip, h);
        }
        reveal(MeshModel::loops_wf);
    }
    assert(o.twins_wf()) by {
        reveal(MeshModel::twins_wf);
        assert forall|h: int| #![trigger o.tw(h)] 0 <= h < o.nh() && o.tw(h).is_some() implies {
            let t = o.tw(h).unwrap().0 as int;
            &&& 0 <= t < o.nh()
            &&& t != h
            &&& o.same_edge(h, t)
        } by {
            lemma_flipped_ends(m, o, flip, h);
            lemma_twin_links(m, h);
            let t = m.tw(h).unwrap().0 as int;
            lemma_flipped_ends(m, o, flip, t);
        }
        assert forall|h: int, g: int|
            0 <= h < o.nh() && 0 <= g < o.nh() && h != g && #[trigger] o.same_edge(h, g)
                implies o.tw(h) == Some(crate::half_edge::HalfEdgeHandle(g as usize)) by {
            lemma_flipped_ends(m, o, flip, h);
            lemma_flipped_ends(m, o, flip, g);
            assert(m.same_edge(h, g));
        }
    }
}

proof fn lemma_orient_step<P>(
    m: MeshModel<P>,
    groups: Seq<Seq<usize>>,
    across: Seq<usize>,
    d: Seq<bool>,
    s: Seq<bool>,
    good: bool,
    c: int,
    i: int,
    cur: MeshModel<P>,
)
    requires
        m.wf(),
        m.are_components(groups),
        m.reached_by(groups, across),
        across.len() == m.nf(),
        m.flipped_by(d, cur),
        0 <= c < groups.len(),
        0 < i < groups[c].len(),
    ensures
        across[groups[c][i] as int] < cur.nh(),
        cur.tw(across[groups[c][i] as int] as int).is_some(),
        cur.tw(across[groups[c][i] as int] as int).unwrap().0 < cur.nh(),
{
    let g = groups[c][i] as int;
    assert(m.reached_from(groups[c], i, across));
    let j = choose|j: int|
        0 <= j < i && m.fstart(groups[c][j] as int) <= across[groups[c][i] as int] < m.fend(
            #[trigger] groups[c][j] as int,
        ) && m.crosses(across[groups[c][i] as int] as int, groups[c][i] as int);
    let f = groups[c][j] as int;
    reveal(MeshModel::faces_wf);
    assert(f < m.nf());
    assert(m.fend(f) <= m.nh());
    let h = across[g] as int;
    lemma_twin_links(m, h);
    lemma_flipped_ends(m, cur, d, h);
}

/// The test made at face `i` of group `c`: reversing it exactly when the
/// twins it was reached across run the same way makes its reversal agree
/// with the one that `s` gives relative to the group's first face.
/// Deciding face `i` of group `c` changes the reversal of no other face.
proof fn lemma_orient_frame<P>(
    m: MeshModel<P>,
    groups: Seq<Seq<usize>>,
    d0: Seq<bool>,
    d: Seq<bool>,
    c: int,
    i: int,
)
    requires
        m.are_components(groups),
        0 <= c < groups.len(),
        0 < i < groups[c].len(),
        d.len() == d0.len(),
        d.len() == m.nf(),
        forall|x: int| 0 <= x < d.len() && x != groups[c][i] as int ==> d[x] == d0[x],
    ensures
        forall|c2: int, i2: int|
            0 <= c2 < groups.len() && 0 <= i2 < groups[c2].len() && (c2, i2) != (c, i)
                ==> #[trigger] d[groups[c2][i2] as int] == d0[groups[c2][i2] as int],
{
    assert forall|c2: int, i2: int|
        0 <= c2 < groups.len() && 0 <= i2 < groups[c2].len() && (c2, i2) != (c, i)
            implies #[trigger] d[groups[c2][i2] as int] == d0[groups[c2][i2] as int] by {
        assert(groups[c2][i2] != groups[c][i]);
        assert(groups[c2][i2] < m.nf());
    }
}

proof fn lemma_orient_decide<P>(
    m: MeshModel<P>,
    groups: Seq<Seq<usize>>,
    across: Seq<usize>,
    d: Seq<bool>,
    s: Seq<bool>,
    c: int,
    i: int,
    cur: MeshModel<P>,
)
    requires
        m.wf(),
        m.are_components(groups),
        m.reached_by(groups, across),
        across.len() == m.nf(),
        m.flipped_by(d, cur),
        0 <= c < groups.len(),
        0 < i < groups[c].len(),
        s.len() == m.nf(),
        m.consistent_under(s),
        m.no_degenerate_edges(),
        !d[groups[c][i] as int],
        forall|i2: int|
            0 <= i2 < i ==> #[trigger] d[groups[c][i2] as int] == (s[groups[c][i2] as int]
                != s[groups[c][0] as int]),
    ensures
        (cur.org(across[groups[c][i] as int] as int) == cur.org(
            cur.tw(across[groups[c][i] as int] as int).unwrap().0 as int,
        )) == (s[groups[c][i] as int] != s[groups[c][0] as int]),
{
    let g = groups[c][i] as int;
    assert(m.reached_from(groups[c], i, across));
    let j = choose|j: int|
        0 <= j < i && m.fstart(groups[c][j] as int) <= across[groups[c][i] as int] < m.fend(
            #[trigger] groups[c][j] as int,
        ) && m.crosses(across[groups[c][i] as int] as int, groups[c][i] as int);
    let f = groups[c][j] as int;
    reveal(MeshModel::faces_wf);
    assert(f < m.nf());
    assert(m.fend(f) <= m.nh());
    let h = across[g] as int;
    lemma_twin_links(m, h);
    let t = m.tw(h).unwrap().0 as int;
    reveal(MeshModel::loops_wf);
    assert(m.half_edges[h] == m.half_edges[h]);
    assert(m.fc(h) == f);
    assert(m.fc(t) == g);
    lemma_flipped_ends(m, cur, d, h);
    lemma_flipped_ends(m, cur, d, t);
    assert(d[f] == (s[f] != s[groups[c][0] as int]));
    assert(m.org(h) != m.dst(h));
    assert(m.org(t) != m.dst(t));
    assert(m.tw(h).is_some());
}

/// Once every face agrees with `s` relative to its group's first face, all
/// twins run in opposite directions.
proof fn lemma_orient_done<P>(
    m: MeshModel<P>,
    groups: Seq<Seq<usize>>,
    d: Seq<bool>,
    s: Seq<bool>,
    o: MeshModel<P>,
)
    requires
        m.wf(),
        m.are_components(groups),
        m.flipped_by(d, o),
        s.len() == m.nf(),
        m.consistent_under(s),
        forall|c2: int, i2: int|
            0 <= c2 < groups.len() && 0 <= i2 < groups[c2].len() ==> #[trigger] d[groups[c2][i2] as int]
                == (s[groups[c2][i2] as int] != s[groups[c2][0] as int]),
    ensures
        o.consistent(),
{
    assert forall|h: int| 0 <= h < o.nh() && (#[trigger] o.tw(h)).is_some() implies o.opposed(
        h,
        o.tw(h).unwrap().0 as int,
    ) by {
        lemma_flipped_ends(m, o, d, h);
        lemma_twin_links(m, h);
        let t = m.tw(h).unwrap().0 as int;
        lemma_flipped_ends(m, o, d, t);
        let f = m.fc(h);
        let g = m.fc(t);
        reveal(MeshModel::loops_wf);
        assert(m.half_edges[h] == m.half_edges[h]);
        assert(m.half_edges[t] == m.half_edges[t]);
        assert(crate::components::covered(groups, f));
        let c = choose|c: int| 0 <= c < groups.len() && #[trigger] groups[c].contains(f as usize);
        let i1 = choose|i1: int| 0 <= i1 < groups[c].len() && groups[c][i1] == f as usize;
        assert(m.crosses(h, g));
        assert(m.adjacent(groups[c][i1] as int, g));
        assert(groups[c].contains(g as usize));
        let i2 = choose|i2: int| 0 <= i2 < groups[c].len() && groups[c][i2] == g as usize;
        assert(d[groups[c][i1] as int] == (s[groups[c][i1] as int] != s[groups[c][0] as int]));
        assert(d[groups[c][i2] as int] == (s[groups[c][i2] as int] != s[groups[c][0] as int]));
    }
}

impl<P: Copy> HeMesh<P> {
    /// Make the faces of each connected component wind alike: each
    /// component is walked breadth-first from its lowest face, which keeps
    /// its winding, and every face reached across a pair of twins that runs
    /// the same way as on the face it was reached from is reversed.
    /// Components are not coordinated with each other.
    ///
    /// The faces, their patches, the vertices and the twins stay as they
    /// are; only the direction of some face loops changes. Where some choice
    /// of faces to reverse makes the mesh consistent and no edge is
    /// degenerate, the result is consistent.
    pub fn orient(&mut self)
        requires
            old(self)@.wf(),
        ensures
            final(self)@.wf(),
            exists|flip: Seq<bool>| #[trigger] old(self)@.flipped_by(flip, final(self)@),
            old(self)@.orientable() && old(self)@.no_degenerate_edges() ==> final(self)@.consistent(),
    {
        let ghost m = self@;
        let (comps, across) = self.traverse();
        let ghost groups = nested_view(comps@);
        let ghost good = m.orientable() && m.no_degenerate_edges();
        let ghost s = choose|flip: Seq<bool>| flip.len() == m.nf() && #[trigger] m.consistent_under(flip);
        let ghost mut d: Seq<bool> = Seq::new(m.nf() as nat, |i: int| false);
        proof {
            assert forall|h: int| #![trigger self@.half_edges[h]] 0 <= h < m.nh() implies self@.half_edges[h]
                == if d[m.fc(h)] { m.reversed(h) } else { m.half_edges[h] } by {
                reveal(MeshModel::loops_wf);
                assert(m.half_edges[h] == m.half_edges[h]);
            }
        }
        let mut c: usize = 0;
        while c < comps.len()
            invariant
                m.wf(),
                groups == nested_view(comps@),
                m.are_components(groups),
                m.reached_by(groups, across@),
                across@.len() == m.nf(),
                m.flipped_by(d, self@),
                good == (m.orientable() && m.no_degenerate_edges()),
                good ==> s.len() == m.nf() && m.consistent_under(s),
                c <= groups.len(),
                forall|c2: int, i2: int|
                    0 <= c2 < c && 0 <= i2 < groups[c2].len() && good ==> #[trigger] d[groups[c2][i2] as int]
                        == (s[groups[c2][i2] as int] != s[groups[c2][0] as int]),
                forall|c2: int, i2: int|
                    c <= c2 < groups.len() && 0 <= i2 < groups[c2].len() ==> !#[trigger] d[groups[c2][i2] as int],
            decreases groups.len() - c,
        {
            let group = &comps[c];
            let mut i: usize = 0;
            while i < group.len()
                invariant
                    m.wf(),
                    groups == nested_view(comps@),
                    group@ == groups[c as int],
                    c < groups.len(),
                    m.are_components(groups),
                    m.reached_by(groups, across@),
                    across@.len() == m.nf(),
                    m.flipped_by(d, self@),
                    good == (m.orientable() && m.no_degenerate_edges()),
                    good ==> s.len() == m.nf() && m.consistent_under(s),
                    i <= group@.len(),
                    forall|c2: int, i2: int|
                        0 <= c2 < c && 0 <= i2 < groups[c2].len() && good ==> #[trigger] d[groups[c2][i2] as int]
                            == (s[groups[c2][i2] as int] != s[groups[c2][0] as int]),
                    forall|i2: int|
                        0 <= i2 < i && good ==> #[trigger] d[group@[i2] as int] == (s[group@[i2] as int] != s[group@[0] as int]),
                    forall|i2: int| i <= i2 < group@.len() ==> !#[trigger] d[group@[i2] as int],
                    forall|c2: int, i2: int|
                        c < c2 < groups.len() && 0 <= i2 < groups[c2].len() ==> !#[trigger] d[groups[c2][i2] as int],
                decreases group@.len() - i,
            {
                if i > 0 {
                    let g = group[i];
                    let h = across[g];
                    proof {
                        lemma_orient_step(m, groups, across@, d, s, good, c as int, i as int, self@);
                        assert(!d[group@[i as int] as int]);
                        if good {
                            lemma_orient_decide(m, groups, across@, d, s, c as int, i as int, self@);
                        }
                    }
                    let ghost d0 = d;
                    let t = self.half_edge(h).twin.unwrap().0;
                    if self.half_edge(h).origin.0 == self.half_edge(t).origin.0 {
                        self.flip_face(g, Ghost(m), Ghost(d));
                        proof {
                            d = d.update(g as int, true);
                        }
                    }
                    proof {
                        lemma_orient_frame(m, groups, d0, d, c as int, i as int);
                    }
                } else {
                    assert(s[group@[0] as int] == s[group@[0] as int]);
                }
                i += 1;
            }
            c += 1;
        }
        proof {
            lemma_flipped_shape(m, self@, d);
        }
        let ghost pre = self@;
        proof {
            reveal(MeshModel::loops_wf);
            assert forall|h: int| 0 <= h < pre.nh() implies #[trigger] pre.org(h) < pre.nv() by {
                assert(pre.half_edges[h] == pre.half_edges[h]);
            }
        }
        self.relink();
        proof {
            assert(m.flipped_by(d, self@));
            reveal(MeshModel::links_wf);
            if good {
                lemma_orient_done(m, groups, d, s, self@);
            }
        }
    }

    /// Reverse the loop of face `g`, which is not reversed yet with respect
    /// to `m`.
    fn flip_face(&mut self, g: usize, Ghost(m): Ghost<MeshModel<P>>, Ghost(flip): Ghost<Seq<bool>>)
        requires
            m.shape_wf(),
            m.flipped_by(flip, old(self)@),
            g < m.nf(),
            !flip[g as int],
        ensures
            m.flipped_by(flip.update(g as int, true), final(self)@),
            final(self)@.vertices == old(self)@.vertices,
    {
        let ghost cur = self@;
        proof {
            reveal(MeshModel::faces_wf);
            assert(m.fstart(g as int) + 3 <= m.fend(g as int) <= m.nh());
        }
        let nf = self.n_faces();
        let start = self.face(g).half_edge.0;
        let end = if g + 1 < nf {
            self.face(g + 1).half_edge.0
        } else {
            self.n_half_edges()
        };
        let mut ends: Vec<usize> = Vec::new();
        let mut h = start;
        while h < end
            invariant
                m.shape_wf(),
                m.flipped_by(flip, cur),
                cur == self@,
                g < m.nf(),
                !flip[g as int],
                start == m.fstart(g as int),
                end == m.fend(g as int),
                end <= m.nh(),
                start <= h <= end,
                ends@.len() == h - start,
                forall|j: int| 0 <= j < ends@.len() ==> #[trigger] ends@[j] == m.dst(start + j),
            decreases end - h,
        {
            proof {
                reveal(MeshModel::loops_wf);
                assert(m.half_edges[h as int] == m.half_edges[h as int]);
                lemma_flipped_ends(m, cur, flip, h as int);
                lemma_loop_links(m, h as int);
                lemma_flipped_ends(m, cur, flip, m.nxt(h as int));
            }
            let n = self.half_edge(h).next.0;
            let d = self.half_edge(n).origin.0;
            ends.push(d);
            h += 1;
        }
        let mut h = start;
        while h < end
            invariant
                m.shape_wf(),
                m.flipped_by(flip, cur),
                g < m.nf(),
                !flip[g as int],
                start == m.fstart(g as int),
                end == m.fend(g as int),
                end <= m.nh(),
                start <= h <= end,
                ends@.len() == end - start,
                forall|j: int| 0 <= j < ends@.len() ==> #[trigger] ends@[j] == m.dst(start + j),
                self@.vertices == cur.vertices,
                self@.faces == cur.faces,
                self@.patches == cur.patches,
                self@.nh() == cur.nh(),
                forall|e: int| #![trigger self@.half_edges[e]]
                    0 <= e < cur.nh() ==> self@.half_edges[e] == if start <= e < h {
                        m.reversed(e)
                    } else {
                        cur.half_edges[e]
                    },
            decreases end - h,
        {
            proof {
                reveal(MeshModel::loops_wf);
                assert(m.half_edges[h as int] == m.half_edges[h as int]);
                assert(cur.half_edges[h as int] == cur.half_edges[h as int]);
                assert(ends@[h - start] == m.dst(start + (h - start)));
            }
            let e = self.half_edge(h);
            let r = HalfEdge {
                origin: VertexHandle(ends[h - start]),
                face: e.face,
                prev: e.next,
                next: e.prev,
                twin: e.twin,
            };
            self.set_half_edge(h, r);
            h += 1;
        }
        proof {
            let nflip = flip.update(g as int, true);
            assert forall|e: int| #![trigger self@.half_edges[e]] 0 <= e < m.nh() implies self@.half_edges[e]
                == if nflip[m.fc(e)] { m.reversed(e) } else { m.half_edges[e] } by {
                reveal(MeshModel::loops_wf);
                assert(m.half_edges[e] == m.half_edges[e]);
                assert(cur.half_edges[e] == cur.half_edges[e]);
            }
        }
    }
}

} // verus!
