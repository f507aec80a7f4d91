//! Connected components of the face adjacency graph.

use vstd::prelude::*;

use crate::half_edge::{HeMesh, MeshModel};
use crate::queries::{lemma_loop_links, lemma_twin_links};

verus! {

impl<P> MeshModel<P> {
    /// Half-edge `h` has a twin, and that twin belongs to face `g`.
    pub open spec fn crosses(&self, h: int, g: int) -> bool {
        self.tw(h).is_some() && self.fc(self.tw(h).unwrap().0 as int) == g
    }

    /// Faces `f` and `g` share a pair of twins.
    pub open spec fn adjacent(&self, f: int, g: int) -> bool {
        exists|h: int| self.fstart(f) <= h < self.fend(f) && #[trigger] self.crosses(h, g)
    }

    /// Every face lies in exactly one of `comps`, once.
    pub open spec fn partitions(&self, comps: Seq<Seq<usize>>) -> bool {
        &&& self.disjoint_groups(comps)
        &&& forall|f: int| 0 <= f < self.nf() ==> #[trigger] covered(comps, f)
    }

    /// `comps` are non-empty lists of faces, and no face appears twice.
    pub open spec fn disjoint_groups(&self, comps: Seq<Seq<usize>>) -> bool {
        &&& forall|c: int| 0 <= c < comps.len() ==> #[trigger] comps[c].len() > 0
        &&& forall|c: int, i: int|
            0 <= c < comps.len() && 0 <= i < comps[c].len() ==> #[trigger] comps[c][i] < self.nf()
        &&& forall|c1: int, i1: int, c2: int, i2: int|
            0 <= c1 < comps.len() && 0 <= i1 < comps[c1].len() && 0 <= c2 < comps.len() && 0 <= i2
                < comps[c2].len() && (c1, i1) != (c2, i2) ==> #[trigger] comps[c1][i1]
                != #[trigger] comps[c2][i2]
    }

    /// Every face after the first of each of `comps` was reached across the
    /// half-edge `across[g]` of an earlier face of the same group.
    pub open spec fn reached_by(&self, comps: Seq<Seq<usize>>, across: Seq<usize>) -> bool {
        forall|c: int, i: int|
            0 <= c < comps.len() && 0 < i < comps[c].len() ==> #[trigger] self.reached_from(
                comps[c],
                i,
                across,
            )
    }

    pub open spec fn reached_from(&self, group: Seq<usize>, i: int, across: Seq<usize>) -> bool {
        exists|j: int|
            0 <= j < i && self.fstart(group[j] as int) <= across[group[i] as int] < self.fend(
                #[trigger] group[j] as int,
            ) && self.crosses(across[group[i] as int] as int, group[i] as int)
    }

    pub open spec fn seeds_first(&self, comps: Seq<Seq<usize>>) -> bool {
        &&& forall|c1: int, c2: int|
            0 <= c1 < c2 < comps.len() ==> #[trigger] comps[c1][0] < #[trigger] comps[c2][0]
        &&& forall|c: int, i: int|
            0 <= c < comps.len() && 0 <= i < comps[c].len() ==> comps[c][0] <= #[trigger] comps[c][i]
    }

    /// Each of `comps` holds every face adjacent to one of its faces.
    pub open spec fn closed_under_adjacency(&self, comps: Seq<Seq<usize>>) -> bool {
        forall|c: int, i: int, g: int|
            0 <= c < comps.len() && 0 <= i < comps[c].len() && #[trigger] self.adjacent(
                comps[c][i] as int,
                g,
            ) ==> comps[c].contains(g as usize)
    }

    /// In each of `comps`, every face after the first is adjacent to an
    /// earlier one.
    pub open spec fn connected_in_order(&self, comps: Seq<Seq<usize>>) -> bool {
        forall|c: int, i: int|
            0 <= c < comps.len() && 0 < i < comps[c].len() ==> #[trigger] self.linked_earlier(
                comps[c],
                i,
            )
    }

    /// Face `i` of `group` is adjacent to an earlier face of it.
    pub open spec fn linked_earlier(&self, group: Seq<usize>, i: int) -> bool {
        exists|j: int| 0 <= j < i && #[trigger] self.adjacent(group[j] as int, group[i] as int)
    }

    /// The connected components of the face adjacency graph, each starting at
    /// its lowest face, ordered by that face.
    pub open spec fn are_components(&self, comps: Seq<Seq<usize>>) -> bool {
        &&& self.partitions(comps)
        &&& self.closed_under_adjacency(comps)
        &&& self.connected_in_order(comps)
        &&& self.seeds_first(comps)
    }
}

/// Face `f` appears in one of `comps`.
pub open spec fn covered(comps: Seq<Seq<usize>>, f: int) -> bool {
    exists|c: int| 0 <= c < comps.len() && #[trigger] comps[c].contains(f as usize)
}

pub open spec fn nested_view(v: Seq<Vec<usize>>) -> Seq<Seq<usize>> {
    v.map_values(|x: Vec<usize>| x@)
}

proof fn lemma_distinct_bounded(s: Seq<usize>, n: int)
    requires
        0 <= n,
        forall|i: int| 0 <= i < s.len() ==> #[trigger] s[i] < n,
        forall|i: int, j: int| 0 <= i < s.len() && 0 <= j < s.len() && i != j ==> s[i] != s[j],
    ensures
        s.len() <= n,
{
    let t = s.map_values(|x: usize| x as int);
    assert(t.no_duplicates()) by {
        assert forall|i: int, j: int| 0 <= i < t.len() && 0 <= j < t.len() && i != j implies t[i]
            != t[j] by {
            assert(s[i] != s[j]);
        }
    }
    t.unique_seq_to_set();
    vstd::set_lib::lemma_int_range(0, n);
    assert(t.to_set().subset_of(vstd::set_lib::set_int_range(0, n))) by {
        assert forall|x: int| t.to_set().contains(x) implies vstd::set_lib::set_int_range(
            0,
            n,
        ).contains(x) by {
            let i = choose|i: int| 0 <= i < t.len() && t[i] == x;
            assert(s[i] < n);
        }
    }
    vstd::set_lib::lemma_len_subset(t.to_set(), vstd::set_lib::set_int_range(0, n));
}

/// Adjacency runs both ways.
pub proof fn lemma_adjacent_symmetric<P>(m: MeshModel<P>, f: int, g: int)
    requires
        m.wf(),
        0 <= f < m.nf(),
        m.adjacent(f, g),
    ensures
        0 <= g < m.nf(),
        m.adjacent(g, f),
{
    reveal(MeshModel::loops_wf);
    reveal(MeshModel::faces_wf);
    let h = choose|h: int| m.fstart(f) <= h < m.fend(f) && #[trigger] m.crosses(h, g);
    assert(m.fend(f) <= m.nh());
    assert(m.fc(h) == f) by {
        assert(m.half_edges[h] == m.half_edges[h]);
    }
    lemma_twin_links(m, h);
    let t = m.tw(h).unwrap().0 as int;
    assert(m.half_edges[t] == m.half_edges[t]);
    assert(m.crosses(t, f));
}

impl<P: Copy> HeMesh<P> {
    /// The half-edge range of face `f`.
    pub(crate) fn face_range(&self, f: usize) -> (r: (usize, usize))
        requires
            self@.shape_wf(),
            f < self@.nf(),
        ensures
            r.0 == self@.fstart(f as int),
            r.1 == self@.fend(f as int),
            r.0 + 3 <= r.1 <= self@.nh(),
    {
        proof {
            reveal(MeshModel::faces_wf);
        }
        let nf = self.n_faces();
        let start = self.face(f).half_edge.0;
        let end = if f + 1 < nf {
            self.face(f + 1).half_edge.0
        } else {
            self.n_half_edges()
        };
        assert(self@.fstart(f as int) + 3 <= self@.fend(f as int) <= self@.nh());
        (start, end)
    }

    /// Breadth-first search from `seed` over faces not yet visited: marks
    /// and returns the faces reached, in discovery order, and records for
    /// each of them but the seed the half-edge it was reached across.
    #[verifier::rlimit(100)]
    fn explore(
        &self,
        seed: usize,
        visited: &mut Vec<bool>,
        across: &mut Vec<usize>,
        Ghost(groups): Ghost<Seq<Seq<usize>>>,
    ) -> (r: Vec<usize>)
        requires
            self@.wf(),
            seed < self@.nf(),
            old(visited)@.len() == self@.nf(),
            old(across)@.len() == self@.nf(),
            !old(visited)@[seed as int],
            self@.disjoint_groups(groups),
            self@.closed_under_adjacency(groups),
            forall|c: int, i: int|
                0 <= c < groups.len() && 0 <= i < groups[c].len() ==> old(visited)@[#[trigger] groups[c][i] as int],
            forall|g: int| 0 <= g < self@.nf() && old(visited)@[g] ==> #[trigger] covered(groups, g),
        ensures
            final(visited)@.len() == self@.nf(),
            final(across)@.len() == self@.nf(),
            r@.len() >= 1,
            r@[0] == seed,
            forall|i: int| #![trigger r@[i]]
                0 <= i < r@.len() ==> r@[i] < self@.nf() && !old(visited)@[r@[i] as int]
                    && final(visited)@[r@[i] as int],
            forall|i: int, j: int| 0 <= i < r@.len() && 0 <= j < r@.len() && i != j ==> r@[i] != r@[j],
            forall|g: int|
                0 <= g < self@.nf() ==> (#[trigger] final(visited)@[g] <==> (old(visited)@[g] || r@.contains(g as usize))),
            forall|g: int| 0 <= g < self@.nf() && old(visited)@[g] ==> #[trigger] final(across)@[g] == old(across)@[g],
            forall|i: int| 0 < i < r@.len() ==> #[trigger] self@.reached_from(r@, i, final(across)@),
            forall|i: int, g: int|
                0 <= i < r@.len() && #[trigger] self@.adjacent(r@[i] as int, g) ==> r@.contains(g as usize),
    {
        let ghost m = self@;
        let ghost v0 = visited@;
        let ghost w0 = across@;
        let nf = self.n_faces();
        visited.set(seed, true);
        let mut cur: Vec<usize> = Vec::new();
        cur.push(seed);
        assert(cur@[0] == seed);
        assert forall|g: int| 0 <= g < nf implies (#[trigger] visited@[g] <==> (v0[g] || cur@.contains(g as usize))) by {
            if cur@.contains(g as usize) {
                let i = choose|i: int| 0 <= i < cur@.len() && cur@[i] == g as usize;
                assert(i == 0);
            }
        }
        let mut head: usize = 0;
        while head < cur.len()
            invariant
                m == self@,
                m.wf(),
                nf == m.nf(),
                visited@.len() == nf,
                across@.len() == nf,
                v0.len() == nf,
                w0.len() == nf,
                !v0[seed as int],
                seed < nf,
                m.disjoint_groups(groups),
                m.closed_under_adjacency(groups),
                forall|c: int, i: int|
                    0 <= c < groups.len() && 0 <= i < groups[c].len() ==> v0[#[trigger] groups[c][i] as int],
                forall|g: int| 0 <= g < nf && v0[g] ==> #[trigger] covered(groups, g),
                cur@.len() >= 1,
                cur@[0] == seed,
                head <= cur@.len(),
                forall|i: int| #![trigger cur@[i]]
                    0 <= i < cur@.len() ==> cur@[i] < nf && !v0[cur@[i] as int] && visited@[cur@[i] as int],
                forall|i: int, j: int| 0 <= i < cur@.len() && 0 <= j < cur@.len() && i != j ==> cur@[i] != cur@[j],
                forall|g: int| 0 <= g < nf ==> (#[trigger] visited@[g] <==> (v0[g] || cur@.contains(g as usize))),
                forall|g: int| 0 <= g < nf && v0[g] ==> #[trigger] across@[g] == w0[g],
                forall|i: int| 0 < i < cur@.len() ==> #[trigger] m.reached_from(cur@, i, across@),
                forall|i: int, g: int|
                    0 <= i < head && #[trigger] m.adjacent(cur@[i] as int, g) ==> cur@.contains(g as usize),
            decreases nf - head,
        {
            proof {
                lemma_distinct_bounded(cur@, nf as int);
            }
            let x = cur[head];
            let (start, end) = self.face_range(x);
            let mut h = start;
            while h < end
                invariant
                    m == self@,
                    m.wf(),
                    nf == m.nf(),
                    visited@.len() == nf,
                    across@.len() == nf,
                    v0.len() == nf,
                    w0.len() == nf,
                    seed < nf,
                    !v0[seed as int],
                    m.disjoint_groups(groups),
                    m.closed_under_adjacency(groups),
                    forall|c: int, i: int|
                        0 <= c < groups.len() && 0 <= i < groups[c].len() ==> v0[#[trigger] groups[c][i] as int],
                    forall|g: int| 0 <= g < nf && v0[g] ==> #[trigger] covered(groups, g),
                    cur@.len() >= 1,
                    cur@[0] == seed,
                    head < cur@.len(),
                    x == cur@[head as int],
                    start == m.fstart(x as int),
                    end == m.fend(x as int),
                    start <= h <= end,
                    end <= m.nh(),
                    forall|i: int| #![trigger cur@[i]]
                        0 <= i < cur@.len() ==> cur@[i] < nf && !v0[cur@[i] as int] && visited@[cur@[i] as int],
                    forall|i: int, j: int| 0 <= i < cur@.len() && 0 <= j < cur@.len() && i != j ==> cur@[i] != cur@[j],
                    forall|g: int| 0 <= g < nf ==> (#[trigger] visited@[g] <==> (v0[g] || cur@.contains(g as usize))),
                    forall|g: int| 0 <= g < nf && v0[g] ==> #[trigger] across@[g] == w0[g],
                    forall|i: int| 0 < i < cur@.len() ==> #[trigger] m.reached_from(cur@, i, across@),
                    forall|i: int, g: int|
                        0 <= i < head && #[trigger] m.adjacent(cur@[i] as int, g) ==> cur@.contains(g as usize),
                    forall|e: int, g: int|
                        start <= e < h && #[trigger] m.crosses(e, g) ==> cur@.contains(g as usize),
                decreases end - h,
            {
                match self.half_edge(h).twin {
                    Some(t) => {
                        proof {
                            lemma_twin_links(m, h as int);
                            reveal(MeshModel::loops_wf);
                            assert(m.half_edges[t.0 as int] == m.half_edges[t.0 as int]);
                        }
                        let g = self.half_edge(t.0).face.0;
                        assert(m.crosses(h as int, g as int));
                        if !visited[g] {
                            proof {
                                lemma_distinct_bounded(cur@, nf as int);
                            }
                            let ghost cur0 = cur@;
                            let ghost across0 = across@;
                            visited.set(g, true);
                            across.set(g, h);
                            cur.push(g);
                            proof {
                                assert(cur@[cur@.len() - 1] == g);
                                assert(!cur0.contains(g));
                                assert forall|i: int| 0 < i < cur@.len() implies #[trigger] m.reached_from(cur@, i, across@) by {
                                    if i < cur0.len() {
                                        assert(m.reached_from(cur0, i, across0));
                                        let j = choose|j: int|
                                            0 <= j < i && m.fstart(cur0[j] as int) <= across0[cur0[i] as int] < m.fend(
                                                #[trigger] cur0[j] as int,
                                            ) && m.crosses(across0[cur0[i] as int] as int, cur0[i] as int);
                                        assert(cur0[i] != g);
                                        assert(cur@[j] == cur0[j]);
                                        assert(across@[cur@[i] as int] == across0[cur0[i] as int]);
                                    } else {
                                        assert(cur@[head as int] == x);
                                        assert(across@[g as int] == h);
                                    }
                                }
                                assert forall|g2: int| 0 <= g2 < nf implies (#[trigger] visited@[g2] <==> (v0[g2] || cur@.contains(g2 as usize))) by {
                                    if cur0.contains(g2 as usize) {
                                        let i = choose|i: int| 0 <= i < cur0.len() && cur0[i] == g2 as usize;
                                        assert(cur@[i] == g2);
                                    }
                                    if g2 != g {
                                        if cur@.contains(g2 as usize) {
                                            let i = choose|i: int| 0 <= i < cur@.len() && cur@[i] == g2 as usize;
                                            assert(cur0[i] == g2);
                                        }
                                    }
                                }
                                assert forall|i: int, g2: int|
                                    0 <= i < head && #[trigger] m.adjacent(cur@[i] as int, g2) implies cur@.contains(g2 as usize) by {
                                    assert(cur@[i] == cur0[i]);
                                    assert(cur0.contains(g2 as usize));
                                    let k = choose|k: int| 0 <= k < cur0.len() && cur0[k] == g2 as usize;
                                    assert(cur@[k] == g2);
                                }
                                assert forall|e: int, g2: int|
                                    start <= e < h + 1 && #[trigger] m.crosses(e, g2) implies cur@.contains(g2 as usize) by {
                                    if e < h {
                                        assert(cur0.contains(g2 as usize));
                                        let k = choose|k: int| 0 <= k < cur0.len() && cur0[k] == g2 as usize;
                                        assert(cur@[k] == g2);
                                    } else {
                                        assert(cur@[cur@.len() - 1] == g2);
                                    }
                                }
                            }
                        } else {
                            proof {
                                if !cur@.contains(g) {
                                    assert(v0[g as int]);
                                    assert(covered(groups, g as int));
                                    let c = choose|c: int| 0 <= c < groups.len() && #[trigger] groups[c].contains(g);
                                    let i = choose|i: int| 0 <= i < groups[c].len() && groups[c][i] == g;
                                    assert(m.adjacent(x as int, g as int));
                                    lemma_adjacent_symmetric(m, x as int, g as int);
                                    assert(m.adjacent(groups[c][i] as int, x as int));
                                    assert(groups[c].contains(x));
                                    let k = choose|k: int| 0 <= k < groups[c].len() && groups[c][k] == x;
                                    assert(v0[groups[c][k] as int]);
                                    assert(false);
                                }
                                assert forall|e: int, g2: int|
                                    start <= e < h + 1 && #[trigger] m.crosses(e, g2) implies cur@.contains(g2 as usize) by {
                                    if e == h {
                                        assert(g2 == g);
                                    }
                                }
                            }
                        }
                    },
                    None => {},
                }
                h += 1;
            }
            proof {
                assert forall|i: int, g: int|
                    0 <= i < head + 1 && #[trigger] m.adjacent(cur@[i] as int, g) implies cur@.contains(g as usize) by {
                    if i == head {
                        let e = choose|e: int| m.fstart(x as int) <= e < m.fend(x as int) && #[trigger] m.crosses(e, g);
                    }
                }
            }
            head += 1;
        }
        cur
    }

    /// The connected components, each in discovery order, and for every face
    /// reached from another the half-edge it was reached across.
    pub(crate) fn traverse(&self) -> (r: (Vec<Vec<usize>>, Vec<usize>))
        requires
            self@.wf(),
        ensures
            self@.are_components(nested_view(r.0@)),
            r.1@.len() == self@.nf(),
            self@.reached_by(nested_view(r.0@), r.1@),
    {
        let ghost m = self@;
        let nf = self.n_faces();
        let mut visited: Vec<bool> = Vec::new();
        let mut across: Vec<usize> = Vec::new();
        let mut f: usize = 0;
        while f < nf
            invariant
                f <= nf,
                visited@.len() == f,
                across@.len() == f,
                forall|g: int| 0 <= g < f ==> !(#[trigger] visited@[g]),
            decreases nf - f,
        {
            visited.push(false);
            across.push(0);
            f += 1;
        }
        let mut comps: Vec<Vec<usize>> = Vec::new();
        assert(nested_view(comps@) =~= Seq::<Seq<usize>>::empty());
        let mut f: usize = 0;
        while f < nf
            invariant
                m == self@,
                m.wf(),
                nf == m.nf(),
                f <= nf,
                visited@.len() == nf,
                across@.len() == nf,
                m.disjoint_groups(nested_view(comps@)),
                m.closed_under_adjacency(nested_view(comps@)),
                m.reached_by(nested_view(comps@), across@),
                m.seeds_first(nested_view(comps@)),
                forall|c: int| 0 <= c < comps@.len() ==> (#[trigger] nested_view(comps@)[c])[0] < f,
                forall|c: int, i: int|
                    0 <= c < comps@.len() && 0 <= i < nested_view(comps@)[c].len()
                        ==> visited@[#[trigger] nested_view(comps@)[c][i] as int],
                forall|g: int| 0 <= g < nf && visited@[g] ==> #[trigger] covered(nested_view(comps@), g),
                forall|g: int| 0 <= g < f ==> #[trigger] visited@[g],
            decreases nf - f,
        {
            if !visited[f] {
                let ghost groups = nested_view(comps@);
                let ghost v0 = visited@;
                let ghost a0 = across@;
                let cur = self.explore(f, &mut visited, &mut across, Ghost(groups));
                let ghost cv = cur@;
                comps.push(cur);
                proof {
                    assert(nested_view(comps@) =~= groups.push(cv));
                    lemma_add_group(m, groups, cv, nested_view(comps@), v0, visited@, a0, across@, f as int);
                }
            }
            f += 1;
        }
        proof {
            let groups = nested_view(comps@);
            assert forall|g: int| 0 <= g < nf implies #[trigger] covered(groups, g) by {
                assert(visited@[g]);
            }
            assert forall|c: int, i: int| 0 <= c < groups.len() && 0 < i < groups[c].len() implies
                #[trigger] m.linked_earlier(groups[c], i) by {
                assert(m.reached_from(groups[c], i, across@));
                let j = choose|j: int|
                    0 <= j < i && m.fstart(groups[c][j] as int) <= across@[groups[c][i] as int] < m.fend(
                        #[trigger] groups[c][j] as int,
                    ) && m.crosses(across@[groups[c][i] as int] as int, groups[c][i] as int);
                assert(m.adjacent(groups[c][j] as int, groups[c][i] as int));
            }
            assert(m.partitions(groups));
            assert(m.closed_under_adjacency(groups));
            assert(m.connected_in_order(groups));
            assert(m.seeds_first(groups));
        }
        (comps, across)
    }

    /// The connected components of the faces, where two faces are connected
    /// when they share a pair of twins. Each component lists its faces in
    /// breadth-first discovery order from its lowest face; components come
    /// in the order of their lowest faces.
    pub fn components(&self) -> (r: Vec<Vec<usize>>)
        requires
            self@.wf(),
        ensures
            self@.are_components(nested_view(r@)),
    {
        let (comps, _) = self.traverse();
        comps
    }
}

proof fn lemma_add_group<P>(
    m: MeshModel<P>,
    groups: Seq<Seq<usize>>,
    cur: Seq<usize>,
    after: Seq<Seq<usize>>,
    v0: Seq<bool>,
    v1: Seq<bool>,
    a0: Seq<usize>,
    a1: Seq<usize>,
    f: int,
)
    requires
        m.wf(),
        0 <= f < m.nf(),
        after == groups.push(cur),
        v0.len() == m.nf(),
        v1.len() == m.nf(),
        a0.len() == m.nf(),
        a1.len() == m.nf(),
        !v0[f],
        m.disjoint_groups(groups),
        m.closed_under_adjacency(groups),
        m.reached_by(groups, a0),
        m.seeds_first(groups),
        forall|c: int| 0 <= c < groups.len() ==> (#[trigger] groups[c])[0] < f,
        forall|c: int, i: int|
            0 <= c < groups.len() && 0 <= i < groups[c].len() ==> v0[#[trigger] groups[c][i] as int],
        forall|g: int| 0 <= g < m.nf() && v0[g] ==> #[trigger] covered(groups, g),
        forall|g: int| 0 <= g < f ==> #[trigger] v0[g],
        cur.len() >= 1,
        cur[0] == f,
        forall|i: int| #![trigger cur[i]]
            0 <= i < cur.len() ==> cur[i] < m.nf() && !v0[cur[i] as int] && v1[cur[i] as int],
        forall|i: int, j: int| 0 <= i < cur.len() && 0 <= j < cur.len() && i != j ==> cur[i] != cur[j],
        forall|g: int| 0 <= g < m.nf() ==> (#[trigger] v1[g] <==> (v0[g] || cur.contains(g as usize))),
        forall|g: int| 0 <= g < m.nf() && v0[g] ==> #[trigger] a1[g] == a0[g],
        forall|i: int| 0 < i < cur.len() ==> #[trigger] m.reached_from(cur, i, a1),
        forall|i: int, g: int|
            0 <= i < cur.len() && #[trigger] m.adjacent(cur[i] as int, g) ==> cur.contains(g as usize),
    ensures
        m.disjoint_groups(after),
        m.closed_under_adjacency(after),
        m.reached_by(after, a1),
        m.seeds_first(after),
        forall|c: int| 0 <= c < after.len() ==> (#[trigger] after[c])[0] < f + 1,
        forall|c: int, i: int|
            0 <= c < after.len() && 0 <= i < after[c].len() ==> v1[#[trigger] after[c][i] as int],
        forall|g: int| 0 <= g < m.nf() && v1[g] ==> #[trigger] covered(after, g),
        forall|g: int| 0 <= g < f + 1 ==> #[trigger] v1[g],
{
    let n = groups.len() as int;
    assert(after[n] == cur);
    assert forall|c: int| 0 <= c < n implies #[trigger] after[c] == groups[c] by {}
    assert forall|g: int| 0 <= g < f + 1 implies #[trigger] v1[g] by {
        if g < f {
            assert(v0[g]);
        }
    }
    assert forall|g: int| 0 <= g < m.nf() && v1[g] implies #[trigger] covered(after, g) by {
        if v0[g] {
            assert(covered(groups, g));
            let c = choose|c: int| 0 <= c < groups.len() && #[trigger] groups[c].contains(g as usize);
            assert(after[c] == groups[c]);
        } else {
            assert(after[n].contains(g as usize));
        }
    }
    assert forall|c: int, i: int| 0 <= c < after.len() && 0 <= i < after[c].len() implies v1[#[trigger] after[c][i] as int] by {
        if c < n {
            assert(v0[groups[c][i] as int]);
        } else {
            assert(v1[cur[i] as int]);
        }
    }
    assert forall|c: int| 0 <= c < after.len() implies (#[trigger] after[c])[0] < f + 1 by {
        if c < n {
            assert(groups[c][0] < f);
        }
    }
    assert(m.seeds_first(after)) by {
        assert forall|c: int, i: int| 0 <= c < after.len() && 0 <= i < after[c].len() implies after[c][0] <= #[trigger] after[c][i] by {
            if c == n {
                if i > 0 {
                    assert(!v0[cur[i] as int]);
                    if cur[i] < f {
                        assert(v0[cur[i] as int]);
                    }
                }
            } else {
                assert(after[c] == groups[c]);
            }
        }
        assert forall|c1: int, c2: int| 0 <= c1 < c2 < after.len() implies #[trigger] after[c1][0] < #[trigger] after[c2][0] by {
            if c2 == n {
                assert(groups[c1][0] < f);
            } else {
                assert(after[c1] == groups[c1]);
                assert(after[c2] == groups[c2]);
            }
        }
    }
    assert(m.disjoint_groups(after)) by {
        assert forall|c1: int, i1: int, c2: int, i2: int|
            0 <= c1 < after.len() && 0 <= i1 < after[c1].len() && 0 <= c2 < after.len() && 0 <= i2
                < after[c2].len() && (c1, i1) != (c2, i2) implies #[trigger] after[c1][i1]
                != #[trigger] after[c2][i2] by {
            if c1 < n && c2 < n {
                assert(groups[c1][i1] != groups[c2][i2]);
            } else if c1 == n && c2 == n {
            } else if c1 == n {
                assert(v0[groups[c2][i2] as int]);
                assert(!v0[cur[i1] as int]);
            } else {
                assert(v0[groups[c1][i1] as int]);
                assert(!v0[cur[i2] as int]);
            }
        }
        assert forall|c: int, i: int| 0 <= c < after.len() && 0 <= i < after[c].len() implies #[trigger] after[c][i] < m.nf() by {
            if c < n {
                assert(groups[c][i] < m.nf());
            } else {
                assert(cur[i] < m.nf());
            }
        }
        assert forall|c: int| 0 <= c < after.len() implies #[trigger] after[c].len() > 0 by {
            if c < n {
                assert(groups[c].len() > 0);
            }
        }
    }
    assert(m.closed_under_adjacency(after)) by {
        assert forall|c: int, i: int, g: int|
            0 <= c < after.len() && 0 <= i < after[c].len() && #[trigger] m.adjacent(after[c][i] as int, g)
            implies after[c].contains(g as usize) by {
            if c < n {
                assert(groups[c].contains(g as usize));
            }
        }
    }
    assert(m.reached_by(after, a1)) by {
        assert forall|c: int, i: int| 0 <= c < after.len() && 0 < i < after[c].len() implies #[trigger] m.reached_from(after[c], i, a1) by {
            if c < n {
                assert(m.reached_from(groups[c], i, a0));
                let j = choose|j: int|
                    0 <= j < i && m.fstart(groups[c][j] as int) <= a0[groups[c][i] as int] < m.fend(
                        #[trigger] groups[c][j] as int,
                    ) && m.crosses(a0[groups[c][i] as int] as int, groups[c][i] as int);
                assert(v0[groups[c][i] as int]);
                assert(a1[groups[c][i] as int] == a0[groups[c][i] as int]);
            }
        }
    }
}

} // verus!
