use cfd_mesh::errors::{BuildError, IndexError};
use cfd_mesh::half_edge::HeMesh;
use cfd_mesh::io::{IOFace, IOMesh, IOPatch, IOVertex};
use cfd_mesh::surface::SurfaceMesh;

type P = [f64; 3];

fn io_mesh(points: &[P], faces: &[(&[usize], Option<usize>)], patches: &[&str]) -> IOMesh<P> {
    let mut io = IOMesh::new();
    for p in points {
        io.insert_vertex(IOVertex::new(*p));
    }
    for name in patches {
        io.insert_patch(IOPatch::new(name.to_string()));
    }
    for (vs, patch) in faces {
        io.insert_face(IOFace::new(vs.to_vec(), *patch));
    }
    io
}

fn build(points: &[P], faces: &[(&[usize], Option<usize>)], patches: &[&str]) -> SurfaceMesh<P> {
    SurfaceMesh::from_io(&io_mesh(points, faces, patches)).unwrap()
}

const TET_POINTS: [P; 4] = [[0.0, 0.0, 0.0], [1.0, 0.0, 0.0], [0.0, 1.0, 0.0], [0.0, 0.0, 1.0]];
const TET_FACES: [[usize; 3]; 4] = [[0, 2, 1], [0, 1, 3], [1, 2, 3], [0, 3, 2]];

fn tetrahedron(flipped: &[usize]) -> SurfaceMesh<P> {
    let faces: Vec<Vec<usize>> = TET_FACES
        .iter()
        .enumerate()
        .map(|(i, f)| {
            let mut v = f.to_vec();
            if flipped.contains(&i) {
                v.reverse();
            }
            v
        })
        .collect();
    let refs: Vec<(&[usize], Option<usize>)> = faces.iter().map(|f| (f.as_slice(), None)).collect();
    build(&TET_POINTS, &refs, &[])
}

fn check_links(m: &SurfaceMesh<P>) {
    let he = m.half_edge_mesh();
    for h in 0..he.n_half_edges() {
        let e = he.half_edge(h);
        assert_eq!(he.half_edge(e.prev().id()).next().id(), h);
        assert_eq!(he.half_edge(e.next().id()).prev().id(), h);
        if let Some(t) = e.twin() {
            assert_eq!(he.half_edge(t.id()).twin().map(|x| x.id()), Some(h));
        }
    }
}

#[test]
fn tetrahedron_is_closed_and_consistent() {
    let m = tetrahedron(&[]);
    assert_eq!(m.n_vertices(), 4);
    assert_eq!(m.n_faces(), 4);
    assert_eq!(m.n_edges(), 12);
    assert!(m.is_closed());
    assert!(m.is_consistent());
    check_links(&m);
}

#[test]
fn same_winding_triangles_are_inconsistent() {
    let pts = [[0.0, 0.0, 0.0], [1.0, 0.0, 0.0], [1.0, 1.0, 0.0], [0.0, 1.0, 0.0]];
    let m = build(&pts, &[(&[0, 1, 2], None), (&[0, 1, 3], None)], &[]);
    assert!(!m.is_consistent());
    assert!(!m.is_closed());
    check_links(&m);
    let he = m.half_edge_mesh();
    assert_eq!(he.half_edge(0).twin().map(|t| t.id()), Some(3));
}

#[test]
fn opposite_winding_triangles_are_consistent() {
    let pts = [[0.0, 0.0, 0.0], [1.0, 0.0, 0.0], [1.0, 1.0, 0.0], [0.0, 1.0, 0.0]];
    let m = build(&pts, &[(&[0, 1, 2], None), (&[0, 2, 3], None)], &[]);
    assert!(m.is_consistent());
    assert!(!m.is_closed());
}

#[test]
fn three_faces_on_an_edge_are_refused() {
    let pts = [[0.0, 0.0, 0.0], [1.0, 0.0, 0.0], [0.0, 1.0, 0.0], [0.0, -1.0, 0.0], [0.0, 0.0, 1.0]];
    let io = io_mesh(&pts, &[(&[0, 1, 2], None), (&[1, 0, 3], None), (&[0, 1, 4], None)], &[]);
    match SurfaceMesh::from_io(&io) {
        Err(BuildError::NonManifold(e)) => {
            let mut pair = [e.p, e.q];
            pair.sort();
            assert_eq!(pair, [0, 1]);
            assert_eq!(e.message(), "non-manifold edge found");
        }
        _ => panic!("expected a non-manifold error"),
    }
}

#[test]
fn invalid_faces_are_refused() {
    let pts = [[0.0, 0.0, 0.0], [1.0, 0.0, 0.0], [0.0, 1.0, 0.0]];
    let short = io_mesh(&pts, &[(&[0, 1, 2], None), (&[0, 1], None)], &[]);
    assert!(matches!(SurfaceMesh::from_io(&short), Err(BuildError::InvalidFace(1))));
    let missing_vertex = io_mesh(&pts, &[(&[0, 1, 7], None)], &[]);
    assert!(matches!(SurfaceMesh::from_io(&missing_vertex), Err(BuildError::InvalidFace(0))));
    let missing_patch = io_mesh(&pts, &[(&[0, 1, 2], Some(0))], &[]);
    assert!(matches!(SurfaceMesh::from_io(&missing_patch), Err(BuildError::InvalidFace(0))));
}

#[test]
fn empty_mesh() {
    let m = build(&[], &[], &[]);
    assert_eq!(m.n_faces(), 0);
    assert!(m.is_closed());
    assert!(m.is_consistent());
    assert!(m.components().is_empty());
}

#[test]
fn orient_fixes_flipped_faces() {
    for flipped in [vec![1], vec![0, 2], vec![3], vec![1, 2, 3]] {
        let mut m = tetrahedron(&flipped);
        assert!(!m.is_consistent());
        let before: Vec<Vec<usize>> = m.faces().iter().map(|f| f.vertices().clone()).collect();
        m.orient();
        assert!(m.is_consistent());
        assert!(m.is_closed());
        assert_eq!(m.n_faces(), 4);
        assert_eq!(m.vertices(), TET_POINTS.to_vec());
        let after: Vec<Vec<usize>> = m.faces().iter().map(|f| f.vertices().clone()).collect();
        for (a, b) in before.iter().zip(after.iter()) {
            let mut x = a.clone();
            let mut y = b.clone();
            x.sort();
            y.sort();
            assert_eq!(x, y);
        }
        check_links(&m);
    }
}

#[test]
fn orient_keeps_the_seed_face() {
    let mut m = tetrahedron(&[2]);
    let first = m.face(0).unwrap().vertices().clone();
    m.orient();
    assert_eq!(m.face(0).unwrap().vertices().clone(), first);
    let reversed = m.face(2).unwrap().vertices().clone();
    assert_eq!(reversed, vec![2, 3, 1]);
}

fn fan(center: usize, ring: &[usize]) -> Vec<Vec<usize>> {
    (0..ring.len() - 1).map(|i| vec![center, ring[i], ring[i + 1]]).collect()
}

#[test]
fn two_fans_make_two_components() {
    let pts: Vec<P> = (0..10).map(|i| [i as f64, 0.0, 0.0]).collect();
    let mut faces = fan(0, &[1, 2, 3, 4]);
    faces.extend(fan(5, &[6, 7, 8, 9]));
    let refs: Vec<(&[usize], Option<usize>)> = faces.iter().map(|f| (f.as_slice(), None)).collect();
    let m = build(&pts, &refs, &[]);
    let comps = m.components();
    assert_eq!(comps, vec![vec![0, 1, 2], vec![3, 4, 5]]);
}

#[test]
fn interleaved_components_come_by_lowest_face() {
    let pts: Vec<P> = (0..8).map(|i| [i as f64, 0.0, 0.0]).collect();
    let faces: Vec<Vec<usize>> = vec![vec![0, 1, 2], vec![4, 5, 6], vec![1, 3, 2], vec![5, 7, 6]];
    let refs: Vec<(&[usize], Option<usize>)> = faces.iter().map(|f| (f.as_slice(), None)).collect();
    let m = build(&pts, &refs, &[]);
    assert_eq!(m.components(), vec![vec![0, 2], vec![1, 3]]);
    let single = build(&pts, &[(&[0, 1, 2], None)], &[]);
    assert_eq!(single.components(), vec![vec![0]]);
}

/// The angle between the unit normals of the faces on either side of each
/// half-edge exceeds `angle`.
fn creases(m: &SurfaceMesh<P>, angle: f64) -> Vec<bool> {
    let pts = m.vertices();
    let faces = m.faces();
    let he = m.half_edge_mesh();
    let normal = |f: usize| {
        let v = faces[f].vertices();
        let (a, b, c) = (pts[v[0]], pts[v[1]], pts[v[2]]);
        let u = [b[0] - a[0], b[1] - a[1], b[2] - a[2]];
        let w = [c[0] - a[0], c[1] - a[1], c[2] - a[2]];
        let n = [u[1] * w[2] - u[2] * w[1], u[2] * w[0] - u[0] * w[2], u[0] * w[1] - u[1] * w[0]];
        let l = (n[0] * n[0] + n[1] * n[1] + n[2] * n[2]).sqrt();
        [n[0] / l, n[1] / l, n[2] / l]
    };
    (0..he.n_half_edges())
        .map(|h| {
            let e = he.half_edge(h);
            match e.twin() {
                Some(t) => {
                    let n1 = normal(e.face().id());
                    let n2 = normal(he.half_edge(t.id()).face().id());
                    let d = (n1[0] * n2[0] + n1[1] * n2[1] + n1[2] * n2[2]).clamp(-1.0, 1.0);
                    d.acos() > angle
                }
                None => false,
            }
        })
        .collect()
}

#[test]
fn flat_quad_has_no_feature_edges() {
    let pts = [[0.0, 0.0, 0.0], [1.0, 0.0, 0.0], [1.0, 1.0, 0.0], [0.0, 1.0, 0.0]];
    let m = build(&pts, &[(&[0, 1, 2], None), (&[0, 2, 3], None)], &[]);
    for angle in [1e-6, 0.1, 1.0, 3.0] {
        assert!(m.feature_edges(&creases(&m, angle)).is_empty());
    }
}

fn cube() -> SurfaceMesh<P> {
    let mut pts = Vec::new();
    for i in 0..8 {
        pts.push([(i & 1) as f64, ((i >> 1) & 1) as f64, ((i >> 2) & 1) as f64]);
    }
    let quads: [[usize; 4]; 6] =
        [[0, 2, 3, 1], [4, 5, 7, 6], [0, 1, 5, 4], [2, 6, 7, 3], [0, 4, 6, 2], [1, 3, 7, 5]];
    let mut faces = Vec::new();
    for q in quads.iter() {
        faces.push(vec![q[0], q[1], q[2]]);
        faces.push(vec![q[0], q[2], q[3]]);
    }
    let refs: Vec<(&[usize], Option<usize>)> = faces.iter().map(|f| (f.as_slice(), None)).collect();
    build(&pts, &refs, &[])
}

#[test]
fn cube_has_twelve_feature_edges_at_right_angles() {
    let m = cube();
    assert!(m.is_closed());
    assert!(m.is_consistent());
    let right = std::f64::consts::FRAC_PI_2;
    let below = m.feature_edges(&creases(&m, right - 1e-6));
    assert_eq!(below.len(), 12);
    let mut keys: Vec<(usize, usize)> = below
        .iter()
        .map(|e| (e.get(0).min(e.get(1)), e.get(0).max(e.get(1))))
        .collect();
    keys.sort();
    keys.dedup();
    assert_eq!(keys.len(), 12);
    assert!(m.feature_edges(&creases(&m, right + 1e-6)).is_empty());
}

#[test]
fn feature_edges_carry_both_patches() {
    let pts = [[0.0, 0.0, 0.0], [1.0, 0.0, 0.0], [0.0, 1.0, 0.0], [0.0, 0.0, 1.0]];
    let m = build(&pts, &[(&[0, 1, 2], Some(0)), (&[1, 0, 3], Some(1))], &["floor", "wall"]);
    let all = vec![true; m.n_edges()];
    let edges = m.feature_edges(&all);
    assert_eq!(edges.len(), 1);
    assert_eq!((edges[0].get(0), edges[0].get(1)), (0, 1));
    assert_eq!(edges[0].patches(), vec![0, 1]);
    let same = build(&pts, &[(&[0, 1, 2], Some(0)), (&[1, 0, 3], Some(0))], &["floor"]);
    assert_eq!(same.feature_edges(&vec![true; 6])[0].patches(), vec![0]);
}

#[test]
fn accessors_check_their_index() {
    let m = build(&TET_POINTS, &[(&[0, 1, 2], Some(0))], &["inlet"]);
    assert_eq!(m.vertex(1), Ok([1.0, 0.0, 0.0]));
    assert_eq!(m.vertex(4), Err(IndexError { index: 4, count: 4 }));
    let f = m.face(0).unwrap();
    assert_eq!(f.vertices().clone(), vec![0, 1, 2]);
    assert_eq!(f.patch(), Some(0));
    assert_eq!(m.face(1).unwrap_err(), IndexError { index: 1, count: 1 });
    let e = m.edge(2).unwrap();
    assert_eq!((e.get(0), e.get(1)), (2, 0));
    assert_eq!(e.patches(), vec![0]);
    assert_eq!(m.edge(3).unwrap_err(), IndexError { index: 3, count: 3 });
    assert_eq!(m.n_patches(), 1);
    assert_eq!(m.patch(0).unwrap().name(), "inlet");
    assert_eq!(m.patch(1).unwrap_err(), IndexError { index: 1, count: 1 });
    assert_eq!(m.patches()[0].name(), "inlet");
    assert_eq!(m.edges().len(), 3);
}

#[test]
fn vertex_links_point_at_the_last_outgoing_half_edge() {
    let pts = [[0.0, 0.0, 0.0], [1.0, 0.0, 0.0], [1.0, 1.0, 0.0], [0.0, 1.0, 0.0], [5.0, 5.0, 5.0]];
    let m = build(&pts, &[(&[0, 1, 2], None), (&[0, 2, 3], None)], &[]);
    let he = m.half_edge_mesh();
    assert_eq!(he.vertex(0).half_edge().map(|h| h.id()), Some(3));
    assert_eq!(he.vertex(2).half_edge().map(|h| h.id()), Some(4));
    assert_eq!(he.vertex(4).half_edge(), None);
    assert_eq!(he.face(1).half_edge().id(), 3);
}

#[test]
fn merge_then_extract_gives_back_the_other_mesh() {
    let mut a = build(&TET_POINTS, &TET_FACES.iter().map(|f| (&f[..], Some(0))).collect::<Vec<_>>(), &["a"]);
    let pts = [[0.0, 0.0, 5.0], [1.0, 0.0, 5.0], [1.0, 1.0, 5.0], [0.0, 1.0, 5.0], [9.0, 9.0, 9.0]];
    let b = build(&pts, &[(&[0, 1, 2], Some(1)), (&[0, 2, 3], Some(0))], &["a", "b"]);
    a.merge(&b);
    assert_eq!(a.n_vertices(), 9);
    assert_eq!(a.n_faces(), 6);
    assert_eq!(a.n_patches(), 3);
    assert_eq!(a.n_edges(), 18);
    check_links(&a);
    let back = a.extract_faces(vec![4, 5]);
    assert_eq!(back.n_faces(), 2);
    assert_eq!(back.n_vertices(), 4);
    assert_eq!(back.vertices(), pts[..4].to_vec());
    assert_eq!(back.face(0).unwrap().vertices().clone(), vec![0, 1, 2]);
    assert_eq!(back.face(1).unwrap().vertices().clone(), vec![0, 2, 3]);
    let names: Vec<String> = back.patches().iter().map(|p| p.name().to_string()).collect();
    assert_eq!(names, vec!["b".to_string(), "a".to_string()]);
    assert!(back.is_consistent());
    check_links(&back);
}

#[test]
fn extraction_drops_shared_edges_and_unused_items() {
    let m = tetrahedron(&[]);
    let part = m.extract_faces(vec![2, 0]);
    assert_eq!(part.n_faces(), 2);
    assert_eq!(part.n_vertices(), 4);
    assert_eq!(part.face(0).unwrap().vertices().clone(), vec![0, 1, 2]);
    assert!(!part.is_closed());
    let one = m.extract_faces(vec![1]);
    assert_eq!(one.n_vertices(), 3);
    assert_eq!(one.vertices(), vec![[0.0, 0.0, 0.0], [1.0, 0.0, 0.0], [0.0, 0.0, 1.0]]);
    assert!(!one.is_closed());
}

#[test]
fn extract_patches_picks_faces_by_name() {
    let m = build(
        &TET_POINTS,
        &TET_FACES.iter().enumerate().map(|(i, f)| (&f[..], Some(i % 2))).collect::<Vec<_>>(),
        &["inlet", "outlet"],
    );
    let out = m.extract_patches(vec!["outlet".to_string(), "missing".to_string()]);
    assert_eq!(out.n_faces(), 2);
    assert_eq!(out.n_patches(), 1);
    assert_eq!(out.patch(0).unwrap().name(), "outlet");
    assert_eq!(out.face(0).unwrap().patch(), Some(0));
    assert_eq!(m.extract_patches(vec![]).n_faces(), 0);
}

#[test]
fn to_io_keeps_faces_and_patches() {
    let m = build(&TET_POINTS, &[(&[0, 1, 2], Some(0)), (&[0, 3, 1], None)], &["p"]);
    let io = m.to_io();
    assert_eq!(io.number_of_vertices(), 4);
    assert_eq!(io.number_of_faces(), 2);
    assert_eq!(io.face(0).vertices().clone(), vec![0, 1, 2]);
    assert_eq!(io.face(1).patch(), None);
    assert_eq!(io.patch(0).name(), "p");
    let rebuilt = HeMesh::from_io(&io).unwrap();
    assert_eq!(rebuilt.n_half_edges(), 6);
}

#[test]
fn io_mesh_counts_and_latest_patch() {
    let mut io: IOMesh<P> = IOMesh::default();
    assert_eq!(io.latest_patch(), None);
    assert_eq!(io.insert_vertex(IOVertex::new([1.0, 2.0, 3.0])), 0);
    assert_eq!(io.vertex(0).origin(), [1.0, 2.0, 3.0]);
    assert_eq!(io.insert_patch(IOPatch::new("a".to_string())), 0);
    assert_eq!(io.insert_patch(IOPatch::new("b".to_string())), 1);
    assert_eq!(io.latest_patch(), Some(1));
    assert_eq!(io.insert_face(IOFace::new(vec![0, 0, 0], Some(1))), 0);
    assert_eq!((io.number_of_vertices(), io.number_of_faces(), io.number_of_patches()), (1, 1, 2));
    assert_eq!(io.patch(1).name(), "b");
    assert_eq!(io.face(0).patch(), Some(1));
}
