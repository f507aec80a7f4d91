use std::io::Write;

use cfd_mesh::common::Edge;
use cfd_mesh::face::Face;
use cfd_mesh::half_edge::{FaceHandle, HalfEdgeHandle, PatchHandle, VertexHandle};
use cfd_mesh::patch::Patch;
use cfd_mesh::wavefront::{
    is_gz_extension, obj_file_text, parse_obj, parse_ref, write_obj, ParseError, ReadError,
};

const CUBE_SIDE: &str = "# two triangles\nv 0 0 0\nv 1 0 0\nv 1 1 0\nv 0 1 0\nf 1 2 3\ng bottom side\nf 1/1/1 3/2/2 4//3\no ignored\n";

#[test]
fn parse_reads_vertices_faces_and_groups() {
    let io = parse_obj(CUBE_SIDE).unwrap();
    assert_eq!(io.number_of_vertices(), 4);
    assert_eq!(io.vertex(1).origin_ref().x, "1");
    assert_eq!(io.number_of_faces(), 2);
    assert_eq!(io.face(0).vertices().clone(), vec![0, 1, 2]);
    assert_eq!(io.face(0).patch(), None);
    assert_eq!(io.face(1).vertices().clone(), vec![0, 2, 3]);
    assert_eq!(io.face(1).patch(), Some(0));
    assert_eq!(io.number_of_patches(), 1);
    assert_eq!(io.patch(0).name(), "bottom side");
}

#[test]
fn parse_errors_name_the_line() {
    assert_eq!(parse_obj("v 1 2\n").unwrap_err(), ParseError { line: 0 });
    assert_eq!(parse_obj("v 1 2 3\nv 1 2 3\nf 1 2\n").unwrap_err(), ParseError { line: 2 });
    assert_eq!(parse_obj("v 1 2 3\nf 0 1 2\n").unwrap_err(), ParseError { line: 1 });
    assert_eq!(parse_obj("f 1 x 2\n").unwrap_err(), ParseError { line: 0 });
    assert_eq!(parse_obj("\ng\n").unwrap_err(), ParseError { line: 1 });
    assert!(parse_obj("").unwrap().number_of_faces() == 0);
}

#[test]
fn face_references() {
    assert_eq!(parse_ref("12"), Some(11));
    assert_eq!(parse_ref("3/4/5"), Some(2));
    assert_eq!(parse_ref("+7//2"), Some(6));
    assert_eq!(parse_ref("0"), None);
    assert_eq!(parse_ref(""), None);
    assert_eq!(parse_ref("/1"), None);
    assert_eq!(parse_ref("-1"), None);
    assert_eq!(parse_ref("99999999999999999999999"), None);
}

#[test]
fn write_groups_faces_by_patch() {
    let io = parse_obj("v a b c\nv d e f\nv g h i\ng p\nf 1 2 3\ng q\nf 3 2 1\n").unwrap();
    let text = write_obj(&io);
    assert_eq!(text, "v a b c\nv d e f\nv g h i\ng p\nf 1 2 3\ng q\nf 3 2 1\n");
    let mixed = parse_obj("v 0 0 0\nv 1 0 0\nv 0 1 0\ng p\nf 1 2 3\nf 2 3 1\ng q\n").unwrap();
    let mut io2 = mixed.clone();
    io2.insert_face(cfd_mesh::io::IOFace::new(vec![2, 1, 0], None));
    assert_eq!(
        write_obj(&io2),
        "v 0 0 0\nv 1 0 0\nv 0 1 0\nf 3 2 1\ng p\nf 1 2 3\nf 2 3 1\ng q\n"
    );
}

#[test]
fn round_trip_keeps_counts_and_patches() {
    let io = parse_obj(CUBE_SIDE).unwrap();
    let again = parse_obj(&write_obj(&io)).unwrap();
    assert_eq!(again.number_of_vertices(), io.number_of_vertices());
    assert_eq!(again.number_of_faces(), io.number_of_faces());
    assert_eq!(again.number_of_patches(), io.number_of_patches());
    for i in 0..io.number_of_vertices() {
        assert_eq!(again.vertex(i).origin_ref().y, io.vertex(i).origin_ref().y);
    }
    for f in 0..io.number_of_faces() {
        assert_eq!(again.face(f).vertices().clone(), io.face(f).vertices().clone());
        assert_eq!(again.face(f).patch(), io.face(f).patch());
    }
}

#[test]
fn file_text_by_extension() {
    assert_eq!(obj_file_text(None, b"v 1 2 3".to_vec()), Err(ReadError::InvalidPath));
    assert_eq!(obj_file_text(Some("obj"), b"v 1 2 3".to_vec()).unwrap(), "v 1 2 3");
    assert_eq!(obj_file_text(Some("obj"), vec![0xff, 0xfe]), Err(ReadError::Corrupt));
    let mut enc = flate2::write::GzEncoder::new(Vec::new(), flate2::Compression::default());
    enc.write_all(CUBE_SIDE.as_bytes()).unwrap();
    let packed = enc.finish().unwrap();
    assert_ne!(packed, CUBE_SIDE.as_bytes().to_vec());
    assert_eq!(obj_file_text(Some("GZ"), packed.clone()).unwrap(), CUBE_SIDE);
    assert_eq!(obj_file_text(Some("gz"), b"not gzip".to_vec()), Err(ReadError::Corrupt));
    assert!(obj_file_text(Some("obj"), packed).is_err());
    assert!(is_gz_extension("gZ"));
    assert!(!is_gz_extension("gzip"));
}

#[test]
fn small_value_types() {
    let mut e = Edge::new(1, 2, vec![3]);
    assert_eq!((e.get(0), e.get(1)), (1, 2));
    e.set(1, 7);
    assert_eq!(e.get(1), 7);
    assert_eq!(e.patches(), vec![3]);
    let f = Face::new(vec![0, 1, 2], Some(4));
    assert_eq!(f.vertices().clone(), vec![0, 1, 2]);
    assert_eq!(f.patch(), Some(4));
    assert_eq!(Patch::new("wall").name(), "wall");
    assert_eq!(VertexHandle::new(3).id(), 3);
    assert_eq!(FaceHandle::new(4).id(), 4);
    assert_eq!(HalfEdgeHandle::new(5).id(), 5);
    assert_eq!(PatchHandle::new(6).id(), 6);
}
