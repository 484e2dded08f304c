use swrender::math::{Point2, Point3};
use swrender::mesh::{IndexedTriangleMesh, Triangle};
use swrender::obj::{parse_face, parse_u32, split_bytes_exec};

#[test]
fn face_with_positions_only() {
    assert_eq!(
        parse_face(b"1 2 3"),
        Some(Triangle { vertices: [1, 2, 3], texcoords: None, normals: None })
    );
}

#[test]
fn face_with_texcoords_and_normals() {
    assert_eq!(
        parse_face(b"5/1/7 6/2/8 4/3/9"),
        Some(Triangle { vertices: [5, 6, 4], texcoords: Some([1, 2, 3]), normals: Some([7, 8, 9]) })
    );
    assert_eq!(
        parse_face(b"1//4 2//5 3//6"),
        Some(Triangle { vertices: [1, 2, 3], texcoords: None, normals: Some([4, 5, 6]) })
    );
}

#[test]
fn face_extra_fields_ignored_and_too_few_rejected() {
    assert_eq!(
        parse_face(b"1 2 3 4"),
        Some(Triangle { vertices: [1, 2, 3], texcoords: None, normals: None })
    );
    assert_eq!(parse_face(b"1 2"), None);
    assert_eq!(parse_face(b""), None);
}

#[test]
fn face_malformed_parts_read_as_zero() {
    assert_eq!(
        parse_face(b"x 2/a 3"),
        Some(Triangle { vertices: [0, 2, 3], texcoords: None, normals: None })
    );
    // an empty field from a doubled space still counts as a vertex field
    assert_eq!(
        parse_face(b"1  3"),
        Some(Triangle { vertices: [1, 0, 3], texcoords: None, normals: None })
    );
}

#[test]
fn u32_parsing_follows_std() {
    for s in ["0", "42", "+7", "4294967295", "", "+", "-1", "4294967296", "12a", " 1", "007"] {
        assert_eq!(parse_u32(s.as_bytes()), s.parse::<u32>().ok(), "{:?}", s);
    }
}

#[test]
fn split_keeps_empty_pieces() {
    let pieces = split_bytes_exec(b"a//b/", b'/');
    assert_eq!(pieces, vec![b"a".to_vec(), vec![], b"b".to_vec(), vec![]]);
    assert_eq!(split_bytes_exec(b"", b' '), vec![Vec::<u8>::new()]);
}

#[test]
fn mesh_index_checks_and_lookup() {
    let p = |x: i32| Point3 { x, y: x * 10, z: x * 100 };
    let mut mesh = IndexedTriangleMesh {
        vertices: vec![p(1), p(2), p(3), p(4)],
        triangles: vec![
            Triangle { vertices: [1, 2, 3], texcoords: None, normals: None },
            Triangle { vertices: [4, 3, 1], texcoords: Some([2, 1, 2]), normals: None },
        ],
        texcoords: Some(vec![Point2 { x: 7, y: 8 }, Point2 { x: 9, y: 6 }]),
        normals: None,
    };
    assert!(mesh.is_well_formed());
    let vs = mesh.triangle_vertices(1);
    assert_eq!((vs[0].x, vs[1].x, vs[2].x), (4, 3, 1));
    let tcs = mesh.triangle_texcoords(1).unwrap();
    assert_eq!((tcs[0].x, tcs[1].x, tcs[2].x), (9, 7, 9));
    assert!(mesh.triangle_texcoords(0).is_none());
    mesh.triangles.push(Triangle { vertices: [1, 5, 2], texcoords: None, normals: None });
    assert!(!mesh.is_well_formed());
    mesh.triangles.pop();
    mesh.triangles.push(Triangle { vertices: [0, 1, 2], texcoords: None, normals: None });
    assert!(!mesh.is_well_formed());
    mesh.triangles.pop();
    mesh.triangles.push(Triangle { vertices: [1, 2, 3], texcoords: None, normals: Some([1, 1, 1]) });
    assert!(!mesh.is_well_formed());
}
