use teaplot::obj::{parse_obj, parse_usize_field, FaceRef, ObjErrorKind};
use teaplot::text::{split_bytes, text_lines};

#[test]
fn lines_follow_str_lines() {
    let texts = ["", "a", "a\n", "a\r\nb", "a\n\nb\n", "x\r", "\n", "a\rb\r\n"];
    for t in texts {
        let got: Vec<Vec<u8>> = text_lines(t.as_bytes());
        let want: Vec<Vec<u8>> = t.lines().map(|l| l.as_bytes().to_vec()).collect();
        assert_eq!(got, want, "{:?}", t);
    }
}

#[test]
fn split_follows_str_split() {
    let texts = ["", " ", "f 1 2 3", "a  b ", "1/2/3", "//"];
    for t in texts {
        for sep in [b' ', b'/'] {
            let got = split_bytes(t.as_bytes(), sep);
            let want: Vec<Vec<u8>> = t.split(sep as char).map(|p| p.as_bytes().to_vec()).collect();
            assert_eq!(got, want);
        }
    }
}

#[test]
fn usize_fields_parse_like_str_parse() {
    let fields = ["0", "7", "+12", "+", "", "-1", "1a", "18446744073709551615", "18446744073709551616", "007"];
    for f in fields {
        assert_eq!(parse_usize_field(f.as_bytes()), f.parse::<usize>().ok(), "{:?}", f);
    }
}

#[test]
fn parses_vertices_normals_and_faces() {
    let text = "# a triangle\nv 0 0 0\nv 1.5 0 0\nv 0 1 -2\nvn 0 0 1\nf 1//1 2//1 3//1\nf 3 2 1\nf 1/5 2/5 3/5 1\n";
    let m = parse_obj(text.as_bytes()).unwrap();
    assert_eq!(m.vertices.len(), 3);
    assert_eq!(m.vertices[1].x, b"1.5".to_vec());
    assert_eq!(m.vertices[2].z, b"-2".to_vec());
    assert_eq!(m.normals.len(), 1);
    assert_eq!(m.faces.len(), 3);
    assert_eq!(m.faces[0].corners, vec![
        FaceRef { vertex: 0, normal: Some(0) },
        FaceRef { vertex: 1, normal: Some(0) },
        FaceRef { vertex: 2, normal: Some(0) },
    ]);
    assert_eq!(m.faces[1].corners[0], FaceRef { vertex: 2, normal: None });
    assert_eq!(m.faces[2].corners.len(), 4);
    assert_eq!(m.faces[2].corners[3], FaceRef { vertex: 0, normal: None });
}

#[test]
fn face_before_its_vertex_is_refused() {
    let e = parse_obj(b"v 0 0 0\nf 1 2 3\nv 1 1 1\n").err().unwrap();
    assert_eq!(e.line, 1);
    assert_eq!(e.kind, ObjErrorKind::VertexRef);
}

#[test]
fn zero_index_is_refused() {
    let e = parse_obj(b"v 0 0 0\nv 0 0 0\nv 0 0 0\nf 0 1 2\n").err().unwrap();
    assert_eq!(e.kind, ObjErrorKind::VertexRef);
    assert_eq!(e.line, 3);
}

#[test]
fn missing_normal_is_refused() {
    let e = parse_obj(b"v 0 0 0\nv 0 0 0\nv 0 0 0\nf 1//1 2 3\n").err().unwrap();
    assert_eq!(e.kind, ObjErrorKind::NormalRef);
}

#[test]
fn two_corners_are_too_few() {
    let e = parse_obj(b"v 0 0 0\nv 0 0 0\nf 1 2\n").err().unwrap();
    assert_eq!(e.kind, ObjErrorKind::TooFewCorners);
    assert_eq!(e.line, 2);
}

#[test]
fn short_vertex_line_is_refused() {
    let e = parse_obj(b"v 1 2\n").err().unwrap();
    assert_eq!(e.kind, ObjErrorKind::MissingCoordinate);
    let e = parse_obj(b"vn 1 2\n").err().unwrap();
    assert_eq!(e.kind, ObjErrorKind::MissingCoordinate);
}

#[test]
fn trailing_space_on_a_face_is_refused() {
    let e = parse_obj(b"v 0 0 0\nv 0 0 0\nv 0 0 0\nf 1 2 3 \n").err().unwrap();
    assert_eq!(e.kind, ObjErrorKind::VertexRef);
}

#[test]
fn other_lines_are_skipped() {
    let m = parse_obj(b"o thing\ns off\nvt 0 0\n\r\n").unwrap();
    assert_eq!(m.vertices.len(), 0);
    assert_eq!(m.faces.len(), 0);
}
