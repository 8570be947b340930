use teaplot::culling::{lone_lines, outline};

#[test]
fn outline_between_kept_and_culled_faces() {
    // a square of two triangles, and a third triangle on its right edge
    let tris = vec![(0, 1, 2), (0, 2, 3), (1, 4, 2)];
    // the first face is kept, the others culled
    let edges = outline(&tris, &vec![false, true, true]).unwrap();
    assert_eq!(edges, vec![(0, 1, (2, 0)), (0, 2, (1, 2))]);
}

#[test]
fn no_outline_when_nothing_is_culled() {
    let tris = vec![(0, 1, 2), (0, 2, 3)];
    assert_eq!(outline(&tris, &vec![false, false]).unwrap(), vec![]);
    assert_eq!(outline(&tris, &vec![true, true]).unwrap(), vec![]);
}

#[test]
fn faces_apart_have_no_outline() {
    let tris = vec![(0, 1, 2), (3, 4, 5)];
    assert_eq!(outline(&tris, &vec![false, true]).unwrap(), vec![]);
}

#[test]
fn faces_sharing_two_lines_are_refused() {
    // the same triangle twice, once kept and once culled
    let tris = vec![(0, 1, 2), (5, 6, 7), (2, 1, 0)];
    assert_eq!(outline(&tris, &vec![false, false, true]), Err((0, 2)));
}

#[test]
fn border_of_a_square() {
    // two triangles sharing the diagonal 0-2
    let tris = vec![(0, 1, 2), (0, 2, 3)];
    assert_eq!(lone_lines(&tris), vec![(0, 1), (1, 2), (2, 3), (3, 0)]);
    // a lone triangle is all border
    assert_eq!(lone_lines(&vec![(4, 5, 6)]), vec![(4, 5), (5, 6), (6, 4)]);
    // a line met twice in the same direction is not border either
    assert_eq!(lone_lines(&vec![(0, 1, 2), (0, 1, 3)]), vec![(1, 2), (2, 0), (1, 3), (3, 0)]);
    assert!(lone_lines(&vec![]).is_empty());
}
