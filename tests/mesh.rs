use rust_ray::mesh::face_offsets;

#[test]
fn faces_resolve_to_position_offsets() {
    let indices = vec![0u32, 1, 2, 2, 1, 3];
    let r = face_offsets(&indices, 12, 12);
    assert_eq!(r, Some(vec![(0, 3, 6), (6, 3, 9)]));
}

#[test]
fn trailing_indices_are_ignored() {
    let indices = vec![0u32, 1, 2, 1];
    assert_eq!(face_offsets(&indices, 9, 9), Some(vec![(0, 3, 6)]));
    assert_eq!(face_offsets(&vec![0u32, 1], 0, 0), Some(vec![]));
}

#[test]
fn index_past_positions_is_refused() {
    let indices = vec![0u32, 1, 3];
    assert_eq!(face_offsets(&indices, 9, 9), None);
    assert_eq!(face_offsets(&indices, 12, 12), Some(vec![(0, 3, 9)]));
}

#[test]
fn first_corner_past_normals_is_refused() {
    let indices = vec![2u32, 0, 1];
    assert_eq!(face_offsets(&indices, 9, 6), None);
    assert_eq!(face_offsets(&indices, 9, 9), Some(vec![(6, 0, 3)]));
    // Only the first corner's normal is read.
    let indices = vec![0u32, 2, 1];
    assert_eq!(face_offsets(&indices, 9, 3), Some(vec![(0, 6, 3)]));
}
