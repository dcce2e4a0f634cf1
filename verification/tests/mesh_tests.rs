use dreki::mesh::{cube_indices, cylinder_indices, plane_indices, sphere_indices};

#[test]
fn cube_has_correct_counts() {
    let idxs = cube_indices();
    assert_eq!(idxs.len(), 36, "cube should have 36 indices (6 per face)");
}

#[test]
fn cube_indices_in_range() {
    for &idx in &cube_indices() {
        assert!(idx < 24, "index {idx} out of range");
    }
}

#[test]
fn cube_faces_use_their_own_vertices() {
    let idxs = cube_indices();
    assert_eq!(&idxs[0..6], &[0, 1, 2, 0, 2, 3]);
    assert_eq!(&idxs[30..36], &[20, 21, 22, 20, 22, 23]);
}

#[test]
fn plane_has_correct_counts() {
    assert_eq!(plane_indices(), vec![0, 1, 2, 0, 2, 3]);
}

#[test]
fn sphere_has_correct_counts() {
    let idxs = sphere_indices(32, 16);
    assert_eq!(idxs.len(), (16 * 32 * 6) as usize);
}

#[test]
fn sphere_indices_in_range() {
    let idxs = sphere_indices(8, 4);
    let vertex_count = 5 * 9;
    for &idx in &idxs {
        assert!(idx < vertex_count, "index {idx} out of range");
    }
}

#[test]
fn sphere_first_quad() {
    let idxs = sphere_indices(8, 4);
    assert_eq!(&idxs[0..6], &[0, 9, 1, 1, 9, 10]);
}

#[test]
fn sphere_without_rings_has_no_indices() {
    assert!(sphere_indices(8, 0).is_empty());
}

#[test]
fn cylinder_indices_in_range() {
    let idxs = cylinder_indices(32);
    for &idx in &idxs {
        assert!(idx < 4 * 33, "index {idx} out of range");
    }
}

#[test]
fn cylinder_index_count_matches() {
    let seg = 32u32;
    let idxs = cylinder_indices(seg);
    let expected = (seg * 6 + seg * 3 + seg * 3) as usize;
    assert_eq!(idxs.len(), expected);
}

#[test]
fn cylinder_uses_at_least_three_segments() {
    let idxs = cylinder_indices(1);
    assert_eq!(idxs.len(), 36);
    assert_eq!(&idxs[0..6], &[0, 1, 3, 0, 3, 2]);
    // top cap: center 8, rim 9..=11, last triangle wraps to the first rim vertex
    assert_eq!(&idxs[18..27], &[8, 9, 10, 8, 10, 11, 8, 11, 9]);
    // bottom cap: center 12, reversed winding
    assert_eq!(&idxs[27..36], &[12, 14, 13, 12, 15, 14, 12, 13, 15]);
}
