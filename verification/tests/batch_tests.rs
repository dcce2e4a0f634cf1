use dreki::batch::{build_batches, DrawBatch, Primitive, TextureHandle};

fn quad(texture: usize) -> Primitive {
    Primitive { texture: TextureHandle(texture), vertex_count: 4, indices: vec![0, 1, 2, 0, 2, 3] }
}

#[test]
fn no_primitives_no_batches() {
    let (indices, batches) = build_batches(&Vec::new());
    assert!(indices.is_empty());
    assert!(batches.is_empty());
}

#[test]
fn indices_are_offset_by_earlier_vertices() {
    let (indices, _) = build_batches(&vec![quad(0), quad(0)]);
    assert_eq!(indices, vec![0, 1, 2, 0, 2, 3, 4, 5, 6, 4, 6, 7]);
}

#[test]
fn same_texture_shares_one_batch() {
    let (_, batches) = build_batches(&vec![quad(3), quad(3), quad(3)]);
    assert_eq!(
        batches,
        vec![DrawBatch { texture: TextureHandle(3), index_start: 0, index_count: 18 }]
    );
}

#[test]
fn texture_change_starts_a_new_batch() {
    let (_, batches) = build_batches(&vec![quad(1), quad(2), quad(2), quad(1)]);
    assert_eq!(
        batches,
        vec![
            DrawBatch { texture: TextureHandle(1), index_start: 0, index_count: 6 },
            DrawBatch { texture: TextureHandle(2), index_start: 6, index_count: 12 },
            DrawBatch { texture: TextureHandle(1), index_start: 18, index_count: 6 },
        ]
    );
}

#[test]
fn shapes_with_other_index_counts() {
    let tri = Primitive { texture: TextureHandle(0), vertex_count: 3, indices: vec![0, 1, 2] };
    let (indices, batches) = build_batches(&vec![tri, quad(0)]);
    assert_eq!(indices, vec![0, 1, 2, 3, 4, 5, 3, 5, 6]);
    assert_eq!(batches, vec![DrawBatch { texture: TextureHandle(0), index_start: 0, index_count: 9 }]);
}
