use dreki::animation::{frame_range, step_frame, SpriteSheet};

#[test]
fn sheet_frame_count_is_columns_times_rows() {
    let sheet = SpriteSheet::new(4, 2);
    assert_eq!(sheet.frame_count(), 8);
    assert_eq!(SpriteSheet::new(0, 5).frame_count(), 0);
}

#[test]
fn frame_cells_are_row_major() {
    let sheet = SpriteSheet::new(4, 2);
    assert_eq!(sheet.frame_cell(0), (0, 0));
    assert_eq!(sheet.frame_cell(3), (3, 0));
    assert_eq!(sheet.frame_cell(4), (0, 1));
    assert_eq!(sheet.frame_cell(7), (3, 1));
}

#[test]
fn all_frames_lists_every_frame() {
    let sheet = SpriteSheet::new(3, 2);
    assert_eq!(sheet.all_frames(), vec![0, 1, 2, 3, 4, 5]);
    assert!(SpriteSheet::new(3, 0).all_frames().is_empty());
}

#[test]
fn frame_range_is_inclusive() {
    assert_eq!(frame_range(2, 5), vec![2, 3, 4, 5]);
    assert_eq!(frame_range(7, 7), vec![7]);
    assert!(frame_range(5, 2).is_empty());
    assert_eq!(frame_range(u32::MAX - 1, u32::MAX), vec![u32::MAX - 1, u32::MAX]);
}

#[test]
fn step_moves_to_next_frame() {
    assert_eq!(step_frame(0, 4, false), (1, false));
    assert_eq!(step_frame(2, 4, true), (3, false));
}

#[test]
fn looping_clip_wraps_to_first_frame() {
    assert_eq!(step_frame(3, 4, true), (0, false));
    let mut current = 1;
    for _ in 0..4 {
        let (next, finished) = step_frame(current, 4, true);
        assert!(!finished);
        current = next;
    }
    assert_eq!(current, 1);
}

#[test]
fn non_looping_clip_finishes_on_last_frame() {
    assert_eq!(step_frame(3, 4, false), (3, true));
    assert_eq!(step_frame(0, 1, false), (0, true));
}

#[test]
fn position_past_the_end_wraps_or_finishes() {
    assert_eq!(step_frame(5, 3, true), (0, false));
    assert_eq!(step_frame(5, 3, false), (2, true));
}
