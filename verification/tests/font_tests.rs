use dreki::font::{
    blit_glyph, build_atlas, glyph_slot, pack_glyphs, FontHandle, FontStore, GlyphBitmap, GlyphSlot,
    ATLAS_SIZE, GLYPH_PADDING,
};

#[test]
fn printable_ascii_has_glyph_slots() {
    assert_eq!(glyph_slot(' '), Some(0));
    assert_eq!(glyph_slot('A'), Some(33));
    assert_eq!(glyph_slot('~'), Some(94));
    assert_eq!(glyph_slot('\n'), None);
    assert_eq!(glyph_slot('\u{7f}'), None);
    assert_eq!(glyph_slot('é'), None);
}

#[test]
fn font_store_hands_out_positions() {
    let mut store: FontStore<&str> = FontStore::new();
    let a = store.push("mono");
    let b = store.push("serif");
    assert_eq!(a, FontHandle(0));
    assert_eq!(b, FontHandle(1));
    assert_eq!(*store.get(b), "serif");
    assert_eq!(store.len(), 2);
}

#[test]
fn glyphs_fill_a_shelf_left_to_right() {
    let slots = pack_glyphs(&vec![(4, 5), (3, 2), (0, 7)], 20, 20, 1);
    assert_eq!(
        slots,
        vec![GlyphSlot::Placed { x: 1, y: 1 }, GlyphSlot::Placed { x: 6, y: 1 }, GlyphSlot::Blank]
    );
}

#[test]
fn full_shelf_wraps_below_tallest_glyph() {
    // 12 wide: after two 4-wide glyphs the cursor is at 11, so the third wraps.
    let slots = pack_glyphs(&vec![(4, 3), (4, 5), (4, 2)], 12, 20, 1);
    assert_eq!(
        slots,
        vec![
            GlyphSlot::Placed { x: 1, y: 1 },
            GlyphSlot::Placed { x: 6, y: 1 },
            GlyphSlot::Placed { x: 1, y: 7 },
        ]
    );
}

#[test]
fn atlas_overflow_is_reported() {
    let slots = pack_glyphs(&vec![(4, 8), (8, 8), (2, 2)], 10, 10, 1);
    assert_eq!(slots[0], GlyphSlot::Placed { x: 1, y: 1 });
    assert_eq!(slots[1], GlyphSlot::Overflow);
    // the failed glyph still moved the cursor to a new shelf
    assert_eq!(slots[2], GlyphSlot::Overflow);
}

#[test]
fn blit_writes_white_with_coverage_alpha() {
    let mut atlas = vec![0u8; 4 * 4 * 4];
    blit_glyph(&mut atlas, 4, 1, 2, 2, 1, &vec![7, 9]);
    let px = |x: usize, y: usize| &atlas[(y * 4 + x) * 4..(y * 4 + x) * 4 + 4];
    assert_eq!(px(1, 2), &[255, 255, 255, 7]);
    assert_eq!(px(2, 2), &[255, 255, 255, 9]);
    assert_eq!(px(0, 2), &[0, 0, 0, 0]);
    assert_eq!(px(1, 1), &[0, 0, 0, 0]);
}

#[test]
fn atlas_holds_placed_glyphs() {
    let glyphs = vec![
        GlyphBitmap { width: 0, height: 0, coverage: vec![] },
        GlyphBitmap { width: 2, height: 2, coverage: vec![1, 2, 3, 4] },
        GlyphBitmap { width: 1, height: 1, coverage: vec![5] },
    ];
    let (atlas, slots) = build_atlas(&glyphs);
    assert_eq!(atlas.len(), (ATLAS_SIZE * ATLAS_SIZE * 4) as usize);
    let p = GLYPH_PADDING;
    assert_eq!(
        slots,
        vec![GlyphSlot::Blank, GlyphSlot::Placed { x: p, y: p }, GlyphSlot::Placed { x: p + 2 + p, y: p }]
    );
    let alpha = |x: u32, y: u32| atlas[((y * ATLAS_SIZE + x) * 4 + 3) as usize];
    assert_eq!(alpha(1, 1), 1);
    assert_eq!(alpha(2, 1), 2);
    assert_eq!(alpha(1, 2), 3);
    assert_eq!(alpha(2, 2), 4);
    assert_eq!(alpha(4, 1), 5);
    assert_eq!(alpha(0, 0), 0);
    assert_eq!(atlas.iter().filter(|&&b| b != 0).count(), 5 * 4);
}
