//! Fonts for the 2D renderer: handles into the font store, the printable
//! ASCII range that fonts are rasterized for, and the shelf packing of
//! glyph bitmaps into a font's texture atlas.
use vstd::prelude::*;

verus! {

/// The first character a font is rasterized for (space).
pub const FIRST_GLYPH: u32 = 32;

/// The last character a font is rasterized for (`~`).
pub const LAST_GLYPH: u32 = 126;

/// Width and height of a font atlas, in pixels.
pub const ATLAS_SIZE: u32 = 512;

/// Empty pixels kept between glyphs and around the atlas edge.
pub const GLYPH_PADDING: u32 = 1;

/// Handle to a loaded font in the [`FontStore`].
#[derive(Clone, Copy, Debug, PartialEq, Eq, Hash, Structural)]
pub struct FontHandle(pub usize);

/// Position of `ch` in a font's glyph table, if the font has a glyph for it.
pub fn glyph_slot(ch: char) -> (r: Option<usize>)
    ensures
        r == if FIRST_GLYPH <= ch as u32 <= LAST_GLYPH {
            Some((ch as u32 - FIRST_GLYPH) as usize)
        } else {
            None::<usize>
        },
{
    let idx = ch as u32;
    if idx < FIRST_GLYPH || idx > LAST_GLYPH {
        None
    } else {
        Some((idx - FIRST_GLYPH) as usize)
    }
}

/// All loaded fonts, in the order they were loaded.
pub struct FontStore<E> {
    entries: Vec<E>,
}

impl<E> View for FontStore<E> {
    type V = Seq<E>;

    closed spec fn view(&self) -> Seq<E> {
        self.entries@
    }
}

impl<E> FontStore<E> {
    /// An empty store.
    pub fn new() -> (r: Self)
        ensures
            r@ == Seq::<E>::empty(),
    {
        FontStore { entries: Vec::new() }
    }

    /// The font of a handle. The handle must come from this store.
    pub fn get(&self, handle: FontHandle) -> (r: &E)
        requires
            handle.0 < self@.len(),
        ensures
            *r == self@[handle.0 as int],
    {
        &self.entries[handle.0]
    }

    /// Adds a font; its handle is its position in the store.
    pub fn push(&mut self, entry: E) -> (r: FontHandle)
        ensures
            final(self)@ == old(self)@.push(entry),
            r.0 == old(self)@.len(),
    {
        let handle = FontHandle(self.entries.len());
        self.entries.push(entry);
        handle
    }

    /// Number of fonts in the store.
    pub fn len(&self) -> (r: usize)
        ensures
            r == self@.len(),
    {
        self.entries.len()
    }
}

// ── Atlas packing ──────────────────────────────────────────────────────

/// Where a glyph's bitmap went in the atlas.
#[derive(Clone, Copy, Debug, PartialEq, Eq, Structural)]
pub enum GlyphSlot {
    /// The glyph has no pixels (a space); it takes no room.
    Blank,
    /// The bitmap's top-left corner is at `x`, `y`.
    Placed { x: u32, y: u32 },
    /// The atlas had no room left for it.
    Overflow,
}

/// The packer's state: the next free position on the current shelf and
/// the height of the tallest glyph on it.
pub struct Shelf {
    pub x: int,
    pub y: int,
    pub row_height: int,
}

/// The state before any glyph: the top-left corner inside the padding.
pub open spec fn shelf_start(pad: int) -> Shelf {
    Shelf { x: pad, y: pad, row_height: 0 }
}

/// The shelf after moving to the next one when a glyph of width `w` does
/// not fit on the current one.
pub open spec fn shelf_wrapped(s: Shelf, w: int, atlas_w: int, pad: int) -> Shelf {
    if s.x + w + pad > atlas_w {
        Shelf { x: pad, y: s.y + s.row_height + pad, row_height: 0 }
    } else {
        s
    }
}

/// Packs one glyph of `w` by `h` pixels: a glyph without pixels is blank;
/// otherwise it goes on the current shelf, or at the start of a new shelf
/// below when the current one is too full, unless that runs past the bottom
/// of the atlas.
pub open spec fn pack_step(s: Shelf, w: int, h: int, atlas_w: int, atlas_h: int, pad: int) -> (Shelf, GlyphSlot) {
    if w == 0 || h == 0 {
        (s, GlyphSlot::Blank)
    } else {
        let t = shelf_wrapped(s, w, atlas_w, pad);
        if t.y + h + pad > atlas_h {
            (t, GlyphSlot::Overflow)
        } else {
            (
                Shelf {
                    x: t.x + w + pad,
                    y: t.y,
                    row_height: if h > t.row_height { h } else { t.row_height },
                },
                GlyphSlot::Placed { x: t.x as u32, y: t.y as u32 },
            )
        }
    }
}

/// The packer's state and the slots after packing the glyphs of `sizes`
/// in order.
pub open spec fn packed(sizes: Seq<(u32, u32)>, atlas_w: int, atlas_h: int, pad: int) -> (Shelf, Seq<GlyphSlot>)
    decreases sizes.len(),
{
    if sizes.len() == 0 {
        (shelf_start(pad), Seq::empty())
    } else {
        let (s, slots) = packed(sizes.drop_last(), atlas_w, atlas_h, pad);
        let (t, slot) = pack_step(s, sizes.last().0 as int, sizes.last().1 as int, atlas_w, atlas_h, pad);
        (t, slots.push(slot))
    }
}

/// The `u32` sums the packer works out do not overflow for these glyphs.
pub open spec fn packing_fits(sizes: Seq<(u32, u32)>, atlas_w: int, atlas_h: int, pad: int) -> bool {
    forall|k: int|
        0 <= k < sizes.len() ==> {
            let s = #[trigger] packed(sizes.take(k), atlas_w, atlas_h, pad).0;
            let w = sizes[k].0 as int;
            let h = sizes[k].1 as int;
            (w != 0 && h != 0) ==> {
                &&& s.x + w + pad <= u32::MAX
                &&& s.y + s.row_height + pad <= u32::MAX
                &&& shelf_wrapped(s, w, atlas_w, pad).x + w + pad <= u32::MAX
                &&& shelf_wrapped(s, w, atlas_w, pad).y + h + pad <= u32::MAX
            }
        }
}

/// The packer's state is made of `u32` values.
pub open spec fn shelf_in_u32(s: Shelf) -> bool {
    0 <= s.x <= u32::MAX && 0 <= s.y <= u32::MAX && 0 <= s.row_height <= u32::MAX
}

proof fn lemma_packed_in_u32(sizes: Seq<(u32, u32)>, atlas_w: int, atlas_h: int, pad: int)
    requires
        0 <= pad <= u32::MAX,
        packing_fits(sizes, atlas_w, atlas_h, pad),
    ensures
        shelf_in_u32(packed(sizes, atlas_w, atlas_h, pad).0),
        packed(sizes, atlas_w, atlas_h, pad).1.len() == sizes.len(),
    decreases sizes.len(),
{
    if sizes.len() > 0 {
        let d = sizes.drop_last();
        assert forall|k: int| 0 <= k < d.len() implies {
            let s = #[trigger] packed(d.take(k), atlas_w, atlas_h, pad).0;
            let w = d[k].0 as int;
            let h = d[k].1 as int;
            (w != 0 && h != 0) ==> {
                &&& s.x + w + pad <= u32::MAX
                &&& s.y + s.row_height + pad <= u32::MAX
                &&& shelf_wrapped(s, w, atlas_w, pad).x + w + pad <= u32::MAX
                &&& shelf_wrapped(s, w, atlas_w, pad).y + h + pad <= u32::MAX
            }
        } by {
            assert(d.take(k) =~= sizes.take(k));
            assert(d[k] == sizes[k]);
            assert(packed(sizes.take(k), atlas_w, atlas_h, pad).0 == packed(d.take(k), atlas_w, atlas_h, pad).0);
        }
        lemma_packed_in_u32(d, atlas_w, atlas_h, pad);
        let k = sizes.len() - 1;
        assert(sizes.take(k) =~= d);
        assert(packed(sizes.take(k), atlas_w, atlas_h, pad).0 == packed(d, atlas_w, atlas_h, pad).0);
    }
}

/// Packs glyphs of the given widths and heights, in order, into an atlas of
/// `atlas_w` by `atlas_h` pixels with `pad` pixels between glyphs.
pub fn pack_glyphs(sizes: &Vec<(u32, u32)>, atlas_w: u32, atlas_h: u32, pad: u32) -> (r: Vec<GlyphSlot>)
    requires
        packing_fits(sizes@, atlas_w as int, atlas_h as int, pad as int),
    ensures
        r@ == packed(sizes@, atlas_w as int, atlas_h as int, pad as int).1,
{
    let mut slots: Vec<GlyphSlot> = Vec::new();
    let mut cursor_x: u32 = pad;
    let mut cursor_y: u32 = pad;
    let mut row_height: u32 = 0;
    let mut k: usize = 0;
    while k < sizes.len()
        invariant
            k <= sizes@.len(),
            packing_fits(sizes@, atlas_w as int, atlas_h as int, pad as int),
            ({
                let (s, sl) = packed(sizes@.take(k as int), atlas_w as int, atlas_h as int, pad as int);
                &&& s.x == cursor_x
                &&& s.y == cursor_y
                &&& s.row_height == row_height
                &&& sl == slots@
            }),
        decreases sizes@.len() - k,
    {
        let (gw, gh) = sizes[k];
        let ghost pk1 = sizes@.take(k + 1);
        proof {
            assert(pk1.drop_last() =~= sizes@.take(k as int));
            assert(pk1.last() == sizes@[k as int]);
        }
        if gw == 0 || gh == 0 {
            slots.push(GlyphSlot::Blank);
        } else {
            if cursor_x + gw + pad > atlas_w {
                cursor_x = pad;
                cursor_y = cursor_y + row_height + pad;
                row_height = 0;
            }
            if cursor_y + gh + pad > atlas_h {
                slots.push(GlyphSlot::Overflow);
            } else {
                slots.push(GlyphSlot::Placed { x: cursor_x, y: cursor_y });
                cursor_x = cursor_x + gw + pad;
                if gh > row_height {
                    row_height = gh;
                }
            }
        }
        k = k + 1;
    }
    assert(sizes@.take(k as int) =~= sizes@);
    slots
}

/// Glyph `k` was placed at `x`, `y`.
pub open spec fn placed_at(slots: Seq<GlyphSlot>, k: int, x: int, y: int) -> bool {
    slots[k] == GlyphSlot::Placed { x: x as u32, y: y as u32 }
}

/// What the packer keeps of every glyph it has placed, given its state `s`
/// afterwards: the glyph lies inside the padding, ends above the bottom
/// padding, ends before the right padding whenever it is narrow enough to
/// fit on a shelf, and is either on a shelf above the current one or on the
/// current one to the left of the next free position and no taller than
/// the shelf.
pub open spec fn placed_glyph_kept(s: Shelf, x: int, y: int, w: int, h: int, atlas_w: int, atlas_h: int, pad: int) -> bool {
    &&& pad <= x
    &&& pad <= y
    &&& y + h + pad <= atlas_h
    &&& w + 2 * pad <= atlas_w ==> x + w + pad <= atlas_w
    &&& (y + h + pad <= s.y || (y == s.y && x + w + pad <= s.x && h <= s.row_height))
}

proof fn lemma_packing_invariant(sizes: Seq<(u32, u32)>, atlas_w: int, atlas_h: int, pad: int)
    requires
        0 <= pad,
        packing_fits(sizes, atlas_w, atlas_h, pad),
    ensures
        ({
            let (s, slots) = packed(sizes, atlas_w, atlas_h, pad);
            &&& slots.len() == sizes.len()
            &&& pad <= s.x && pad <= s.y && 0 <= s.row_height
            &&& forall|k: int|
                0 <= k < sizes.len() && (#[trigger] slots[k] is Placed) ==> {
                    &&& placed_at(slots, k, slots[k]->x as int, slots[k]->y as int)
                    &&& placed_glyph_kept(
                        s,
                        slots[k]->x as int,
                        slots[k]->y as int,
                        sizes[k].0 as int,
                        sizes[k].1 as int,
                        atlas_w,
                        atlas_h,
                        pad,
                    )
                }
            &&& forall|i: int, j: int|
                0 <= i < j < sizes.len() && (#[trigger] slots[i] is Placed) && (#[trigger] slots[j] is Placed) ==> {
                    ||| slots[i]->x + sizes[i].0 + pad <= slots[j]->x
                    ||| slots[i]->y + sizes[i].1 + pad <= slots[j]->y
                }
        }),
    decreases sizes.len(),
{
    if sizes.len() > 0 {
        let n = sizes.len() - 1;
        let d = sizes.drop_last();
        assert forall|k: int| 0 <= k < d.len() implies {
            let s = #[trigger] packed(d.take(k), atlas_w, atlas_h, pad).0;
            let w = d[k].0 as int;
            let h = d[k].1 as int;
            (w != 0 && h != 0) ==> {
                &&& s.x + w + pad <= u32::MAX
                &&& s.y + s.row_height + pad <= u32::MAX
                &&& shelf_wrapped(s, w, atlas_w, pad).x + w + pad <= u32::MAX
                &&& shelf_wrapped(s, w, atlas_w, pad).y + h + pad <= u32::MAX
            }
        } by {
            assert(d.take(k) =~= sizes.take(k));
            assert(d[k] == sizes[k]);
        }
        lemma_packing_invariant(d, atlas_w, atlas_h, pad);
        assert(sizes.take(n) =~= d);
        let (s, slots) = packed(d, atlas_w, atlas_h, pad);
        let w = sizes[n].0 as int;
        let h = sizes[n].1 as int;
        let (s2, slots2) = packed(sizes, atlas_w, atlas_h, pad);
        let t = shelf_wrapped(s, w, atlas_w, pad);
        assert(slots2 == slots.push(pack_step(s, w, h, atlas_w, atlas_h, pad).1));
        assert forall|k: int| 0 <= k < n implies slots2[k] == slots[k] && sizes[k] == d[k] by {}
        assert forall|k: int|
            0 <= k < sizes.len() && (#[trigger] slots2[k] is Placed) implies {
                &&& placed_at(slots2, k, slots2[k]->x as int, slots2[k]->y as int)
                &&& placed_glyph_kept(
                    s2,
                    slots2[k]->x as int,
                    slots2[k]->y as int,
                    sizes[k].0 as int,
                    sizes[k].1 as int,
                    atlas_w,
                    atlas_h,
                    pad,
                )
            } by {
            if k < n {
                assert(slots2[k] == slots[k]);
                assert(sizes[k] == d[k]);
            }
        }
        assert forall|i: int, j: int|
            0 <= i < j < sizes.len() && (#[trigger] slots2[i] is Placed) && (#[trigger] slots2[j] is Placed) implies {
                ||| slots2[i]->x + sizes[i].0 + pad <= slots2[j]->x
                ||| slots2[i]->y + sizes[i].1 + pad <= slots2[j]->y
            } by {
            assert(slots2[i] == slots[i]);
            assert(sizes[i] == d[i]);
            if j < n {
                assert(slots2[j] == slots[j]);
                assert(sizes[j] == d[j]);
            } else {
                assert(placed_glyph_kept(s, slots[i]->x as int, slots[i]->y as int, d[i].0 as int, d[i].1 as int, atlas_w, atlas_h, pad));
            }
        }
    }
}

/// Packed glyphs keep apart and inside the atlas: every placed glyph lies
/// within the padding at the top and left, ends at least `pad` pixels above
/// the bottom edge, and ends `pad` pixels before the right edge whenever it
/// is narrow enough to fit on a shelf at all; of two placed glyphs the
/// later one lies either to the right of the earlier one or below it, with
/// at least `pad` pixels between them, so no two glyphs share a pixel.
pub proof fn law_glyphs_do_not_overlap(sizes: Seq<(u32, u32)>, atlas_w: u32, atlas_h: u32, pad: u32)
    requires
        packing_fits(sizes, atlas_w as int, atlas_h as int, pad as int),
    ensures
        ({
            let slots = packed(sizes, atlas_w as int, atlas_h as int, pad as int).1;
            &&& slots.len() == sizes.len()
            &&& forall|k: int|
                0 <= k < sizes.len() && (#[trigger] slots[k] is Placed) ==> {
                    &&& pad <= slots[k]->x
                    &&& pad <= slots[k]->y
                    &&& slots[k]->y + sizes[k].1 + pad <= atlas_h
                    &&& sizes[k].0 + 2 * pad <= atlas_w ==> slots[k]->x + sizes[k].0 + pad <= atlas_w
                }
            &&& forall|i: int, j: int|
                0 <= i < j < sizes.len() && (#[trigger] slots[i] is Placed) && (#[trigger] slots[j] is Placed) ==> {
                    ||| slots[i]->x + sizes[i].0 + pad <= slots[j]->x
                    ||| slots[i]->y + sizes[i].1 + pad <= slots[j]->y
                }
        }),
{
    lemma_packing_invariant(sizes, atlas_w as int, atlas_h as int, pad as int);
}

// ── Copying glyph bitmaps ─────────────────────────────────────────────

/// Byte offset, in an RGBA atlas `atlas_w` pixels wide, of pixel `n` (in
/// row-major order) of a `w` pixels wide bitmap placed at `x`, `y`.
pub open spec fn pixel_offset(atlas_w: int, x: int, y: int, w: int, n: int) -> int {
    ((y + n / w) * atlas_w + x + n % w) * 4
}

/// The atlas after the first `n` pixels of a glyph's coverage bitmap were
/// copied in, in row-major order, each as white with the coverage as alpha.
pub open spec fn blitted(atlas: Seq<u8>, atlas_w: int, x: int, y: int, w: int, bitmap: Seq<u8>, n: nat) -> Seq<u8>
    decreases n,
{
    if n == 0 {
        atlas
    } else {
        let a = blitted(atlas, atlas_w, x, y, w, bitmap, (n - 1) as nat);
        let d = pixel_offset(atlas_w, x, y, w, n - 1);
        a.update(d, 255u8).update(d + 1, 255u8).update(d + 2, 255u8).update(d + 3, bitmap[n - 1])
    }
}

/// Copies a glyph's `w` by `h` coverage bitmap into an RGBA atlas
/// `atlas_w` pixels wide with its top-left corner at `x`, `y`: every pixel
/// becomes white with the glyph's coverage as alpha.
pub fn blit_glyph(atlas: &mut Vec<u8>, atlas_w: u32, x: u32, y: u32, w: u32, h: u32, bitmap: &Vec<u8>)
    requires
        w > 0 && h > 0 ==> {
            &&& w * h <= bitmap@.len()
            &&& w * h - 1 <= u32::MAX
            &&& y + h - 1 <= u32::MAX
            &&& ((y + h - 1) * atlas_w + x + w - 1) * 4 <= u32::MAX
            &&& ((y + h - 1) * atlas_w + x + w - 1) * 4 + 3 < old(atlas)@.len()
        },
    ensures
        final(atlas)@.len() == old(atlas)@.len(),
        final(atlas)@ == blitted(old(atlas)@, atlas_w as int, x as int, y as int, w as int, bitmap@, (w * h) as nat),
{
    if w == 0 || h == 0 {
        assert((w * h) as nat == 0) by (nonlinear_arith)
            requires
                w == 0 || h == 0,
        ;
        return;
    }
    let ghost start = atlas@;
    let mut gy: u32 = 0;
    while gy < h
        invariant
            w > 0,
            h > 0,
            gy <= h,
            w * h <= bitmap@.len(),
            w * h - 1 <= u32::MAX,
            y + h - 1 <= u32::MAX,
            ((y + h - 1) * atlas_w + x + w - 1) * 4 <= u32::MAX,
            ((y + h - 1) * atlas_w + x + w - 1) * 4 + 3 < start.len(),
            atlas@.len() == start.len(),
            atlas@ == blitted(start, atlas_w as int, x as int, y as int, w as int, bitmap@, (gy * w) as nat),
        decreases h - gy,
    {
        let mut gx: u32 = 0;
        while gx < w
            invariant
                w > 0,
                gy < h,
                gx <= w,
                w * h <= bitmap@.len(),
                w * h - 1 <= u32::MAX,
                y + h - 1 <= u32::MAX,
                ((y + h - 1) * atlas_w + x + w - 1) * 4 <= u32::MAX,
                ((y + h - 1) * atlas_w + x + w - 1) * 4 + 3 < start.len(),
                atlas@.len() == start.len(),
                atlas@ == blitted(start, atlas_w as int, x as int, y as int, w as int, bitmap@, (gy * w + gx) as nat),
            decreases w - gx,
        {
            proof {
                assert(gy * w + gx <= (h - 1) * w + w - 1) by (nonlinear_arith)
                    requires
                        gy <= h - 1,
                        gx <= w - 1,
                ;
                assert((h - 1) * w + w - 1 == w * h - 1) by (nonlinear_arith);
                assert((y + gy) * atlas_w + x + gx <= (y + h - 1) * atlas_w + x + w - 1) by (nonlinear_arith)
                    requires
                        gy <= h - 1,
                        gx <= w - 1,
                ;
                vstd::arithmetic::div_mod::lemma_fundamental_div_mod_converse(
                    (gy * w + gx) as int,
                    w as int,
                    gy as int,
                    gx as int,
                );
                assert(gy * w == gy as int * w as int);
            }
            let src_idx = (gy * w + gx) as usize;
            let dst_idx = (((y + gy) * atlas_w + x + gx) * 4) as usize;
            let alpha = bitmap[src_idx];
            atlas.set(dst_idx, 255);
            atlas.set(dst_idx + 1, 255);
            atlas.set(dst_idx + 2, 255);
            atlas.set(dst_idx + 3, alpha);
            gx = gx + 1;
            proof {
                assert(pixel_offset(atlas_w as int, x as int, y as int, w as int, (gy * w + gx - 1) as int) == dst_idx);
            }
        }
        gy = gy + 1;
        assert(((gy - 1) * w + w) as nat == (gy * w) as nat) by (nonlinear_arith);
    }
    assert((h * w) as nat == (w * h) as nat) by (nonlinear_arith);
}

// ── Building a font atlas ─────────────────────────────────────────────

/// A rasterized glyph: its size in pixels and its row-major coverage
/// bitmap, one byte per pixel.
pub struct GlyphBitmap {
    pub width: u32,
    pub height: u32,
    pub coverage: Vec<u8>,
}

/// The sizes of the glyphs, in order.
pub open spec fn glyph_sizes(glyphs: Seq<GlyphBitmap>) -> Seq<(u32, u32)> {
    glyphs.map_values(|g: GlyphBitmap| (g.width, g.height))
}

/// The slots of the glyphs in a font atlas.
pub open spec fn atlas_slots(glyphs: Seq<GlyphBitmap>) -> Seq<GlyphSlot> {
    packed(glyph_sizes(glyphs), ATLAS_SIZE as int, ATLAS_SIZE as int, GLYPH_PADDING as int).1
}

/// An atlas with every byte zero: transparent black.
pub open spec fn blank_atlas() -> Seq<u8> {
    Seq::new((ATLAS_SIZE * ATLAS_SIZE * 4) as nat, |i: int| 0u8)
}

/// The atlas after copying in the placed glyphs among the first `k`.
pub open spec fn atlas_after(glyphs: Seq<GlyphBitmap>, k: nat) -> Seq<u8>
    decreases k,
{
    if k == 0 {
        blank_atlas()
    } else {
        let a = atlas_after(glyphs, (k - 1) as nat);
        let g = glyphs[k - 1];
        match atlas_slots(glyphs)[k - 1] {
            GlyphSlot::Placed { x, y } => blitted(
                a,
                ATLAS_SIZE as int,
                x as int,
                y as int,
                g.width as int,
                g.coverage@,
                (g.width * g.height) as nat,
            ),
            _ => a,
        }
    }
}

/// Every placed glyph's bitmap has its pixels, and copying it stays inside
/// the atlas buffer.
pub open spec fn atlas_fits(glyphs: Seq<GlyphBitmap>) -> bool {
    &&& packing_fits(glyph_sizes(glyphs), ATLAS_SIZE as int, ATLAS_SIZE as int, GLYPH_PADDING as int)
    &&& forall|k: int|
        0 <= k < glyphs.len() && (#[trigger] atlas_slots(glyphs)[k] is Placed) ==> {
            let g = glyphs[k];
            let x = atlas_slots(glyphs)[k]->x;
            let y = atlas_slots(glyphs)[k]->y;
            &&& g.width * g.height <= g.coverage@.len()
            &&& ((y + g.height - 1) * ATLAS_SIZE + x + g.width - 1) * 4 + 3 < ATLAS_SIZE * ATLAS_SIZE * 4
        }
}

/// Packs the glyphs into a new RGBA font atlas and copies in the bitmaps of
/// those placed. Returns the atlas and each glyph's slot.
pub fn build_atlas(glyphs: &Vec<GlyphBitmap>) -> (r: (Vec<u8>, Vec<GlyphSlot>))
    requires
        atlas_fits(glyphs@),
    ensures
        r.1@ == atlas_slots(glyphs@),
        r.0@ == atlas_after(glyphs@, glyphs@.len()),
{
    let mut sizes: Vec<(u32, u32)> = Vec::new();
    let mut i: usize = 0;
    while i < glyphs.len()
        invariant
            i <= glyphs@.len(),
            sizes@ == glyph_sizes(glyphs@.take(i as int)),
        decreases glyphs@.len() - i,
    {
        sizes.push((glyphs[i].width, glyphs[i].height));
        i = i + 1;
        assert(sizes@ =~= glyph_sizes(glyphs@.take(i as int)));
    }
    assert(glyphs@.take(i as int) =~= glyphs@);
    let slots = pack_glyphs(&sizes, ATLAS_SIZE, ATLAS_SIZE, GLYPH_PADDING);
    proof {
        lemma_packed_in_u32(sizes@, ATLAS_SIZE as int, ATLAS_SIZE as int, GLYPH_PADDING as int);
    }
    let mut atlas: Vec<u8> = Vec::new();
    let total: usize = (ATLAS_SIZE * ATLAS_SIZE * 4) as usize;
    let mut b: usize = 0;
    while b < total
        invariant
            b <= total,
            total == ATLAS_SIZE * ATLAS_SIZE * 4,
            atlas@ == Seq::new(b as nat, |i: int| 0u8),
        decreases total - b,
    {
        atlas.push(0u8);
        b = b + 1;
        assert(atlas@ =~= Seq::new(b as nat, |i: int| 0u8));
    }
    let mut k: usize = 0;
    while k < glyphs.len()
        invariant
            k <= glyphs@.len(),
            atlas_fits(glyphs@),
            slots@ == atlas_slots(glyphs@),
            slots@.len() == glyphs@.len(),
            atlas@ == atlas_after(glyphs@, k as nat),
            atlas@.len() == ATLAS_SIZE * ATLAS_SIZE * 4,
        decreases glyphs@.len() - k,
    {
        let g = &glyphs[k];
        match slots[k] {
            GlyphSlot::Placed { x, y } => {
                proof {
                    assert(atlas_slots(glyphs@)[k as int] is Placed);
                    if g.width > 0 && g.height > 0 {
                        let w = g.width as int;
                        let h = g.height as int;
                        let xx = x as int;
                        let yy = y as int;
                        assert(((yy + h - 1) * 512 + xx + w - 1) * 4 + 3 < 512 * 512 * 4);
                        assert(h <= 512 && w <= 262144) by (nonlinear_arith)
                            requires
                                ((yy + h - 1) * 512 + xx + w - 1) * 4 + 3 < 512 * 512 * 4,
                                xx >= 0,
                                yy >= 0,
                                w > 0,
                                h > 0,
                        ;
                        assert(w * h - 1 <= u32::MAX) by (nonlinear_arith)
                            requires
                                h <= 512,
                                w <= 262144,
                                w > 0,
                                h > 0,
                        ;
                    }
                }
                blit_glyph(&mut atlas, ATLAS_SIZE, x, y, g.width, g.height, &g.coverage);
            },
            _ => {},
        }
        k = k + 1;
    }
    (atlas, slots)
}

/// Byte offset of pixel `x + gx`, `y + gy` in an RGBA atlas `atlas_w`
/// pixels wide.
pub open spec fn atlas_offset(atlas_w: int, x: int, y: int, gx: int, gy: int) -> int {
    ((y + gy) * atlas_w + x + gx) * 4
}

proof fn lemma_offset_parts(atlas_w: int, x: int, y: int, w: int, m: int)
    requires
        w > 0,
        x >= 0,
        y >= 0,
        x + w <= atlas_w,
        m >= 0,
    ensures
        0 <= x + m % w < atlas_w,
        m / w >= 0,
        pixel_offset(atlas_w, x, y, w, m) == ((y + m / w) * atlas_w + (x + m % w)) * 4,
        (y + m / w) * atlas_w + (x + m % w) >= 0,
{
    vstd::arithmetic::div_mod::lemma_mod_bound(m, w);
    vstd::arithmetic::div_mod::lemma_div_pos_is_pos(m, w);
    assert((y + m / w) * atlas_w >= 0) by (nonlinear_arith)
        requires
            y + m / w >= 0,
            atlas_w >= 0,
    ;
}

proof fn lemma_offsets_distinct(atlas_w: int, x: int, y: int, w: int, m1: int, m2: int)
    requires
        w > 0,
        x >= 0,
        y >= 0,
        x + w <= atlas_w,
        0 <= m1,
        0 <= m2,
        m1 != m2,
    ensures
        pixel_offset(atlas_w, x, y, w, m1) + 4 <= pixel_offset(atlas_w, x, y, w, m2)
            || pixel_offset(atlas_w, x, y, w, m2) + 4 <= pixel_offset(atlas_w, x, y, w, m1),
{
    lemma_offset_parts(atlas_w, x, y, w, m1);
    lemma_offset_parts(atlas_w, x, y, w, m2);
    let v1 = (y + m1 / w) * atlas_w + (x + m1 % w);
    let v2 = (y + m2 / w) * atlas_w + (x + m2 % w);
    if v1 == v2 {
        vstd::arithmetic::div_mod::lemma_fundamental_div_mod_converse(v1, atlas_w, y + m1 / w, x + m1 % w);
        vstd::arithmetic::div_mod::lemma_fundamental_div_mod_converse(v2, atlas_w, y + m2 / w, x + m2 % w);
        vstd::arithmetic::div_mod::lemma_fundamental_div_mod(m1, w);
        vstd::arithmetic::div_mod::lemma_fundamental_div_mod(m2, w);
        assert(false);
    }
}

proof fn lemma_blit_prefix(atlas: Seq<u8>, atlas_w: int, x: int, y: int, w: int, bitmap: Seq<u8>, n: nat)
    requires
        w > 0,
        x >= 0,
        y >= 0,
        x + w <= atlas_w,
        n <= bitmap.len(),
        forall|m: int| 0 <= m < n ==> #[trigger] pixel_offset(atlas_w, x, y, w, m) + 3 < atlas.len(),
    ensures
        ({
            let r = blitted(atlas, atlas_w, x, y, w, bitmap, n);
            &&& r.len() == atlas.len()
            &&& forall|m: int|
                0 <= m < n ==> {
                    let d = #[trigger] pixel_offset(atlas_w, x, y, w, m);
                    &&& r[d] == 255u8
                    &&& r[d + 1] == 255u8
                    &&& r[d + 2] == 255u8
                    &&& r[d + 3] == bitmap[m]
                }
            &&& forall|p: int|
                0 <= p < atlas.len() && (forall|m: int|
                    0 <= m < n ==> !(#[trigger] pixel_offset(atlas_w, x, y, w, m) <= p < pixel_offset(atlas_w, x, y, w, m) + 4))
                    ==> #[trigger] r[p] == atlas[p]
        }),
    decreases n,
{
    if n > 0 {
        let k = n - 1;
        lemma_blit_prefix(atlas, atlas_w, x, y, w, bitmap, k as nat);
        let prev = blitted(atlas, atlas_w, x, y, w, bitmap, k as nat);
        let r = blitted(atlas, atlas_w, x, y, w, bitmap, n);
        let d = pixel_offset(atlas_w, x, y, w, k);
        lemma_offset_parts(atlas_w, x, y, w, k);
        assert(r == prev.update(d, 255u8).update(d + 1, 255u8).update(d + 2, 255u8).update(d + 3, bitmap[k]));
        assert forall|m: int| 0 <= m < n implies {
            let dm = #[trigger] pixel_offset(atlas_w, x, y, w, m);
            &&& r[dm] == 255u8
            &&& r[dm + 1] == 255u8
            &&& r[dm + 2] == 255u8
            &&& r[dm + 3] == bitmap[m]
        } by {
            if m < k {
                lemma_offsets_distinct(atlas_w, x, y, w, m, k);
                lemma_offset_parts(atlas_w, x, y, w, m);
            }
        }
        assert forall|p: int|
            0 <= p < atlas.len() && (forall|m: int|
                0 <= m < n ==> !(#[trigger] pixel_offset(atlas_w, x, y, w, m) <= p < pixel_offset(atlas_w, x, y, w, m) + 4))
                implies #[trigger] r[p] == atlas[p] by {
            assert(!(d <= p < d + 4));
            assert forall|m: int| 0 <= m < k implies !(#[trigger] pixel_offset(atlas_w, x, y, w, m) <= p
                < pixel_offset(atlas_w, x, y, w, m) + 4) by {
                assert(0 <= m < n);
            }
        }
    }
}

proof fn lemma_pixel_index(w: int, h: int, m: int) -> (r: (int, int))
    requires
        w > 0,
        h > 0,
        0 <= m < w * h,
    ensures
        r.0 == m % w,
        r.1 == m / w,
        0 <= r.0 < w,
        0 <= r.1 < h,
        m == r.1 * w + r.0,
{
    vstd::arithmetic::div_mod::lemma_fundamental_div_mod(m, w);
    vstd::arithmetic::div_mod::lemma_mod_bound(m, w);
    vstd::arithmetic::div_mod::lemma_div_pos_is_pos(m, w);
    let gx = m % w;
    let gy = m / w;
    assert(gy < h) by (nonlinear_arith)
        requires
            m == w * gy + gx,
            0 <= gx,
            m < w * h,
            w > 0,
    ;
    assert(m == gy * w + gx) by (nonlinear_arith)
        requires
            m == w * gy + gx,
    ;
    (gx, gy)
}

proof fn lemma_pixel_number(w: int, h: int, gx: int, gy: int)
    requires
        w > 0,
        0 <= gx < w,
        0 <= gy < h,
    ensures
        0 <= gy * w + gx < w * h,
        (gy * w + gx) % w == gx,
        (gy * w + gx) / w == gy,
{
    vstd::arithmetic::div_mod::lemma_fundamental_div_mod_converse(gy * w + gx, w, gy, gx);
    assert(0 <= gy * w + gx < w * h) by (nonlinear_arith)
        requires
            w > 0,
            0 <= gx < w,
            0 <= gy < h,
    ;
}

/// Copying a glyph that fits in the atlas's width puts it where it
/// belongs and nowhere else: pixel `gx`, `gy` of the bitmap becomes the
/// atlas pixel `x + gx`, `y + gy`, white with the bitmap's coverage as
/// alpha, and every byte outside the glyph's rectangle keeps its value.
pub proof fn law_blit_places_glyph(atlas: Seq<u8>, atlas_w: int, x: int, y: int, w: int, h: int, bitmap: Seq<u8>)
    requires
        w > 0,
        h > 0,
        x >= 0,
        y >= 0,
        x + w <= atlas_w,
        w * h <= bitmap.len(),
        ((y + h - 1) * atlas_w + x + w - 1) * 4 + 3 < atlas.len(),
    ensures
        ({
            let r = blitted(atlas, atlas_w, x, y, w, bitmap, (w * h) as nat);
            &&& r.len() == atlas.len()
            &&& forall|gx: int, gy: int|
                0 <= gx < w && 0 <= gy < h ==> {
                    let d = #[trigger] atlas_offset(atlas_w, x, y, gx, gy);
                    &&& r[d] == 255u8
                    &&& r[d + 1] == 255u8
                    &&& r[d + 2] == 255u8
                    &&& r[d + 3] == bitmap[gy * w + gx]
                }
            &&& forall|p: int|
                0 <= p < atlas.len() && !(exists|gx: int, gy: int|
                    0 <= gx < w && 0 <= gy < h && #[trigger] atlas_offset(atlas_w, x, y, gx, gy) <= p
                        < atlas_offset(atlas_w, x, y, gx, gy) + 4) ==> #[trigger] r[p] == atlas[p]
        }),
{
    let n = (w * h) as nat;
    assert(w * h > 0) by (nonlinear_arith)
        requires
            w > 0,
            h > 0,
    ;
    assert forall|m: int| 0 <= m < n implies #[trigger] pixel_offset(atlas_w, x, y, w, m) + 3 < atlas.len() by {
        lemma_offset_parts(atlas_w, x, y, w, m);
        let (gx, gy) = lemma_pixel_index(w, h, m);
        assert((y + gy) * atlas_w + (x + gx) <= (y + h - 1) * atlas_w + x + w - 1) by (nonlinear_arith)
            requires
                gy <= h - 1,
                gx <= w - 1,
                atlas_w >= 0,
        ;
    }
    lemma_blit_prefix(atlas, atlas_w, x, y, w, bitmap, n);
    let r = blitted(atlas, atlas_w, x, y, w, bitmap, n);
    assert forall|gx: int, gy: int| 0 <= gx < w && 0 <= gy < h implies {
        let d = #[trigger] atlas_offset(atlas_w, x, y, gx, gy);
        &&& r[d] == 255u8
        &&& r[d + 1] == 255u8
        &&& r[d + 2] == 255u8
        &&& r[d + 3] == bitmap[gy * w + gx]
    } by {
        lemma_pixel_number(w, h, gx, gy);
        let m = gy * w + gx;
        assert(0 <= m < n);
        assert(pixel_offset(atlas_w, x, y, w, m) == atlas_offset(atlas_w, x, y, gx, gy));
    }
    assert forall|p: int|
        0 <= p < atlas.len() && !(exists|gx: int, gy: int|
            0 <= gx < w && 0 <= gy < h && #[trigger] atlas_offset(atlas_w, x, y, gx, gy) <= p
                < atlas_offset(atlas_w, x, y, gx, gy) + 4) implies #[trigger] r[p] == atlas[p] by {
        assert forall|m: int| 0 <= m < n implies !(#[trigger] pixel_offset(atlas_w, x, y, w, m) <= p
            < pixel_offset(atlas_w, x, y, w, m) + 4) by {
            let (gx, gy) = lemma_pixel_index(w, h, m);
            assert(pixel_offset(atlas_w, x, y, w, m) == atlas_offset(atlas_w, x, y, gx, gy));
        }
    }
}

/// Glyph `g` shows in `atlas` with its top-left corner at `x`, `y`: each
/// of its pixels is white with the glyph's coverage as alpha.
pub open spec fn glyph_shown(atlas: Seq<u8>, x: int, y: int, g: GlyphBitmap) -> bool {
    forall|gx: int, gy: int|
        0 <= gx < g.width && 0 <= gy < g.height ==> {
            let d = #[trigger] atlas_offset(ATLAS_SIZE as int, x, y, gx, gy);
            &&& atlas[d] == 255u8
            &&& atlas[d + 1] == 255u8
            &&& atlas[d + 2] == 255u8
            &&& atlas[d + 3] == g.coverage@[gy * g.width + gx]
        }
}

proof fn lemma_pixels_apart(atlas_w: int, r1: int, c1: int, r2: int, c2: int)
    requires
        atlas_w > 0,
        0 <= c1 < atlas_w,
        0 <= c2 < atlas_w,
        r1 != r2 || c1 != c2,
    ensures
        (r1 * atlas_w + c1) * 4 + 4 <= (r2 * atlas_w + c2) * 4 || (r2 * atlas_w + c2) * 4 + 4 <= (r1
            * atlas_w + c1) * 4,
{
    if r1 * atlas_w + c1 == r2 * atlas_w + c2 {
        vstd::arithmetic::div_mod::lemma_fundamental_div_mod_converse(r1 * atlas_w + c1, atlas_w, r1, c1);
        vstd::arithmetic::div_mod::lemma_fundamental_div_mod_converse(r2 * atlas_w + c2, atlas_w, r2, c2);
    }
}

/// The finished atlas shows every glyph: when each placed glyph is narrow
/// enough to fit on a shelf, every placed glyph's pixels hold its coverage
/// at its slot, since later glyphs never write over earlier ones.
pub proof fn law_atlas_shows_placed_glyphs(glyphs: Seq<GlyphBitmap>)
    requires
        atlas_fits(glyphs),
        forall|k: int|
            0 <= k < glyphs.len() && (#[trigger] atlas_slots(glyphs)[k] is Placed) ==> glyphs[k].width + 2
                * GLYPH_PADDING <= ATLAS_SIZE,
    ensures
        forall|k: int|
            0 <= k < glyphs.len() && (#[trigger] atlas_slots(glyphs)[k] is Placed) ==> glyph_shown(
                atlas_after(glyphs, glyphs.len()),
                atlas_slots(glyphs)[k]->x as int,
                atlas_slots(glyphs)[k]->y as int,
                glyphs[k],
            ),
{
    let sizes = glyph_sizes(glyphs);
    law_glyphs_do_not_overlap(sizes, ATLAS_SIZE, ATLAS_SIZE, GLYPH_PADDING);
    lemma_atlas_prefix(glyphs, glyphs.len());
}

proof fn lemma_atlas_prefix(glyphs: Seq<GlyphBitmap>, n: nat)
    requires
        n <= glyphs.len(),
        atlas_fits(glyphs),
        forall|k: int|
            0 <= k < glyphs.len() && (#[trigger] atlas_slots(glyphs)[k] is Placed) ==> glyphs[k].width + 2
                * GLYPH_PADDING <= ATLAS_SIZE,
        ({
            let slots = atlas_slots(glyphs);
            let sizes = glyph_sizes(glyphs);
            &&& slots.len() == sizes.len()
            &&& forall|k: int|
                0 <= k < sizes.len() && (#[trigger] slots[k] is Placed) ==> {
                    &&& GLYPH_PADDING <= slots[k]->x
                    &&& GLYPH_PADDING <= slots[k]->y
                    &&& slots[k]->y + sizes[k].1 + GLYPH_PADDING <= ATLAS_SIZE
                    &&& sizes[k].0 + 2 * GLYPH_PADDING <= ATLAS_SIZE ==> slots[k]->x + sizes[k].0
                        + GLYPH_PADDING <= ATLAS_SIZE
                }
            &&& forall|i: int, j: int|
                0 <= i < j < sizes.len() && (#[trigger] slots[i] is Placed) && (#[trigger] slots[j] is Placed) ==> {
                    ||| slots[i]->x + sizes[i].0 + GLYPH_PADDING <= slots[j]->x
                    ||| slots[i]->y + sizes[i].1 + GLYPH_PADDING <= slots[j]->y
                }
        }),
    ensures
        atlas_after(glyphs, n).len() == ATLAS_SIZE * ATLAS_SIZE * 4,
        forall|k: int|
            0 <= k < n && (#[trigger] atlas_slots(glyphs)[k] is Placed) ==> glyph_shown(
                atlas_after(glyphs, n),
                atlas_slots(glyphs)[k]->x as int,
                atlas_slots(glyphs)[k]->y as int,
                glyphs[k],
            ),
    decreases n,
{
    let slots = atlas_slots(glyphs);
    let sizes = glyph_sizes(glyphs);
    if n > 0 {
        let k = n - 1;
        lemma_atlas_prefix(glyphs, k as nat);
        let a = atlas_after(glyphs, k as nat);
        let g = glyphs[k];
        assert(sizes[k] == (g.width, g.height));
        match slots[k] {
            GlyphSlot::Placed { x, y } => {
                let w = g.width as int;
                let h = g.height as int;
                let r = atlas_after(glyphs, n);
                assert(r == blitted(a, ATLAS_SIZE as int, x as int, y as int, w, g.coverage@, (g.width * g.height) as nat));
                if w > 0 && h > 0 {
                    assert(x + w + 1 <= 512);
                    law_blit_places_glyph(a, ATLAS_SIZE as int, x as int, y as int, w, h, g.coverage@);
                    assert forall|j: int| 0 <= j < n && (#[trigger] slots[j] is Placed) implies glyph_shown(
                        r,
                        slots[j]->x as int,
                        slots[j]->y as int,
                        glyphs[j],
                    ) by {
                        if j < k {
                            let gj = glyphs[j];
                            let xj = slots[j]->x as int;
                            let yj = slots[j]->y as int;
                            assert(sizes[j] == (gj.width, gj.height));
                            assert(glyph_shown(a, xj, yj, gj));
                            assert forall|gx: int, gy: int| 0 <= gx < gj.width && 0 <= gy < gj.height implies {
                                let d = #[trigger] atlas_offset(ATLAS_SIZE as int, xj, yj, gx, gy);
                                &&& r[d] == 255u8
                                &&& r[d + 1] == 255u8
                                &&& r[d + 2] == 255u8
                                &&& r[d + 3] == gj.coverage@[gy * gj.width + gx]
                            } by {
                                let d = atlas_offset(ATLAS_SIZE as int, xj, yj, gx, gy);
                                assert(xj + gj.width + 1 <= 512);
                                assert forall|gx2: int, gy2: int|
                                    0 <= gx2 < w && 0 <= gy2 < h implies !(#[trigger] atlas_offset(
                                        ATLAS_SIZE as int,
                                        x as int,
                                        y as int,
                                        gx2,
                                        gy2,
                                    ) <= d + 3 && d < atlas_offset(ATLAS_SIZE as int, x as int, y as int, gx2, gy2) + 4) by {
                                    lemma_pixels_apart(512, yj + gy, xj + gx, y + gy2, x + gx2);
                                }
                                assert(d + 3 < ATLAS_SIZE * ATLAS_SIZE * 4) by (nonlinear_arith)
                                    requires
                                        d == ((yj + gy) * 512 + xj + gx) * 4,
                                        0 <= gy < gj.height,
                                        yj + gj.height + 1 <= 512,
                                        0 <= gx,
                                        xj + gx < 512,
                                        yj >= 1,
                                ;
                                assert(d >= 0) by (nonlinear_arith)
                                    requires
                                        d == ((yj + gy) * 512 + xj + gx) * 4,
                                        0 <= gy,
                                        yj >= 1,
                                        0 <= gx,
                                        xj >= 1,
                                ;
                                assert(r[d] == a[d]);
                                assert(r[d + 1] == a[d + 1]);
                                assert(r[d + 2] == a[d + 2]);
                                assert(r[d + 3] == a[d + 3]);
                            }
                        }
                    }
                } else {
                    assert((g.width * g.height) as nat == 0) by (nonlinear_arith)
                        requires
                            w == 0 || h == 0,
                            w == g.width,
                            h == g.height,
                    ;
                    assert(r == a);
                }
            },
            _ => {
                assert(atlas_after(glyphs, n) == a);
            },
        }
    }
}

} // verus!
