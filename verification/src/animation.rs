//! Frame bookkeeping of sprite-sheet animation: the grid of a sheet, the
//! frames of a clip and how playback steps from one frame to the next.
//!
//! Frames are numbered row-major: frame `i` of a sheet with `c` columns sits
//! in column `i % c` of row `i / c`.
use vstd::prelude::*;

verus! {

/// The grid of a uniform sprite sheet: how many frames across and down.
#[derive(Clone, Copy, Debug, PartialEq, Eq, Structural)]
pub struct SpriteSheet {
    pub columns: u32,
    pub rows: u32,
}

impl SpriteSheet {
    /// A sheet of `columns` by `rows` frames.
    pub fn new(columns: u32, rows: u32) -> (r: Self)
        ensures
            r.columns == columns,
            r.rows == rows,
    {
        SpriteSheet { columns, rows }
    }

    /// Total number of frames in the sheet.
    pub fn frame_count(&self) -> (r: u32)
        requires
            self.columns * self.rows <= u32::MAX,
        ensures
            r == self.columns * self.rows,
    {
        self.columns * self.rows
    }

    /// The column and row of frame `index`.
    pub fn frame_cell(&self, index: u32) -> (r: (u32, u32))
        requires
            self.columns > 0,
        ensures
            r.0 == index % self.columns,
            r.1 == index / self.columns,
            r.0 < self.columns,
            r.1 * self.columns + r.0 == index,
    {
        let col = index % self.columns;
        let row = index / self.columns;
        proof {
            vstd::arithmetic::div_mod::lemma_fundamental_div_mod(index as int, self.columns as int);
            assert(row * self.columns == self.columns * row) by (nonlinear_arith);
        }
        (col, row)
    }

    /// The frames of the whole sheet, in order: `0` through
    /// `frame_count - 1`.
    pub fn all_frames(&self) -> (r: Vec<u32>)
        requires
            self.columns * self.rows <= u32::MAX,
        ensures
            r@ == frames_between(0, self.columns * self.rows),
    {
        let n = self.frame_count();
        frames_upto(0, n)
    }
}

/// The frames `first`, `first + 1`, ... up to and excluding `end`.
pub open spec fn frames_between(first: int, end: int) -> Seq<u32> {
    Seq::new(if first < end { (end - first) as nat } else { 0 }, |i: int| (first + i) as u32)
}

/// The frames `first` up to and excluding `end`, in order.
fn frames_upto(first: u32, end: u32) -> (r: Vec<u32>)
    ensures
        r@ == frames_between(first as int, end as int),
{
    let mut v: Vec<u32> = Vec::new();
    let mut f: u32 = first;
    if first < end {
        while f < end
            invariant
                first <= f <= end,
                v@ == frames_between(first as int, f as int),
            decreases end - f,
        {
            v.push(f);
            f = f + 1;
            assert(v@ =~= frames_between(first as int, f as int));
        }
    }
    assert(v@ =~= frames_between(first as int, end as int));
    v
}

/// The frames `first` through `last`, both included, in order; none when
/// `first` comes after `last`.
pub fn frame_range(first: u32, last: u32) -> (r: Vec<u32>)
    ensures
        r@ == frames_between(first as int, last + 1),
{
    let mut v = frames_upto(first, last);
    if first <= last {
        v.push(last);
        assert(v@ =~= frames_between(first as int, last + 1));
    } else {
        assert(v@ =~= frames_between(first as int, last + 1));
    }
    v
}

/// Where playback stands after moving one frame on from `current` in a clip
/// of `len` frames: the next frame, or at the end either back to the first
/// frame (a looping clip) or held on the last frame with the clip finished.
pub open spec fn next_frame(current: int, len: int, looping: bool) -> (int, bool) {
    if current + 1 < len {
        (current + 1, false)
    } else if looping {
        (0, false)
    } else {
        (len - 1, true)
    }
}

/// Moves playback one frame on from `current` in a clip of `len` frames.
/// Returns the new frame position and whether the clip has finished.
pub fn step_frame(current: usize, len: usize, looping: bool) -> (r: (usize, bool))
    requires
        len > 0,
        current < usize::MAX,
    ensures
        (r.0 as int, r.1) == next_frame(current as int, len as int, looping),
        r.0 < len,
        current + 1 < len ==> r.0 == current + 1 && !r.1,
        current + 1 >= len && looping ==> r.0 == 0 && !r.1,
        current + 1 >= len && !looping ==> r.0 == len - 1 && r.1,
{
    let next = current + 1;
    if next >= len {
        if looping {
            (0, false)
        } else {
            (len - 1, true)
        }
    } else {
        (next, false)
    }
}

/// Where playback stands after `n` single-frame moves from `current`,
/// stopping once a clip has finished.
pub open spec fn frame_after(current: int, len: int, looping: bool, n: nat) -> (int, bool)
    decreases n,
{
    if n == 0 {
        (current, false)
    } else {
        let (c, done) = frame_after(current, len, looping, (n - 1) as nat);
        if done {
            (c, done)
        } else {
            next_frame(c, len, looping)
        }
    }
}

/// A looping clip never finishes, and after `n` single-frame moves from
/// `current` it shows frame `(current + n) % len`: it runs through the
/// frames in order and starts over after the last.
pub proof fn law_looping_clip_cycles(current: int, len: int, n: nat)
    requires
        0 <= current < len,
    ensures
        frame_after(current, len, true, n) == ((current + n) % len, false),
    decreases n,
{
    if n == 0 {
        vstd::arithmetic::div_mod::lemma_small_mod(current as nat, len as nat);
    } else {
        law_looping_clip_cycles(current, len, (n - 1) as nat);
        let c = (current + n - 1) % len;
        vstd::arithmetic::div_mod::lemma_add_mod_noop_right(1, current + n - 1, len);
        assert(1 + (current + n - 1) == current + n);
        vstd::arithmetic::div_mod::lemma_mod_bound(current + n - 1, len);
        if c + 1 < len {
            vstd::arithmetic::div_mod::lemma_small_mod((c + 1) as nat, len as nat);
        } else {
            vstd::arithmetic::div_mod::lemma_mod_self_0(len);
        }
    }
}

/// A clip that does not loop finishes on its last frame once it has moved
/// past it, and stays there: after `n` single-frame moves from `current`,
/// with `n` at least the frames left, playback holds the last frame,
/// finished; before that it shows frame `current + n`.
pub proof fn law_clip_finishes_on_last_frame(current: int, len: int, n: nat)
    requires
        0 <= current < len,
    ensures
        current + n < len ==> frame_after(current, len, false, n) == (current + n, false),
        current + n >= len ==> frame_after(current, len, false, n) == (len - 1, true),
    decreases n,
{
    if n > 0 {
        law_clip_finishes_on_last_frame(current, len, (n - 1) as nat);
    }
}

} // verus!
