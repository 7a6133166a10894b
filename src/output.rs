//! The two kinds of frame output: a presentable surface, or an offscreen
//! target read back through a buffer whose rows are padded to the GPU's copy
//! alignment.
use vstd::prelude::*;
use crate::RenderMode;

verus! {

/// Bytes per row of the readback buffer for rows of `unpadded` bytes: the
/// least multiple of `align` that is at least `unpadded`.
pub fn padded_bytes_per_row(width: u32, bytes_per_pixel: u32, align: u32) -> (r: u32)
    requires
        align > 0,
        width * bytes_per_pixel + align <= u32::MAX,
    ensures
        r % align == 0,
        width * bytes_per_pixel <= r < width * bytes_per_pixel + align,
{
    let unpadded = width * bytes_per_pixel;
    let padding = (align - unpadded % align) % align;
    proof {
        let u = unpadded as int;
        let a = align as int;
        assert((u + (a - u % a) % a) % a == 0) by (nonlinear_arith)
            requires
                a > 0,
                u >= 0,
        {
            vstd::arithmetic::div_mod::lemma_fundamental_div_mod(u, a);
            vstd::arithmetic::div_mod::lemma_mod_bound(u, a);
            if u % a == 0 {
                assert((a - u % a) % a == 0) by {
                    vstd::arithmetic::div_mod::lemma_mod_self_0(a);
                }
            } else {
                vstd::arithmetic::div_mod::lemma_small_mod((a - u % a) as nat, a as nat);
                assert(u + (a - u % a) == a * (u / a) + a);
                vstd::arithmetic::div_mod::lemma_mod_multiples_basic(u / a + 1, a);
                assert(a * (u / a) + a == (u / a + 1) * a) by (nonlinear_arith);
            }
        }
    }
    unpadded + padding
}

/// The rows `0..rows` of a padded image, each cut to its first `row` bytes
/// and laid end to end.
pub open spec fn unpadded(padded: Seq<u8>, row: int, stride: int, rows: int) -> Seq<u8>
    decreases rows,
{
    if rows <= 0 {
        seq![]
    } else {
        unpadded(padded, row, stride, rows - 1) + padded.subrange(
            (rows - 1) * stride,
            (rows - 1) * stride + row,
        )
    }
}

proof fn lemma_unpadded_len(padded: Seq<u8>, row: int, stride: int, rows: int)
    requires
        0 <= row <= stride,
        0 <= rows,
        rows * stride <= padded.len(),
    ensures
        unpadded(padded, row, stride, rows).len() == rows * row,
    decreases rows,
{
    if rows > 0 {
        assert((rows - 1) * stride <= rows * stride) by (nonlinear_arith)
            requires
                rows > 0,
                stride >= 0,
        ;
        assert((rows - 1) * stride + stride == rows * stride) by (nonlinear_arith);
        assert(0 <= (rows - 1) * stride) by (nonlinear_arith)
            requires
                rows > 0,
                stride >= 0,
        ;
        let s0 = (rows - 1) * stride;
        assert(padded.subrange(s0, s0 + row).len() == row);
        lemma_unpadded_len(padded, row, stride, rows - 1);
        assert((rows - 1) * row + row == rows * row) by (nonlinear_arith);
    } else {
        assert(rows * row == 0) by (nonlinear_arith)
            requires
                rows == 0,
        ;
    }
}

/// Strips the row padding from a read-back image: `height` rows of
/// `padded_bytes_per_row` bytes, of which the first `width * bytes_per_pixel`
/// are pixels. The result is the tightly packed image.
pub fn unpad_rows(
    padded: &[u8],
    width: u32,
    height: u32,
    padded_bytes_per_row: u32,
    bytes_per_pixel: u32,
) -> (r: Vec<u8>)
    requires
        width * bytes_per_pixel <= padded_bytes_per_row,
        height * padded_bytes_per_row <= padded@.len(),
    ensures
        r@ == unpadded(
            padded@,
            width * bytes_per_pixel,
            padded_bytes_per_row as int,
            height as int,
        ),
        r@.len() == width * height * bytes_per_pixel,
{
    let row = (width * bytes_per_pixel) as usize;
    let stride = padded_bytes_per_row as usize;
    let ghost p = padded@;
    let plen = padded.len();
    let mut out: Vec<u8> = Vec::new();
    let mut y: usize = 0;
    while y < height as usize
        invariant
            y <= height,
            row == width * bytes_per_pixel,
            stride == padded_bytes_per_row,
            row <= stride,
            p == padded@,
            height * stride <= p.len(),
            plen == p.len(),
            out@ == unpadded(p, row as int, stride as int, y as int),
        decreases height - y,
    {
        assert(y * stride + stride <= height * stride) by (nonlinear_arith)
            requires
                y < height,
                stride >= 0,
        ;
        let start = y * stride;
        let mut x: usize = 0;
        while x < row
            invariant
                x <= row,
                row <= stride,
                start == y * stride,
                start + stride <= p.len(),
                plen == p.len(),
                p == padded@,
                out@ == unpadded(p, row as int, stride as int, y as int) + p.subrange(
                    start as int,
                    start + x,
                ),
            decreases row - x,
        {
            out.push(padded[start + x]);
            assert(p.subrange(start as int, start + x + 1) =~= p.subrange(start as int, start + x).push(
                p[start + x],
            ));
            x = x + 1;
        }
        y = y + 1;
    }
    proof {
        lemma_unpadded_len(p, row as int, stride as int, height as int);
        assert(height * (width * bytes_per_pixel) == width * height * bytes_per_pixel) by (nonlinear_arith);
    }
    out
}

/// The size of a renderer's output, and for an offscreen target the stride
/// of its readback buffer.
#[derive(PartialEq, Eq, Structural, Clone, Copy, Debug)]
pub enum OutputSize {
    Surface { width: u32, height: u32 },
    Buffer { width: u32, height: u32, padded_bytes_per_row: u32 },
}

impl OutputSize {
    /// The width and height of the output.
    pub fn size(&self) -> (r: (u32, u32))
        ensures
            r == match *self {
                OutputSize::Surface { width, height } => (width, height),
                OutputSize::Buffer { width, height, .. } => (width, height),
            },
    {
        match *self {
            OutputSize::Surface { width, height } => (width, height),
            OutputSize::Buffer { width, height, .. } => (width, height),
        }
    }

    /// Takes a new window size. A surface takes any size with no zero side;
    /// an offscreen target keeps the size it was made with. Returns whether
    /// the surface must be reconfigured.
    pub fn resize(&mut self, width: u32, height: u32) -> (r: bool)
        ensures
            r == (*old(self) is Surface && width > 0 && height > 0),
            r ==> *final(self) == (OutputSize::Surface { width, height }),
            !r ==> *final(self) == *old(self),
    {
        match self {
            OutputSize::Surface { width: w, height: h } => {
                if width > 0 && height > 0 {
                    *w = width;
                    *h = height;
                    true
                } else {
                    false
                }
            },
            OutputSize::Buffer { .. } => false,
        }
    }
}

/// Why a frame could not be drawn to a surface.
#[derive(PartialEq, Eq, Structural, Clone, Copy, Debug)]
pub enum SurfaceError {
    Timeout,
    Outdated,
    Lost,
    OutOfMemory,
}

/// What the frame loop does after a frame.
#[derive(PartialEq, Eq, Structural, Clone, Copy, Debug)]
pub enum FrameAction {
    /// Go on with the next frame.
    Continue,
    /// Reconfigure the surface at the window's size, then go on.
    Resize,
    /// Stop the frame loop.
    Exit,
}

/// The frame loop's answer to the outcome of one frame. A lost or outdated
/// surface is reconfigured and the loop goes on; running out of memory ends
/// it; a timeout skips the frame. Offscreen, any failure ends the loop.
pub fn frame_action(mode: RenderMode, outcome: Option<SurfaceError>) -> (r: FrameAction)
    ensures
        outcome is None ==> r == FrameAction::Continue,
        outcome is Some && mode is Headless ==> r == FrameAction::Exit,
        mode is Window ==> (outcome == Some(SurfaceError::Lost) || outcome == Some(SurfaceError::Outdated)
            <==> r == FrameAction::Resize),
        mode is Window ==> (outcome == Some(SurfaceError::OutOfMemory) <==> r == FrameAction::Exit),
        mode is Window && outcome == Some(SurfaceError::Timeout) ==> r == FrameAction::Continue,
{
    match outcome {
        None => FrameAction::Continue,
        Some(e) => match mode {
            RenderMode::Headless => FrameAction::Exit,
            RenderMode::Window => match e {
                SurfaceError::Lost | SurfaceError::Outdated => FrameAction::Resize,
                SurfaceError::OutOfMemory => FrameAction::Exit,
                SurfaceError::Timeout => FrameAction::Continue,
            },
        },
    }
}

} // verus!
