//! Choosing the size, presentation mode and image count of a swap chain from
//! what the surface supports.
use vstd::prelude::*;

verus! {

/// The preferred window size when the surface leaves it to the application.
pub const WIDTH: u32 = 800;

pub const HEIGHT: u32 = 600;

/// How images are presented.
#[derive(PartialEq, Eq, Structural, Clone, Copy, Debug)]
pub enum PresentMode {
    Immediate,
    Mailbox,
    Fifo,
}

/// Mailbox when supported, else immediate when supported, else FIFO, which
/// every surface supports.
pub fn choose_swap_present_mode(mailbox: bool, immediate: bool) -> (r: PresentMode)
    ensures
        r == (if mailbox {
            PresentMode::Mailbox
        } else if immediate {
            PresentMode::Immediate
        } else {
            PresentMode::Fifo
        }),
{
    if mailbox {
        PresentMode::Mailbox
    } else if immediate {
        PresentMode::Immediate
    } else {
        PresentMode::Fifo
    }
}

/// `v` brought up to `lo` after being brought down to `hi`.
pub open spec fn clamp_extent(v: u32, lo: u32, hi: u32) -> u32 {
    let down = if hi < v { hi } else { v };
    if lo > down { lo } else { down }
}

/// The swap chain's size: the surface's current size when it has one, else
/// the preferred size fitted to the surface's bounds.
pub fn choose_swap_extent(current: Option<[u32; 2]>, min: [u32; 2], max: [u32; 2]) -> (r: [u32; 2])
    ensures
        current is Some ==> r == current->0,
        current is None ==> r@ == seq![
            clamp_extent(WIDTH, min@[0], max@[0]),
            clamp_extent(HEIGHT, min@[1], max@[1]),
        ],
{
    match current {
        Some(extent) => extent,
        None => {
            let w = if max[0] < WIDTH { max[0] } else { WIDTH };
            let w = if min[0] > w { min[0] } else { w };
            let h = if max[1] < HEIGHT { max[1] } else { HEIGHT };
            let h = if min[1] > h { min[1] } else { h };
            let r = [w, h];
            assert(r@ =~= seq![
                clamp_extent(WIDTH, min@[0], max@[0]),
                clamp_extent(HEIGHT, min@[1], max@[1]),
            ]);
            r
        },
    }
}

/// One image more than the surface's minimum, but no more than its maximum
/// when it has one.
pub fn swap_image_count(min_image_count: u32, max_image_count: Option<u32>) -> (r: u32)
    requires
        min_image_count < u32::MAX,
    ensures
        r == match max_image_count {
            Some(m) => if min_image_count + 1 > m {
                m
            } else {
                (min_image_count + 1) as u32
            },
            None => (min_image_count + 1) as u32,
        },
{
    let mut image_count = min_image_count + 1;
    if let Some(m) = max_image_count {
        if image_count > m {
            image_count = m;
        }
    }
    image_count
}

} // verus!
