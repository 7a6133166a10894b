//! Choosing the queue families a Vulkan device draws and presents with.
use vstd::prelude::*;

verus! {

/// The queue families found so far; `-1` stands for none yet.
pub struct QueueFamilyIndices {
    pub graphics_family: i32,
    pub present_family: i32,
}

impl QueueFamilyIndices {
    /// Neither family found.
    pub fn new() -> (r: Self)
        ensures
            r.graphics_family == -1,
            r.present_family == -1,
    {
        QueueFamilyIndices { graphics_family: -1, present_family: -1 }
    }

    /// Both families were found.
    pub fn is_complete(&self) -> (r: bool)
        ensures
            r == (self.graphics_family >= 0 && self.present_family >= 0),
    {
        self.graphics_family >= 0 && self.present_family >= 0
    }
}

/// What the scan of queue families finds from family `i` on, having found
/// `g` and `p` so far: the scan stops at the first family by which both a
/// graphics family and a presenting family have been seen, each the last such
/// family up to there.
pub open spec fn scan_families(families: Seq<(bool, bool)>, i: int, g: int, p: int) -> (int, int)
    decreases families.len() - i,
{
    if i >= families.len() || i < 0 {
        (g, p)
    } else {
        let g2 = if families[i].0 { i } else { g };
        let p2 = if families[i].1 { i } else { p };
        if g2 >= 0 && p2 >= 0 {
            (g2, p2)
        } else {
            scan_families(families, i + 1, g2, p2)
        }
    }
}

/// Picks the queue families to draw and present with. Family `i` is given as
/// (supports graphics, can present to the surface).
pub fn find_queue_families(families: &[(bool, bool)]) -> (r: QueueFamilyIndices)
    requires
        families@.len() <= i32::MAX,
    ensures
        (r.graphics_family as int, r.present_family as int) == scan_families(families@, 0, -1, -1),
{
    let mut indices = QueueFamilyIndices::new();
    let mut i: usize = 0;
    while i < families.len()
        invariant
            i <= families@.len() <= i32::MAX,
            -1 <= indices.graphics_family < i,
            -1 <= indices.present_family < i,
            !(indices.graphics_family >= 0 && indices.present_family >= 0),
            scan_families(families@, i as int, indices.graphics_family as int, indices.present_family as int)
                == scan_families(families@, 0, -1, -1),
        decreases families@.len() - i,
    {
        let (graphics, present) = families[i];
        if graphics {
            indices.graphics_family = i as i32;
        }
        if present {
            indices.present_family = i as i32;
        }
        if indices.is_complete() {
            return indices;
        }
        i = i + 1;
    }
    indices
}

} // verus!
