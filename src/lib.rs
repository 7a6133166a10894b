use vstd::prelude::*;

pub mod names;
pub mod store;
pub mod frame;
pub mod models;
pub mod output;
pub mod queue_family;
pub mod resources;
pub mod swapchain;

verus! {

/// Capacity of the light block.
pub const MAX_LIGHTS: usize = 128;

/// Capacity of the instance buffer.
pub const MAX_INSTANCES: usize = 131072;

/// Which kind of output a renderer draws into.
#[derive(PartialEq, Eq, Structural, Clone, Copy, Debug)]
pub enum RenderMode {
    Window,
    Headless,
}

} // verus!
