//! Rendering-engine core library.
//!
//! The heart of this crate is [`tlsf`], a multi-pool two-level segregated fit
//! memory allocator that manages caller-supplied backing regions ("pages") and
//! hands out variable-sized blocks in constant time. The remaining modules
//! hold the small engine-facing types and trait skeletons around it: scene
//! graph traits, output targets, the graphics API version value, and canvas
//! geometry.

use vstd::prelude::*;

pub mod api_version;
pub mod bits;
pub mod external_guard;
pub mod output;
pub mod scene;
pub mod size_class;
pub mod tlsf;
pub mod wsi;

verus! {

/// Entry point trait of the engine: a backend that can create scenes.
pub trait Agnaji {
    /// The scene type this backend produces.
    type Scene;

    /// Creates a new empty scene owned by this backend.
    fn create_scene(&self) -> Self::Scene;
}

} // verus!
