//! Window-system geometry shared between backends and renderers.

use vstd::prelude::*;

verus! {

/// The size of a canvas in pixels, for example a window's drawable area.
#[derive(Clone, Copy, PartialEq, Eq, Structural, Hash, Debug)]
pub struct CanvasSize {
    /// Width in pixels.
    pub width: u32,
    /// Height in pixels.
    pub height: u32,
}

impl CanvasSize {
    /// A canvas size from its two extents.
    pub fn new(width: u32, height: u32) -> (r: CanvasSize)
        ensures
            r.width == width,
            r.height == height,
    {
        CanvasSize { width, height }
    }
}

} // verus!
