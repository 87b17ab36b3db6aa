//! Output targets: the final destination of rendered images.

use vstd::prelude::*;

verus! {

/// An output target defines the ultimate destination of rendered images.
/// Rendering is initiated by the target and driven by the camera component
/// configured on it, which names the scene and draw settings to use.
pub trait OutputTarget {
    /// The camera component type this target renders from.
    type Camera;

    /// Configures the camera used for rendering; `None` clears it.
    fn set_source_camera(&mut self, camera: Option<Self::Camera>);
}

} // verus!
