//! Scene-graph traits: a scene is a collection of components to be
//! rendered, modified only through update transactions, with camera
//! components as the link to output targets.

use vstd::prelude::*;

verus! {

/// Identifier of a scene. Identifiers are never zero, so a zeroed word can
/// stand for "no scene".
#[derive(Clone, Copy, PartialEq, Eq, Structural, Hash, Debug)]
pub struct SceneId {
    /// The raw identifier value; always at least 1.
    pub value: u64,
}

impl SceneId {
    /// Wraps a raw identifier. The caller hands out each value once.
    pub fn from_raw(value: u64) -> (r: SceneId)
        requires
            value >= 1,
        ensures
            r.value == value,
    {
        SceneId { value }
    }

    /// The raw identifier value.
    pub fn get_raw(&self) -> (r: u64)
        ensures
            r == self.value,
    {
        self.value
    }
}

/// Identifier of a scene component, unique among all components.
#[derive(Clone, Copy, PartialEq, Eq, Structural, Hash, Debug)]
pub struct ComponentId {
    /// The raw identifier value; always at least 1.
    pub value: u64,
}

impl ComponentId {
    /// Wraps a raw identifier. The caller hands out each value once.
    pub fn from_raw(value: u64) -> (r: ComponentId)
        requires
            value >= 1,
        ensures
            r.value == value,
    {
        ComponentId { value }
    }

    /// The raw identifier value.
    pub fn get_raw(&self) -> (r: u64)
        ensures
            r == self.value,
    {
        self.value
    }
}

/// A scene: a collection of components defining a world to be rendered.
/// All modifications happen inside an update transaction; the update is
/// submitted when the transaction value is dropped, so rendering never sees
/// a half-finished state.
pub trait Scene {
    /// The update transaction type of this scene.
    type Update;

    /// The identifier of this scene.
    fn get_scene_id(&self) -> SceneId;

    /// Starts a new update. Fails when an update is already in progress.
    fn begin_update(&self) -> Result<Self::Update, ()>;
}

/// An update transaction on a scene: new components are created through it,
/// and existing components are modified while it is alive.
pub trait SceneUpdate {
    /// The camera component type this update can create.
    type Camera;

    /// The identifier of the scene being updated.
    fn get_scene_id(&self) -> SceneId;

    /// Creates a new camera component in the scene.
    fn create_camera_component(&self) -> Self::Camera;
}

/// A component that is part of a scene. A component keeps its parent alive
/// but not its children.
pub trait SceneComponent {
    /// The update transaction type of the owning scene.
    type Update;

    /// The identifier of this component.
    fn get_component_id(&self) -> ComponentId;

    /// Removes this component from the scene graph.
    fn destroy(&mut self, update: &Self::Update);
}

/// A camera component: the point of view an output target renders from.
pub trait CameraComponent: SceneComponent {

}

} // verus!
