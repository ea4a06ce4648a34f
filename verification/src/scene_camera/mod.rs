//! Camera input handling for the scene.

use vstd::prelude::*;

pub mod movable_camera;

verus! {

/// Any camera that should load and unload image tiles.
pub struct ImageTileLoadingCamera;

/// System sets for the scene camera.
#[derive(Clone, Copy, Debug, PartialEq, Eq, Hash, Structural)]
pub enum SceneCameraSystem {
    /// Move the camera.
    MoveCamera,
}

/// The plugin for the scene camera.
pub struct SceneCameraPlugin;

} // verus!
