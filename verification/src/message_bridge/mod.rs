//! The messages exchanged between the scene and the outside world.

use vstd::prelude::*;

use crate::image_tile::mercator::TileCoordinate;

pub mod messages;

pub use messages::EmbedderToSceneMessages;

verus! {

/// A message that is sent from the scene to the embedder.
#[derive(Clone, Debug, PartialEq, Eq)]
pub enum SceneToEmbedderMessages {
    /// A message to request image tiles, in the order given.
    RequestImageTile(Vec<TileCoordinate>),
}

/// The plugin for the message bridge.
pub struct MessageBridgePlugin;

} // verus!
