//! Messages from the embedder to the scene.

use std::sync::Arc;

use vstd::prelude::*;

use crate::image_tile::mercator::TileCoordinate;

verus! {

/// A message to indicate that an image tile has been loaded.
#[derive(Clone, Debug, PartialEq, Eq)]
pub struct ImageTileLoaded(pub TileCoordinate, pub Arc<[u8]>);

/// A message that is sent from the embedder to the scene.
#[derive(Clone, Debug, PartialEq, Eq)]
pub enum EmbedderToSceneMessages {
    /// A message to indicate that an image tile has been loaded.
    ImageTileLoaded(ImageTileLoaded),
}

} // verus!
