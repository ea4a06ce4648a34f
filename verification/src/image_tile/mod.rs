//! Image tiles: the tile grid and the bookkeeping around tile entities.

use vstd::prelude::*;

pub mod image_tile_loader;
pub mod manageable_image_tile;
pub mod mercator;

pub use image_tile_loader::{ImageTile, ImageTileState};
pub use manageable_image_tile::ManageableImageTile;

verus! {

/// System sets for image tiles.
#[derive(Clone, Copy, Debug, PartialEq, Eq, Hash, Structural)]
pub enum ImageTileSystem {
    /// Manage the image tiles.
    ManageImageTiles,
    /// Load the image tiles.
    LoadImageTiles,
}

/// The plugin for managing image tiles.
pub struct ImageTilePlugin;

} // verus!
