//! Verified core of a map-tile scene: the Web Mercator tile grid, the
//! bookkeeping that decides which image tiles must be spawned, requested,
//! loaded or despawned, and the wire format used to talk to the embedder.

pub mod image_tile;
pub mod message_bridge;
pub mod embedder;
pub mod scene_camera;
