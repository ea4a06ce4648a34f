# dyto_scene

The core of a map scene that streams aerial image tiles, written in Verus.

- `src/` is the verified library:
  - `image_tile::mercator`: levels of detail (always within 1..=23), map
    sizes and tile coordinates of the Web Mercator tile grid.
  - `image_tile::manageable_image_tile`: the levels a camera loads, the box
    of grid cells under a view, the tiles under that box (wrapping east to
    west, dropping rows off the map), and the plan that keeps, despawns and
    spawns tile entities so that each required tile exists exactly once.
  - `image_tile::image_tile_loader`: the per-tile loading state machine and
    the single request message for uninitialized tiles.
  - `embedder`: the three-word encoding of tiles exchanged with the embedder.
  - `scene_camera`: the button and panning decisions of the movable camera.
- `app/` holds the Bevy systems and plugins, the WebAssembly front end and
  everything that computes with floating-point numbers (projection math,
  ray casts, the view's corners, camera animation).
- `tests/` exercises the library on concrete values.
