use std::sync::Arc;

use dyto_scene::image_tile::image_tile_loader::{plan_tile_loading, state_after, ImageTile, ImageTileState, TileLoadStep};
use dyto_scene::image_tile::mercator::{LevelOfDetail, TileCoordinate};
use dyto_scene::message_bridge::messages::ImageTileLoaded;
use dyto_scene::message_bridge::SceneToEmbedderMessages;

fn tile(x: u32, y: u32) -> TileCoordinate {
    TileCoordinate::new(x, y, LevelOfDetail::new(3))
}

fn loaded(t: TileCoordinate, byte: u8) -> ImageTileLoaded {
    ImageTileLoaded(t, Arc::from(vec![byte; 4]))
}

#[test]
fn plan_requests_uninitialized_and_builds_loading_tiles() {
    let tiles = vec![
        (ImageTile { coordinate: tile(0, 0) }, ImageTileState::Loaded),
        (ImageTile { coordinate: tile(1, 0) }, ImageTileState::Loading),
        (ImageTile { coordinate: tile(2, 0) }, ImageTileState::Uninitialized),
        (ImageTile { coordinate: tile(3, 0) }, ImageTileState::Loading),
        (ImageTile { coordinate: tile(4, 0) }, ImageTileState::Uninitialized),
    ];
    let messages = vec![loaded(tile(1, 0), 1), loaded(tile(9, 9), 2), loaded(tile(1, 0), 3)];
    let plan = plan_tile_loading(&tiles, &messages);
    assert_eq!(
        plan.steps,
        vec![
            TileLoadStep::Unchanged,
            TileLoadStep::Build(2),
            TileLoadStep::Request,
            TileLoadStep::Unchanged,
            TileLoadStep::Request,
        ]
    );
    assert_eq!(plan.request, Some(SceneToEmbedderMessages::RequestImageTile(vec![tile(2, 0), tile(4, 0)])));
}

#[test]
fn plan_sends_no_request_when_nothing_is_uninitialized() {
    let tiles = vec![(ImageTile { coordinate: tile(0, 0) }, ImageTileState::Loading)];
    let plan = plan_tile_loading(&tiles, &Vec::new());
    assert_eq!(plan.steps, vec![TileLoadStep::Unchanged]);
    assert_eq!(plan.request, None);
}

#[test]
fn states_progress() {
    assert_eq!(state_after(ImageTileState::Uninitialized, TileLoadStep::Request), ImageTileState::Loading);
    assert_eq!(state_after(ImageTileState::Loading, TileLoadStep::Build(0)), ImageTileState::Loaded);
    assert_eq!(state_after(ImageTileState::Loading, TileLoadStep::Unchanged), ImageTileState::Loading);
    assert_eq!(state_after(ImageTileState::Loaded, TileLoadStep::Unchanged), ImageTileState::Loaded);
}
