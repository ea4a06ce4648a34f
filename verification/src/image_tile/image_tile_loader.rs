//! Deciding, tile by tile, which image tiles to request and which to build
//! from loaded image data.

use vstd::prelude::*;

use crate::image_tile::mercator::TileCoordinate;
use crate::message_bridge::messages::ImageTileLoaded;
use crate::message_bridge::SceneToEmbedderMessages;

verus! {

/// The loading state of the image tile.
#[derive(Clone, Copy, Debug, PartialEq, Eq, Structural)]
pub enum ImageTileState {
    /// The image tile is currently loaded and visible.
    Loaded,
    /// The image tile is currently loading.
    Loading,
    /// The image tile is uninitialized and not visible.
    Uninitialized,
}

/// A drawable image tile.
#[derive(Clone, Copy, Debug, PartialEq, Eq, Structural)]
pub struct ImageTile {
    /// The coordinate of the image tile.
    pub coordinate: TileCoordinate,
}

/// What happens to one image tile during an update.
#[derive(Clone, Copy, Debug, PartialEq, Eq, Structural)]
pub enum TileLoadStep {
    /// Nothing: the tile is loaded, or still waits for its image data.
    Unchanged,
    /// The tile is built from the image data of the loaded-tile message with
    /// this index, and becomes loaded.
    Build(usize),
    /// The tile's image is requested from the embedder, and the tile becomes
    /// loading.
    Request,
}

/// The index of the last of the first `n` messages that carries `tile`.
pub open spec fn last_message_for(loaded: Seq<ImageTileLoaded>, tile: TileCoordinate, n: nat) -> Option<int>
    decreases n,
{
    if n == 0 {
        None
    } else if loaded[n - 1].0 == tile {
        Some(n - 1)
    } else {
        last_message_for(loaded, tile, (n - 1) as nat)
    }
}

/// The message index found for a tile is the last of the first `n` messages
/// whose tile equals it in X, Y and level of detail; none is found exactly
/// when no such message exists.
pub proof fn lemma_last_message_for_is_last_match(loaded: Seq<ImageTileLoaded>, tile: TileCoordinate, n: nat)
    requires
        n <= loaded.len(),
    ensures
        match last_message_for(loaded, tile, n) {
            Some(m) => {
                &&& 0 <= m < n
                &&& loaded[m].0 == tile
                &&& forall|j: int| m < j < n ==> #[trigger] loaded[j].0 != tile
            },
            None => forall|j: int| 0 <= j < n ==> #[trigger] loaded[j].0 != tile,
        },
    decreases n,
{
    if n > 0 {
        lemma_last_message_for_is_last_match(loaded, tile, (n - 1) as nat);
    }
}

/// What happens to a tile in `state` at `tile`, given the loaded-tile
/// messages of this update: when several messages carry the tile, the last
/// one counts.
pub open spec fn load_step(state: ImageTileState, tile: TileCoordinate, loaded: Seq<ImageTileLoaded>) -> TileLoadStep {
    match state {
        ImageTileState::Loaded => TileLoadStep::Unchanged,
        ImageTileState::Loading => match last_message_for(loaded, tile, loaded.len()) {
            Some(m) => TileLoadStep::Build(m as usize),
            None => TileLoadStep::Unchanged,
        },
        ImageTileState::Uninitialized => TileLoadStep::Request,
    }
}

/// The state of a tile in `state` after `step`.
pub open spec fn state_after_spec(state: ImageTileState, step: TileLoadStep) -> ImageTileState {
    match step {
        TileLoadStep::Unchanged => state,
        TileLoadStep::Build(_) => ImageTileState::Loaded,
        TileLoadStep::Request => ImageTileState::Loading,
    }
}

/// The state of a tile in `state` after `step`.
pub fn state_after(state: ImageTileState, step: TileLoadStep) -> (next: ImageTileState)
    ensures
        next == state_after_spec(state, step),
{
    match step {
        TileLoadStep::Unchanged => state,
        TileLoadStep::Build(_) => ImageTileState::Loaded,
        TileLoadStep::Request => ImageTileState::Loading,
    }
}

/// How far a tile in `state` has come: uninitialized, then loading, then
/// loaded.
pub open spec fn progress(state: ImageTileState) -> int {
    match state {
        ImageTileState::Uninitialized => 0,
        ImageTileState::Loading => 1,
        ImageTileState::Loaded => 2,
    }
}

/// A tile never goes back: after an update it has come at least as far as
/// before, it is no longer uninitialized, and a loading tile whose image
/// arrived is loaded.
pub proof fn lemma_load_step_progresses(state: ImageTileState, tile: TileCoordinate, loaded: Seq<ImageTileLoaded>)
    ensures
        progress(state_after_spec(state, load_step(state, tile, loaded))) >= progress(state),
        state_after_spec(state, load_step(state, tile, loaded)) != ImageTileState::Uninitialized,
        state == ImageTileState::Loading && last_message_for(loaded, tile, loaded.len()) is Some
            ==> state_after_spec(state, load_step(state, tile, loaded)) == ImageTileState::Loaded,
{
}

/// The coordinates of the first `n` tiles whose state is uninitialized, in order.
pub open spec fn tiles_to_request(tiles: Seq<(ImageTile, ImageTileState)>, n: nat) -> Seq<TileCoordinate>
    decreases n,
{
    if n == 0 {
        Seq::empty()
    } else {
        let before = tiles_to_request(tiles, (n - 1) as nat);
        if tiles[n - 1].1 == ImageTileState::Uninitialized {
            before.push(tiles[n - 1].0.coordinate)
        } else {
            before
        }
    }
}

/// The coordinates of the uninitialized tiles, in order.
pub open spec fn uninitialized_coordinate(entry: (ImageTile, ImageTileState)) -> Option<TileCoordinate> {
    if entry.1 == ImageTileState::Uninitialized {
        Some(entry.0.coordinate)
    } else {
        None
    }
}

/// The tiles requested among the first `n` are the coordinates of the
/// uninitialized ones among them, in their order.
pub proof fn lemma_tiles_to_request_are_uninitialized(tiles: Seq<(ImageTile, ImageTileState)>, n: nat)
    requires
        n <= tiles.len(),
    ensures
        tiles_to_request(tiles, n) == tiles.take(n as int).filter_map(
            |entry: (ImageTile, ImageTileState)| uninitialized_coordinate(entry),
        ),
    decreases n,
{
    let f = |entry: (ImageTile, ImageTileState)| uninitialized_coordinate(entry);
    if n == 0 {
        assert(tiles.take(0).filter_map(f) =~= Seq::empty());
    } else {
        lemma_tiles_to_request_are_uninitialized(tiles, (n - 1) as nat);
        let t = tiles.take(n as int);
        assert(t.drop_last() =~= tiles.take(n - 1));
        assert(t.last() == tiles[n - 1]);
        assert(t.filter_map(f) == match f(t.last()) {
            Some(c) => t.drop_last().filter_map(f) + seq![c],
            None => t.drop_last().filter_map(f),
        });
        if tiles[n - 1].1 == ImageTileState::Uninitialized {
            assert(tiles_to_request(tiles, n) =~= t.filter_map(f));
        }
    }
}

/// What to do with the image tiles during one update.
pub struct TileLoadPlan {
    /// For each tile, what happens to it.
    pub steps: Vec<TileLoadStep>,
    /// The request for the images of the uninitialized tiles, if there are any.
    pub request: Option<SceneToEmbedderMessages>,
}

/// The index of the last message that carries `tile`.
fn last_message_index(loaded: &Vec<ImageTileLoaded>, tile: &TileCoordinate) -> (index: Option<usize>)
    ensures
        match index {
            Some(m) => last_message_for(loaded@, *tile, loaded.len() as nat) == Some(m as int),
            None => last_message_for(loaded@, *tile, loaded.len() as nat) is None,
        },
        match index {
            Some(m) => {
                &&& m < loaded.len()
                &&& loaded@[m as int].0 == *tile
                &&& forall|j: int| m < j < loaded.len() ==> #[trigger] loaded@[j].0 != *tile
            },
            None => forall|j: int| 0 <= j < loaded.len() ==> #[trigger] loaded@[j].0 != *tile,
        },
{
    proof {
        lemma_last_message_for_is_last_match(loaded@, *tile, loaded.len() as nat);
    }
    let mut n: usize = loaded.len();
    while n > 0
        invariant
            n <= loaded.len(),
            last_message_for(loaded@, *tile, loaded.len() as nat) == last_message_for(loaded@, *tile, n as nat),
        decreases n,
    {
        if loaded[n - 1].0 == *tile {
            proof {
                assert(last_message_for(loaded@, *tile, n as nat) == Some((n - 1) as int));
                lemma_last_message_for_is_last_match(loaded@, *tile, loaded.len() as nat);
            }
            return Some(n - 1);
        }
        n = n - 1;
    }
    None
}

/// Plans one update of the image tiles from their states and the image data
/// that the embedder has loaded since the last update.
///
/// A loaded tile stays as it is; a loading tile is built from the last
/// message that carries its image, or keeps waiting; an uninitialized tile
/// is requested. The requests of all tiles go in one message, and no
/// message is sent when there is nothing to request.
pub fn plan_tile_loading(tiles: &Vec<(ImageTile, ImageTileState)>, loaded: &Vec<ImageTileLoaded>) -> (plan: TileLoadPlan)
    ensures
        plan.steps.len() == tiles.len(),
        forall|i: int|
            0 <= i < tiles.len() ==> plan.steps@[i] == load_step(
                #[trigger] tiles@[i].1,
                tiles@[i].0.coordinate,
                loaded@,
            ),
        match plan.request {
            Some(SceneToEmbedderMessages::RequestImageTile(requested)) => {
                &&& requested@ == tiles_to_request(tiles@, tiles.len() as nat)
                &&& requested@.len() > 0
            },
            None => tiles_to_request(tiles@, tiles.len() as nat).len() == 0,
        },
        forall|i: int|
            0 <= i < tiles.len() ==> match #[trigger] plan.steps@[i] {
                TileLoadStep::Build(m) => {
                    &&& tiles@[i].1 == ImageTileState::Loading
                    &&& m < loaded.len()
                    &&& loaded@[m as int].0 == tiles@[i].0.coordinate
                    &&& forall|j: int| m < j < loaded.len() ==> loaded@[j].0 != tiles@[i].0.coordinate
                },
                TileLoadStep::Request => tiles@[i].1 == ImageTileState::Uninitialized,
                TileLoadStep::Unchanged => {
                    ||| tiles@[i].1 == ImageTileState::Loaded
                    ||| {
                        &&& tiles@[i].1 == ImageTileState::Loading
                        &&& forall|j: int| 0 <= j < loaded.len() ==> loaded@[j].0 != tiles@[i].0.coordinate
                    }
                },
            },
        match plan.request {
            Some(SceneToEmbedderMessages::RequestImageTile(requested)) => {
                &&& requested@ == tiles@.filter_map(
                    |entry: (ImageTile, ImageTileState)| uninitialized_coordinate(entry),
                )
                &&& requested@.len() > 0
            },
            None => forall|i: int| 0 <= i < tiles.len() ==> #[trigger] tiles@[i].1 != ImageTileState::Uninitialized,
        },
{
    let mut steps: Vec<TileLoadStep> = Vec::new();
    let mut requested: Vec<TileCoordinate> = Vec::new();
    let mut i: usize = 0;
    while i < tiles.len()
        invariant
            i <= tiles.len(),
            steps.len() == i,
            forall|k: int|
                0 <= k < i ==> steps@[k] == load_step(#[trigger] tiles@[k].1, tiles@[k].0.coordinate, loaded@),
            forall|k: int|
                0 <= k < i ==> match #[trigger] steps@[k] {
                    TileLoadStep::Build(m) => {
                        &&& tiles@[k].1 == ImageTileState::Loading
                        &&& m < loaded.len()
                        &&& loaded@[m as int].0 == tiles@[k].0.coordinate
                        &&& forall|j: int| m < j < loaded.len() ==> loaded@[j].0 != tiles@[k].0.coordinate
                    },
                    TileLoadStep::Request => tiles@[k].1 == ImageTileState::Uninitialized,
                    TileLoadStep::Unchanged => {
                        ||| tiles@[k].1 == ImageTileState::Loaded
                        ||| {
                            &&& tiles@[k].1 == ImageTileState::Loading
                            &&& forall|j: int| 0 <= j < loaded.len() ==> loaded@[j].0 != tiles@[k].0.coordinate
                        }
                    },
                },
            requested@ == tiles_to_request(tiles@, i as nat),
            requested@.len() == 0 ==> forall|k: int| 0 <= k < i ==> #[trigger] tiles@[k].1 != ImageTileState::Uninitialized,
        decreases tiles.len() - i,
    {
        let (tile, state) = tiles[i];
        let step = match state {
            ImageTileState::Loaded => TileLoadStep::Unchanged,
            ImageTileState::Loading => match last_message_index(loaded, &tile.coordinate) {
                Some(m) => TileLoadStep::Build(m),
                None => TileLoadStep::Unchanged,
            },
            ImageTileState::Uninitialized => {
                requested.push(tile.coordinate);
                TileLoadStep::Request
            },
        };
        steps.push(step);
        i = i + 1;
    }
    proof {
        lemma_tiles_to_request_are_uninitialized(tiles@, tiles.len() as nat);
        assert(tiles@.take(tiles.len() as int) == tiles@);
    }
    let request = if requested.len() > 0 {
        Some(SceneToEmbedderMessages::RequestImageTile(requested))
    } else {
        None
    };
    TileLoadPlan { steps, request }
}

} // verus!
