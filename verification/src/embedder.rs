//! The flat number arrays in which tiles travel to and from the embedder.
//!
//! A tile travels as three `u32` words: its X coordinate, its Y coordinate
//! and its level of detail.

use vstd::prelude::*;

use crate::image_tile::mercator::{clamp_level, LevelOfDetail, TileCoordinate};
use crate::message_bridge::SceneToEmbedderMessages;

verus! {

/// The number of words that one tile takes.
pub const WORDS_PER_TILE: usize = 3;

/// The words of a sequence of tiles, given by their views, tile after tile.
pub open spec fn tile_words(tiles: Seq<(u32, u32, u8)>) -> Seq<u32> {
    Seq::new(
        3 * tiles.len(),
        |i: int|
            {
                let tile = tiles[i / 3];
                if i % 3 == 0 {
                    tile.0
                } else if i % 3 == 1 {
                    tile.1
                } else {
                    tile.2 as u32
                }
            },
    )
}

/// The view of the tile that three words stand for, if there are exactly
/// three: the level of detail is the last word's low byte, clamped into the
/// range of valid levels.
pub open spec fn tile_of_words(words: Seq<u32>) -> Option<(u32, u32, u8)> {
    if words.len() == 3 {
        Some((words[0], words[1], clamp_level((words[2] % 256) as int) as u8))
    } else {
        None
    }
}

/// The words of the tiles that a request asks for, tile after tile.
pub fn encode_tile_request(message: &SceneToEmbedderMessages) -> (words: Vec<u32>)
    requires
        match message {
            SceneToEmbedderMessages::RequestImageTile(tiles) => 3 * tiles.len() <= usize::MAX,
        },
    ensures
        match message {
            SceneToEmbedderMessages::RequestImageTile(tiles) => words@ == tile_words(
                tiles@.map_values(|tile: TileCoordinate| tile@),
            ),
        },
        match message {
            SceneToEmbedderMessages::RequestImageTile(tiles) => {
                &&& words@.len() == 3 * tiles@.len()
                &&& forall|i: int|
                    0 <= i < tiles@.len() ==> {
                        &&& words@[3 * i] == (#[trigger] tiles@[i])@.0
                        &&& words@[3 * i + 1] == tiles@[i]@.1
                        &&& words@[3 * i + 2] == tiles@[i]@.2 as u32
                    }
            },
        },
{
    match message {
        SceneToEmbedderMessages::RequestImageTile(tiles) => {
            let ghost views = tiles@.map_values(|tile: TileCoordinate| tile@);
            let mut words: Vec<u32> = Vec::new();
            let mut i: usize = 0;
            while i < tiles.len()
                invariant
                    i <= tiles.len(),
                    3 * tiles.len() <= usize::MAX,
                    views == tiles@.map_values(|tile: TileCoordinate| tile@),
                    words@.len() == 3 * i,
                    forall|k: int| 0 <= k < 3 * i ==> words@[k] == #[trigger] tile_words(views)[k],
                decreases tiles.len() - i,
            {
                let tile = &tiles[i];
                words.push(tile.x());
                words.push(tile.y());
                words.push(tile.level_of_detail().value() as u32);
                proof {
                    assert forall|k: int| 3 * i <= k < 3 * i + 3 implies words@[k] == #[trigger] tile_words(views)[k] by {
                        assert(k / 3 == i as int);
                        assert(views[i as int] == tiles@[i as int]@);
                    }
                }
                i = i + 1;
            }
            proof {
                assert(words@ =~= tile_words(views));
                assert forall|j: int| 0 <= j < tiles@.len() implies {
                    &&& words@[3 * j] == (#[trigger] tiles@[j])@.0
                    &&& words@[3 * j + 1] == tiles@[j]@.1
                    &&& words@[3 * j + 2] == tiles@[j]@.2 as u32
                } by {
                    assert((3 * j) / 3 == j && (3 * j) % 3 == 0);
                    assert((3 * j + 1) / 3 == j && (3 * j + 1) % 3 == 1);
                    assert((3 * j + 2) / 3 == j && (3 * j + 2) % 3 == 2);
                    assert(words@[3 * j] == tile_words(views)[3 * j]);
                    assert(words@[3 * j + 1] == tile_words(views)[3 * j + 1]);
                    assert(words@[3 * j + 2] == tile_words(views)[3 * j + 2]);
                }
            }
            words
        },
    }
}

/// The tile that three words stand for, or `None` when there are not
/// exactly three words.
pub fn decode_tile_coordinate(words: &[u32]) -> (tile: Option<TileCoordinate>)
    ensures
        match tile {
            Some(tile) => tile_of_words(words@) == Some(tile@),
            None => tile_of_words(words@) is None,
        },
        tile is Some <==> words@.len() == 3,
        match tile {
            Some(tile) => {
                &&& tile@.0 == words@[0]
                &&& tile@.1 == words@[1]
                &&& tile@.2 == (if words@[2] % 256 < 1 {
                    1
                } else if words@[2] % 256 > 23 {
                    23
                } else {
                    words@[2] % 256
                })
            },
            None => true,
        },
{
    if words.len() != WORDS_PER_TILE {
        return None;
    }
    let word = words[2];
    let level = LevelOfDetail::new(word as u8);
    proof {
        assert((word as u8) == word % 256) by (bit_vector);
    }
    Some(TileCoordinate::new(words[0], words[1], level))
}

/// Every tile of a request comes back as itself from the three words that
/// the request encodes it in.
pub proof fn lemma_request_words_round_trip(tiles: Seq<(u32, u32, u8)>, i: int)
    requires
        0 <= i < tiles.len(),
        1 <= tiles[i].2 <= 23,
    ensures
        tile_of_words(tile_words(tiles).subrange(3 * i, 3 * i + 3)) == Some(tiles[i]),
{
    let words = tile_words(tiles).subrange(3 * i, 3 * i + 3);
    assert(words.len() == 3);
    assert((3 * i) / 3 == i);
    assert((3 * i + 1) / 3 == i);
    assert((3 * i + 2) / 3 == i);
    assert(words[0] == tiles[i].0);
    assert(words[1] == tiles[i].1);
    assert(words[2] == tiles[i].2 as u32);
}

} // verus!
