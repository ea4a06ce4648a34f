use dyto_scene::embedder::{decode_tile_coordinate, encode_tile_request};
use dyto_scene::image_tile::mercator::{LevelOfDetail, TileCoordinate};
use dyto_scene::message_bridge::SceneToEmbedderMessages;

fn tile(x: u32, y: u32, level: u8) -> TileCoordinate {
    TileCoordinate::new(x, y, LevelOfDetail::new(level))
}

#[test]
fn encode_flattens_tiles() {
    let message = SceneToEmbedderMessages::RequestImageTile(vec![tile(1, 2, 3), tile(40, 50, 23)]);
    assert_eq!(encode_tile_request(&message), vec![1, 2, 3, 40, 50, 23]);
    assert!(encode_tile_request(&SceneToEmbedderMessages::RequestImageTile(Vec::new())).is_empty());
}

#[test]
fn decode_needs_three_words() {
    assert_eq!(decode_tile_coordinate(&[1, 2]), None);
    assert_eq!(decode_tile_coordinate(&[1, 2, 3, 4]), None);
    assert_eq!(decode_tile_coordinate(&[]), None);
    assert_eq!(decode_tile_coordinate(&[1, 2, 3]), Some(tile(1, 2, 3)));
}

#[test]
fn decode_truncates_and_clamps_the_level() {
    assert_eq!(decode_tile_coordinate(&[1, 2, 0]), Some(tile(1, 2, 1)));
    assert_eq!(decode_tile_coordinate(&[1, 2, 30]), Some(tile(1, 2, 23)));
    assert_eq!(decode_tile_coordinate(&[1, 2, 256 + 5]), Some(tile(1, 2, 5)));
    assert_eq!(decode_tile_coordinate(&[1, 2, 256]), Some(tile(1, 2, 1)));
}

#[test]
fn encoded_request_round_trips() {
    let tiles = vec![tile(0, 0, 1), tile(7, 3, 4), tile(u32::MAX, 12, 23)];
    let words = encode_tile_request(&SceneToEmbedderMessages::RequestImageTile(tiles.clone()));
    for (i, t) in tiles.iter().enumerate() {
        assert_eq!(decode_tile_coordinate(&words[3 * i..3 * i + 3]), Some(*t));
    }
}
