use dyto_scene::image_tile::mercator::{LevelOfDetail, TileCoordinate, MAX_LEVEL, MIN_LEVEL, QUADKEY_CHAR_MAP, TILE_SIZE};

#[test]
fn level_of_detail_clamps_into_range() {
    assert_eq!(LevelOfDetail::new(0).value(), 1);
    assert_eq!(LevelOfDetail::new(1).value(), 1);
    assert_eq!(LevelOfDetail::new(5).value(), 5);
    assert_eq!(LevelOfDetail::new(23).value(), 23);
    assert_eq!(LevelOfDetail::new(24).value(), 23);
    assert_eq!(LevelOfDetail::new(255).value(), 23);
}

#[test]
fn level_of_detail_bounds() {
    assert_eq!(LevelOfDetail::max().value(), MAX_LEVEL);
    assert_eq!(LevelOfDetail::min().value(), MIN_LEVEL);
    assert_eq!(LevelOfDetail::max(), LevelOfDetail::new(200));
    assert_eq!(LevelOfDetail::min(), LevelOfDetail::new(0));
}

#[test]
fn level_of_detail_new_of_value_is_identity() {
    for v in 0..=255u8 {
        let level = LevelOfDetail::new(v);
        assert_eq!(LevelOfDetail::new(level.value()), level);
    }
}

#[test]
fn map_size_is_tile_size_times_power_of_two() {
    assert_eq!(LevelOfDetail::new(1).map_size(), 512);
    assert_eq!(LevelOfDetail::new(2).map_size(), 1024);
    assert_eq!(LevelOfDetail::new(10).map_size(), 256 * 1024);
    assert_eq!(LevelOfDetail::new(23).map_size(), 1u32 << 31);
    for v in 1..23u8 {
        assert_eq!(LevelOfDetail::new(v + 1).map_size(), 2 * LevelOfDetail::new(v).map_size());
        assert_eq!(LevelOfDetail::new(v).map_size(), TILE_SIZE << v);
    }
}

#[test]
fn level_of_detail_into_u8() {
    let value: u8 = LevelOfDetail::new(7).into();
    assert_eq!(value, 7);
    assert_eq!(u8::from(LevelOfDetail::new(99)), 23);
}

#[test]
fn tile_coordinate_getters() {
    let tile = TileCoordinate::new(3, 9, LevelOfDetail::new(4));
    assert_eq!(tile.x(), 3);
    assert_eq!(tile.y(), 9);
    assert_eq!(tile.level_of_detail(), LevelOfDetail::new(4));
    assert_eq!(tile, TileCoordinate::new(3, 9, LevelOfDetail::new(4)));
    assert_ne!(tile, TileCoordinate::new(3, 9, LevelOfDetail::new(5)));
}

#[test]
fn quadkey_characters() {
    assert_eq!(QUADKEY_CHAR_MAP, ['0', '1', '2', '3']);
}
