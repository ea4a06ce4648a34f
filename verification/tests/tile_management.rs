use dyto_scene::image_tile::manageable_image_tile::{
    lods_to_load, plan_tile_update, tiles_in_bounding_box, CornerCell, TileBounds,
};
use dyto_scene::image_tile::mercator::{LevelOfDetail, TileCoordinate};

fn tile(x: u32, y: u32, level: u8) -> TileCoordinate {
    TileCoordinate::new(x, y, LevelOfDetail::new(level))
}

fn levels(lod: u8) -> Vec<u8> {
    lods_to_load(LevelOfDetail::new(lod)).iter().map(|l| l.value()).collect()
}

#[test]
fn lods_to_load_fine_level() {
    assert_eq!(levels(15), vec![15, 14, 13, 12, 11, 10, 9, 8, 7, 6, 5]);
    assert_eq!(levels(23), (13..=23).rev().collect::<Vec<u8>>());
}

#[test]
fn lods_to_load_coarse_level_repeats_the_minimum() {
    assert_eq!(levels(3), vec![3, 2, 1, 1]);
    assert_eq!(levels(1), vec![1, 1]);
    assert_eq!(levels(10), vec![10, 9, 8, 7, 6, 5, 4, 3, 2, 1, 1]);
    assert_eq!(levels(11), vec![11, 10, 9, 8, 7, 6, 5, 4, 3, 2, 1]);
}

fn corner(x: isize, y: isize) -> CornerCell {
    CornerCell { floor_x: x, floor_y: y, ceil_x: x + 1, ceil_y: y + 1 }
}

#[test]
fn bounds_around_corners() {
    let b = TileBounds::around(&corner(0, 0), &corner(2, 0), &corner(0, 3), &corner(2, 3));
    assert_eq!((b.min_x, b.min_y, b.max_x, b.max_y), (-1, -1, 4, 5));
    assert_eq!(b.tile_count(), 6 * 7);
    assert_eq!(b.cell_at(0), (-1, -1));
    assert_eq!(b.cell_at(5), (4, -1));
    assert_eq!(b.cell_at(6), (-1, 0));
    assert_eq!(b.cell_at(41), (4, 5));
}

#[test]
fn tiles_in_bounding_box_wraps_x_and_drops_rows_off_the_map() {
    // Level 1: a 2 x 2 map, half = 1.
    let bounds = TileBounds { min_x: -2, min_y: -2, max_x: 1, max_y: 1 };
    let count = bounds.tile_count();
    assert_eq!(count, 16);
    let inside = vec![true; count];
    let mut result = Vec::new();
    tiles_in_bounding_box(&mut result, &bounds, &inside, LevelOfDetail::new(1));
    // Row y = -2 maps to -1: off the map. Rows -1 and 0 map to 0 and 1.
    // Columns -2..=1 map to -1..=2, wrapped to 1, 0, 1, 0.
    let expected = vec![
        tile(1, 0, 1), tile(0, 0, 1), tile(1, 0, 1), tile(0, 0, 1),
        tile(1, 1, 1), tile(0, 1, 1), tile(1, 1, 1), tile(0, 1, 1),
    ];
    assert_eq!(result, expected);
}

#[test]
fn tiles_in_bounding_box_keeps_existing_and_skips_outside_cells() {
    let bounds = TileBounds { min_x: 0, min_y: 0, max_x: 1, max_y: 0 };
    let inside = vec![false, true];
    let mut result = vec![tile(7, 7, 5)];
    tiles_in_bounding_box(&mut result, &bounds, &inside, LevelOfDetail::new(3));
    // Level 3: 8 x 8 map, half = 4. Cell (1, 0) is tile (5, 4).
    assert_eq!(result, vec![tile(7, 7, 5), tile(5, 4, 3)]);
}

#[test]
fn tiles_in_bounding_box_all_on_map() {
    let bounds = TileBounds { min_x: -40, min_y: -40, max_x: 40, max_y: 40 };
    let inside = vec![true; bounds.tile_count()];
    let mut result = Vec::new();
    tiles_in_bounding_box(&mut result, &bounds, &inside, LevelOfDetail::new(4));
    assert!(!result.is_empty());
    for t in &result {
        assert!(t.x() < 16 && t.y() < 16);
        assert_eq!(t.level_of_detail().value(), 4);
    }
    // Every row on the map appears, with every column of the box.
    assert_eq!(result.len(), 16 * 81);
}

#[test]
fn plan_keeps_required_despawns_others_and_spawns_missing() {
    let required = vec![(1, tile(0, 0, 2)), (1, tile(1, 0, 2)), (2, tile(0, 0, 2))];
    let existing = vec![(1, tile(1, 0, 2)), (1, tile(3, 3, 2)), (2, tile(1, 0, 2))];
    let plan = plan_tile_update(&required, &existing);
    assert_eq!(plan.keep, vec![true, false, false]);
    assert_eq!(plan.spawn, vec![(1, tile(0, 0, 2)), (2, tile(0, 0, 2))]);
}

#[test]
fn plan_despawns_duplicate_existing_tiles() {
    let required = vec![(1, tile(0, 0, 2)), (1, tile(0, 0, 2))];
    let existing = vec![(1, tile(0, 0, 2)), (1, tile(0, 0, 2))];
    let plan = plan_tile_update(&required, &existing);
    assert_eq!(plan.keep, vec![true, false]);
    assert!(plan.spawn.is_empty());
}

#[test]
fn plan_is_stable_once_applied() {
    let required = vec![(1, tile(0, 0, 2)), (1, tile(1, 0, 2)), (3, tile(2, 1, 2))];
    let existing = vec![(1, tile(1, 0, 2))];
    let plan = plan_tile_update(&required, &existing);
    let mut after: Vec<_> = existing.iter().zip(&plan.keep).filter(|(_, k)| **k).map(|(e, _)| *e).collect();
    after.extend(plan.spawn.iter().copied());
    let again = plan_tile_update(&required, &after);
    assert!(again.keep.iter().all(|k| *k));
    assert!(again.spawn.is_empty());
    assert_eq!(after.len(), 3);
}

#[test]
fn plan_with_nothing_required_despawns_all() {
    let existing = vec![(1, tile(0, 0, 2)), (2, tile(0, 0, 3))];
    let plan = plan_tile_update(&Vec::new(), &existing);
    assert_eq!(plan.keep, vec![false, false]);
    assert!(plan.spawn.is_empty());
}

#[test]
fn bounds_validity() {
    assert!(TileBounds { min_x: 0, min_y: 0, max_x: 0, max_y: 0 }.is_valid());
    assert!(!TileBounds { min_x: 1, min_y: 0, max_x: 0, max_y: 0 }.is_valid());
    assert!(!TileBounds { min_x: 0, min_y: 1, max_x: 0, max_y: 0 }.is_valid());
    assert!(!TileBounds { min_x: isize::MIN, min_y: 0, max_x: isize::MAX, max_y: 0 }.is_valid());
    assert!(!TileBounds { min_x: 0, min_y: 0, max_x: 1 << 40, max_y: 1 << 40 }.is_valid());
    assert!(TileBounds { min_x: 0, min_y: 0, max_x: (1 << 20) - 1, max_y: (1 << 20) - 1 }.is_valid());
}

#[test]
fn bounds_fit_levels() {
    let near_edge = TileBounds { min_x: 0, min_y: 0, max_x: isize::MAX - 4, max_y: 0 };
    assert!(near_edge.fits(LevelOfDetail::new(3)));
    assert!(!near_edge.fits(LevelOfDetail::new(4)));
    let small = TileBounds { min_x: -5, min_y: -5, max_x: 5, max_y: 5 };
    assert!(small.fits(LevelOfDetail::new(23)));
}
