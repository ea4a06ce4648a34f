//! Deciding which image tiles to keep, spawn and despawn.

use vstd::prelude::*;

use vstd::arithmetic::power2::{pow2, lemma2_to64, lemma_pow2_strictly_increases};
use vstd::bits::lemma_usize_shl_is_mul;

use crate::image_tile::mercator::{clamp_level, LevelOfDetail, TileCoordinate};

verus! {

/// Additional levels of detail to load.
pub const ADDITIONAL_LOD_LEVELS: u8 = 10;

/// The levels of detail whose tiles a camera at `level` loads, finest
/// first: `level` and up to `ADDITIONAL_LOD_LEVELS` coarser ones, where a
/// level below the minimum counts as the minimum.
pub open spec fn lods_to_load_spec(level: int) -> Seq<int> {
    let lowest = if level - ADDITIONAL_LOD_LEVELS < 0 {
        0
    } else {
        level - ADDITIONAL_LOD_LEVELS
    };
    Seq::new((level - lowest + 1) as nat, |i: int| clamp_level(level - i))
}

/// A camera at level `level` loads `level` and the `ADDITIONAL_LOD_LEVELS`
/// levels below it, one after the other, finest first; below level 1 it
/// loads level 1 instead, so a camera at level 10 or less loads its level
/// down to level 1 and then level 1 once more.
pub proof fn lemma_lods_to_load_counts_down(level: int)
    requires
        1 <= level <= 23,
    ensures
        lods_to_load_spec(level).len() == (if level > 10 { 11 } else { level + 1 }),
        forall|i: int|
            0 <= i < lods_to_load_spec(level).len() ==> #[trigger] lods_to_load_spec(level)[i] == (if level - i >= 1 {
                level - i
            } else {
                1
            }),
{
}

/// The levels of detail whose tiles a camera at `lod` loads, finest first.
pub fn lods_to_load(lod: LevelOfDetail) -> (levels: Vec<LevelOfDetail>)
    ensures
        levels@.len() == lods_to_load_spec(lod@ as int).len(),
        forall|i: int|
            0 <= i < levels@.len() ==> #[trigger] levels@[i]@ == lods_to_load_spec(lod@ as int)[i],
        levels@.len() == (if lod@ > 10 { 11 } else { lod@ + 1 }),
        forall|i: int|
            0 <= i < levels@.len() ==> #[trigger] levels@[i]@ == (if lod@ - i >= 1 {
                lod@ - i
            } else {
                1
            }),
{
    let top = lod.value();
    let lowest: u8 = if top < ADDITIONAL_LOD_LEVELS {
        0
    } else {
        top - ADDITIONAL_LOD_LEVELS
    };
    let count: u8 = top - lowest + 1;
    let mut levels: Vec<LevelOfDetail> = Vec::new();
    let mut i: u8 = 0;
    while i < count
        invariant
            i <= count,
            count == top - lowest + 1,
            lowest <= top,
            top == lod@,
            lowest as int == (if top - ADDITIONAL_LOD_LEVELS < 0 {
                0
            } else {
                top - ADDITIONAL_LOD_LEVELS
            }),
            levels@.len() == i,
            forall|j: int| 0 <= j < levels@.len() ==> #[trigger] levels@[j]@ == clamp_level(top - j),
        decreases count - i,
    {
        levels.push(LevelOfDetail::new(top - i));
        i = i + 1;
    }
    levels
}

/// The grid cell of one corner of a view on the ground, in tile units
/// from the centre of the map: the tile units rounded down and up.
pub struct CornerCell {
    /// The X coordinate rounded down.
    pub floor_x: isize,
    /// The Y coordinate rounded down.
    pub floor_y: isize,
    /// The X coordinate rounded up.
    pub ceil_x: isize,
    /// The Y coordinate rounded up.
    pub ceil_y: isize,
}

/// The smaller of two integers.
pub open spec fn min_of(a: int, b: int) -> int {
    if a <= b {
        a
    } else {
        b
    }
}

/// The larger of two integers.
pub open spec fn max_of(a: int, b: int) -> int {
    if a >= b {
        a
    } else {
        b
    }
}

/// The smaller of two `isize`s.
fn min_isize(a: isize, b: isize) -> (m: isize)
    ensures
        m == min_of(a as int, b as int),
{
    if a <= b {
        a
    } else {
        b
    }
}

/// The larger of two `isize`s.
fn max_isize(a: isize, b: isize) -> (m: isize)
    ensures
        m == max_of(a as int, b as int),
{
    if a >= b {
        a
    } else {
        b
    }
}

/// A box of grid cells, in tile units from the centre of the map, with
/// inclusive bounds. Its cells are numbered row by row, from the top left.
pub struct TileBounds {
    /// The smallest X coordinate.
    pub min_x: isize,
    /// The smallest Y coordinate.
    pub min_y: isize,
    /// The largest X coordinate.
    pub max_x: isize,
    /// The largest Y coordinate.
    pub max_y: isize,
}

impl TileBounds {
    /// The number of cells in a row.
    pub open spec fn width(self) -> int {
        self.max_x - self.min_x + 1
    }

    /// The number of rows.
    pub open spec fn height(self) -> int {
        self.max_y - self.min_y + 1
    }

    /// The number of cells.
    pub open spec fn count(self) -> int {
        self.width() * self.height()
    }

    /// The cell numbered `k`.
    pub open spec fn cell(self, k: int) -> (int, int) {
        (self.min_x + k % self.width(), self.min_y + k / self.width())
    }

    /// The box is not empty, and its cells can be counted and numbered in an
    /// `isize`.
    pub open spec fn valid(self) -> bool {
        &&& self.min_x <= self.max_x
        &&& self.min_y <= self.max_y
        &&& self.count() <= isize::MAX
    }

    /// Each cell of the box stays in the range of `isize` when moved by half
    /// the map at `level`.
    pub open spec fn fits_level(self, level: u8) -> bool {
        &&& self.max_x + tiles_across(level) / 2 <= isize::MAX
        &&& self.max_y + tiles_across(level) / 2 <= isize::MAX
    }

    /// The box around four corners of a view, grown by one cell on each side
    /// so that it covers every tile that the view touches.
    pub fn around(
        top_left: &CornerCell,
        top_right: &CornerCell,
        bottom_left: &CornerCell,
        bottom_right: &CornerCell,
    ) -> (bounds: TileBounds)
        requires
            top_left.floor_x > isize::MIN,
            top_left.floor_y > isize::MIN,
            top_right.floor_x > isize::MIN,
            top_right.floor_y > isize::MIN,
            bottom_left.floor_x > isize::MIN,
            bottom_left.floor_y > isize::MIN,
            bottom_right.floor_x > isize::MIN,
            bottom_right.floor_y > isize::MIN,
            top_left.ceil_x < isize::MAX,
            top_left.ceil_y < isize::MAX,
            top_right.ceil_x < isize::MAX,
            top_right.ceil_y < isize::MAX,
            bottom_left.ceil_x < isize::MAX,
            bottom_left.ceil_y < isize::MAX,
            bottom_right.ceil_x < isize::MAX,
            bottom_right.ceil_y < isize::MAX,
        ensures
            bounds.min_x == min_of(
                min_of(min_of(top_left.floor_x as int, bottom_left.floor_x as int), top_right.floor_x as int),
                bottom_right.floor_x as int,
            ) - 1,
            bounds.min_y == min_of(
                min_of(min_of(top_left.floor_y as int, bottom_left.floor_y as int), top_right.floor_y as int),
                bottom_right.floor_y as int,
            ) - 1,
            bounds.max_x == max_of(
                max_of(max_of(top_left.ceil_x as int, bottom_left.ceil_x as int), top_right.ceil_x as int),
                bottom_right.ceil_x as int,
            ) + 1,
            bounds.max_y == max_of(
                max_of(max_of(top_left.ceil_y as int, bottom_left.ceil_y as int), top_right.ceil_y as int),
                bottom_right.ceil_y as int,
            ) + 1,
    {
        let min_x = min_isize(
            min_isize(min_isize(top_left.floor_x, bottom_left.floor_x), top_right.floor_x),
            bottom_right.floor_x,
        ) - 1;
        let min_y = min_isize(
            min_isize(min_isize(top_left.floor_y, bottom_left.floor_y), top_right.floor_y),
            bottom_right.floor_y,
        ) - 1;
        let max_x = max_isize(
            max_isize(max_isize(top_left.ceil_x, bottom_left.ceil_x), top_right.ceil_x),
            bottom_right.ceil_x,
        ) + 1;
        let max_y = max_isize(
            max_isize(max_isize(top_left.ceil_y, bottom_left.ceil_y), top_right.ceil_y),
            bottom_right.ceil_y,
        ) + 1;
        TileBounds { min_x, min_y, max_x, max_y }
    }

    /// Whether the box is valid (see `valid`).
    pub fn is_valid(&self) -> (valid: bool)
        ensures
            valid == self.valid(),
    {
        if self.min_x > self.max_x || self.min_y > self.max_y {
            return false;
        }
        let width: i128 = (self.max_x as i128) - (self.min_x as i128) + 1;
        let height: i128 = (self.max_y as i128) - (self.min_y as i128) + 1;
        let limit: i128 = isize::MAX as i128;
        if width > limit || height > limit / width {
            proof {
                if width <= limit {
                    assert(width * height > limit) by (nonlinear_arith)
                        requires
                            width >= 1,
                            height > limit / width,
                            limit >= 0,
                    ;
                }
                assert(width * height >= width) by (nonlinear_arith)
                    requires
                        width >= 1,
                        height >= 1,
                ;
            }
            return false;
        }
        proof {
            assert(width * height <= limit) by (nonlinear_arith)
                requires
                    width >= 1,
                    height <= limit / width,
                    limit >= 0,
            ;
        }
        true
    }

    /// Whether the box fits the map at `lod` (see `fits_level`).
    pub fn fits(&self, lod: LevelOfDetail) -> (fits: bool)
        ensures
            fits == self.fits_level(lod@),
    {
        let half = half_tiles_across(lod);
        self.max_x <= isize::MAX - half && self.max_y <= isize::MAX - half
    }

    /// The number of cells in the box.
    pub fn tile_count(&self) -> (count: usize)
        requires
            self.valid(),
        ensures
            count == self.count(),
    {
        proof {
            lemma_valid_sides(*self);
        }
        let width = self.max_x - self.min_x + 1;
        let height = self.max_y - self.min_y + 1;
        (width * height) as usize
    }

    /// The cell numbered `k`.
    pub fn cell_at(&self, k: usize) -> (cell: (isize, isize))
        requires
            self.valid(),
            k < self.count(),
        ensures
            cell.0 == self.cell(k as int).0,
            cell.1 == self.cell(k as int).1,
    {
        proof {
            lemma_valid_sides(*self);
        }
        let width = self.max_x - self.min_x + 1;
        let kk = k as isize;
        proof {
            lemma_cell_in_box(*self, k as int);
        }
        (self.min_x + kk % width, self.min_y + kk / width)
    }
}

/// Each side of a valid box is at most its number of cells.
proof fn lemma_valid_sides(bounds: TileBounds)
    requires
        bounds.valid(),
    ensures
        1 <= bounds.width() <= bounds.count(),
        1 <= bounds.height() <= bounds.count(),
{
    let w = bounds.width();
    let h = bounds.height();
    assert(w <= w * h && h <= w * h) by (nonlinear_arith)
        requires
            w >= 1,
            h >= 1,
    ;
}

/// The cell numbered `k` lies in the box.
proof fn lemma_cell_in_box(bounds: TileBounds, k: int)
    requires
        bounds.valid(),
        0 <= k < bounds.count(),
    ensures
        bounds.min_x <= bounds.cell(k).0 <= bounds.max_x,
        bounds.min_y <= bounds.cell(k).1 <= bounds.max_y,
{
    let w = bounds.width();
    let h = bounds.height();
    assert(0 <= k % w < w) by (nonlinear_arith)
        requires
            w >= 1,
    ;
    assert(0 <= k / w < h) by (nonlinear_arith)
        requires
            w >= 1,
            0 <= k < w * h,
    ;
}

/// The number of tiles along one side of the map at `level`.
pub open spec fn tiles_across(level: u8) -> int {
    pow2(level as nat) as int
}

/// The tile of the map at `level` that lies under the grid cell numbered `k`
/// of `bounds`, if the view covers the cell and the cell lies on the map:
/// cells are counted from the centre of the map, wrap around east to west,
/// and do not wrap from north to south.
pub open spec fn tile_under_cell(bounds: TileBounds, inside: Seq<bool>, level: u8, k: int) -> Option<(u32, u32, u8)> {
    let n = tiles_across(level);
    let x = bounds.cell(k).0 + n / 2;
    let y = bounds.cell(k).1 + n / 2;
    if inside[k] && 0 <= y < n {
        Some(((x % n) as u32, y as u32, level))
    } else {
        None
    }
}

/// The tiles under the first `n` cells of `bounds`, in the order of the cells.
pub open spec fn tiles_under_cells(bounds: TileBounds, inside: Seq<bool>, level: u8, n: nat) -> Seq<(u32, u32, u8)>
    decreases n,
{
    if n == 0 {
        Seq::empty()
    } else {
        let before = tiles_under_cells(bounds, inside, level, (n - 1) as nat);
        match tile_under_cell(bounds, inside, level, n - 1) {
            Some(tile) => before.push(tile),
            None => before,
        }
    }
}

/// The tile under a cell, when there is one, is the cell moved by half the
/// map: its row is the cell's row plus half the number of tiles across, its
/// column is congruent to the cell's column plus that half modulo the number
/// of tiles across, and both lie on the map. There is one exactly when the
/// view covers the cell and that row lies on the map.
pub proof fn lemma_tile_under_cell_is_shifted_cell(bounds: TileBounds, inside: Seq<bool>, level: u8, k: int)
    requires
        level <= 23,
        0 <= k < inside.len(),
    ensures
        ({
            let n = tiles_across(level);
            let column = bounds.cell(k).0 + n / 2;
            let row = bounds.cell(k).1 + n / 2;
            &&& (tile_under_cell(bounds, inside, level, k) is Some <==> (inside[k] && 0 <= row < n))
            &&& (tile_under_cell(bounds, inside, level, k) matches Some(tile) ==> {
                &&& tile.2 == level
                &&& 0 <= tile.0 < n
                &&& tile.1 == row
                &&& (column - tile.0) % n == 0
            })
        }),
{
    lemma2_to64();
    vstd::arithmetic::power2::lemma_pow2_pos(level as nat);
    if level < 23 {
        lemma_pow2_strictly_increases(level as nat, 23);
    }
    let n = tiles_across(level);
    let column = bounds.cell(k).0 + n / 2;
    let row = bounds.cell(k).1 + n / 2;
    if inside[k] && 0 <= row < n {
        let r = column % n;
        assert(0 <= r < n && (column - r) % n == 0) by (nonlinear_arith)
            requires
                n > 0,
                r == column % n,
        ;
        assert((r as u32) as int == r);
    }
}

/// The tiles under the first `n` cells are the tiles under each of those
/// cells that has one, in the order of the cells.
pub proof fn lemma_tiles_under_cells_in_cell_order(bounds: TileBounds, inside: Seq<bool>, level: u8, n: nat)
    ensures
        tiles_under_cells(bounds, inside, level, n) == Seq::new(
            n,
            |k: int| tile_under_cell(bounds, inside, level, k),
        ).filter_map(|tile: Option<(u32, u32, u8)>| tile),
    decreases n,
{
    let f = |tile: Option<(u32, u32, u8)>| tile;
    let cells = Seq::new(n, |k: int| tile_under_cell(bounds, inside, level, k));
    if n == 0 {
        assert(cells.filter_map(f) =~= Seq::empty());
    } else {
        lemma_tiles_under_cells_in_cell_order(bounds, inside, level, (n - 1) as nat);
        let before = Seq::new((n - 1) as nat, |k: int| tile_under_cell(bounds, inside, level, k));
        assert(cells.drop_last() =~= before);
        assert(cells.filter_map(f) == match f(cells.last()) {
            Some(t) => cells.drop_last().filter_map(f) + seq![t],
            None => cells.drop_last().filter_map(f),
        });
        match tile_under_cell(bounds, inside, level, n - 1) {
            Some(t) => {
                assert(tiles_under_cells(bounds, inside, level, n) =~= cells.filter_map(f));
            },
            None => {},
        }
    }
}

/// Every tile under the cells of a box lies on the map at its level, and
/// carries that level.
pub proof fn lemma_tiles_under_cells_on_map(bounds: TileBounds, inside: Seq<bool>, level: u8, n: nat)
    requires
        level <= 23,
    ensures
        forall|i: int|
            0 <= i < tiles_under_cells(bounds, inside, level, n).len() ==> {
                let tile = #[trigger] tiles_under_cells(bounds, inside, level, n)[i];
                &&& tile.0 < tiles_across(level)
                &&& tile.1 < tiles_across(level)
                &&& tile.2 == level
            },
    decreases n,
{
    lemma2_to64();
    vstd::arithmetic::power2::lemma_pow2_pos(level as nat);
    if level < 23 {
        lemma_pow2_strictly_increases(level as nat, 23);
    }
    if n > 0 {
        lemma_tiles_under_cells_on_map(bounds, inside, level, (n - 1) as nat);
        let across = tiles_across(level);
        assert(0 < across <= 0x80_0000);
        let x = bounds.cell(n - 1).0 + across / 2;
        assert(0 <= x % across < across);
        let before = tiles_under_cells(bounds, inside, level, (n - 1) as nat);
        match tile_under_cell(bounds, inside, level, n - 1) {
            Some(tile) => {
                assert(tile.0 == x % across);
                assert(tiles_under_cells(bounds, inside, level, n) == before.push(tile));
            },
            None => {},
        }
    }
}

/// The views of a sequence of tiles.
pub open spec fn tile_views(tiles: Seq<TileCoordinate>) -> Seq<(u32, u32, u8)> {
    tiles.map_values(|tile: TileCoordinate| tile@)
}

/// The Euclidean remainder of `x` by a positive `n`, which lies in `0..n`.
fn rem_euclid(x: isize, n: isize) -> (r: isize)
    requires
        n > 0,
    ensures
        r == (x as int) % (n as int),
        0 <= r < n,
{
    if x >= 0 {
        let r = ((x as usize) % (n as usize)) as isize;
        r
    } else {
        let m = ((-1 - x) as usize) % (n as usize);
        let r = (n - 1) - (m as isize);
        proof {
            let mm: int = -1 - x;
            let q: int = mm / (n as int);
            assert(mm == q * n + m && 0 <= m < n) by (nonlinear_arith)
                requires
                    mm >= 0,
                    n > 0,
                    m == mm % (n as int),
                    q == mm / (n as int),
            ;
            assert(x == (-q - 1) * n + r) by (nonlinear_arith)
                requires
                    x == -1 - mm,
                    mm == q * n + m,
                    r == n - 1 - m,
            ;
            assert(r == (x as int) % (n as int)) by (nonlinear_arith)
                requires
                    x == (-q - 1) * n + r,
                    0 <= r < n,
            ;
        }
        r
    }
}

/// The number of tiles along one side of the map at `lod`.
fn tiles_across_exec(lod: LevelOfDetail) -> (across: isize)
    ensures
        across == tiles_across(lod@),
        0 < across <= 0x80_0000,
{
    let level = lod.value();
    proof {
        lemma2_to64();
        lemma_pow2_strictly_increases(level as nat, 24);
        lemma_usize_shl_is_mul(1, level as usize);
    }
    (1usize << level) as isize
}

/// Half the number of tiles along one side of the map at `lod`.
fn half_tiles_across(lod: LevelOfDetail) -> (half: isize)
    ensures
        half == tiles_across(lod@) / 2,
        0 <= half <= 0x40_0000,
{
    tiles_across_exec(lod) / 2
}

/// Appends to `result` the tiles of the map at `lod` under the cells of
/// `bounds` that the view covers, in the order of the cells.
///
/// `inside[k]` tells whether the view covers the cell numbered `k`; the
/// cells are numbered as `TileBounds::cell_at` does.
pub fn tiles_in_bounding_box(
    result: &mut Vec<TileCoordinate>,
    bounds: &TileBounds,
    inside: &Vec<bool>,
    lod: LevelOfDetail,
)
    requires
        bounds.valid(),
        bounds.fits_level(lod@),
        inside.len() == bounds.count(),
    ensures
        tile_views(final(result)@) == tile_views(old(result)@) + tiles_under_cells(
            *bounds,
            inside@,
            lod@,
            inside.len() as nat,
        ),
        forall|i: int|
            old(result)@.len() <= i < final(result)@.len() ==> (#[trigger] final(result)@[i]).spec_level_of_detail() == lod,
        tile_views(final(result)@) == tile_views(old(result)@) + Seq::new(
            inside.len() as nat,
            |k: int| tile_under_cell(*bounds, inside@, lod@, k),
        ).filter_map(|tile: Option<(u32, u32, u8)>| tile),
{
    let level = lod.value();
    let across: isize = tiles_across_exec(lod);
    let half: isize = across / 2;
    let total = bounds.tile_count();
    let ghost start = old(result)@;
    let mut k: usize = 0;
    while k < total
        invariant
            k <= total,
            total == bounds.count(),
            inside.len() == total,
            bounds.valid(),
            bounds.fits_level(level),
            across == tiles_across(level),
            across <= 0x80_0000,
            across > 0,
            half == across / 2,
            level == lod@,
            start.len() <= result@.len(),
            tile_views(result@) == tile_views(start) + tiles_under_cells(*bounds, inside@, level, k as nat),
            forall|i: int|
                start.len() <= i < result@.len() ==> (#[trigger] result@[i]).spec_level_of_detail() == lod,
        decreases total - k,
    {
        let cell = bounds.cell_at(k);
        proof {
            lemma_cell_in_box(*bounds, k as int);
        }
        let ghost before = result@;
        if inside[k] {
            let actual_x = cell.0 + half;
            let actual_y = cell.1 + half;
            if actual_y >= 0 && actual_y < across {
                let tile = TileCoordinate::new(rem_euclid(actual_x, across) as u32, actual_y as u32, lod);
                result.push(tile);
                proof {
                    assert(tile_views(result@) == tile_views(before).push(tile@));
                }
            }
        }
        proof {
            assert(tile_views(result@) == tile_views(start) + tiles_under_cells(*bounds, inside@, level, (k + 1) as nat));
        }
        k = k + 1;
    }
    proof {
        lemma_tiles_under_cells_in_cell_order(*bounds, inside@, level, inside.len() as nat);
    }
}

/// The marker for an image tile whose lifetime the scene manages.
pub struct ManageableImageTile;

/// A tile that some grid needs: the grid's entity, as bits, and the tile.
pub type TileKey = (u64, TileCoordinate);

/// The required tiles that are still unclaimed after the first `n` existing
/// tiles were walked: an existing tile that is still required claims its
/// entry, and one that is not (or no longer) required claims nothing.
pub open spec fn unclaimed(required: Set<TileKey>, existing: Seq<TileKey>, n: nat) -> Set<TileKey>
    decreases n,
{
    if n == 0 {
        required
    } else {
        let before = unclaimed(required, existing, (n - 1) as nat);
        let key = existing[n - 1];
        if before.contains(key) {
            before.remove(key)
        } else {
            before
        }
    }
}

/// The existing tiles among the first `n` whose flag in `keep` is set.
pub open spec fn kept_tiles(existing: Seq<TileKey>, keep: Seq<bool>, n: nat) -> Seq<TileKey>
    decreases n,
{
    if n == 0 {
        Seq::empty()
    } else {
        let before = kept_tiles(existing, keep, (n - 1) as nat);
        if keep[n - 1] {
            before.push(existing[n - 1])
        } else {
            before
        }
    }
}

/// What to do with the tile entities of the scene.
pub struct TileUpdatePlan {
    /// For each existing tile, whether it stays; the others are despawned.
    pub keep: Vec<bool>,
    /// The required tiles that no existing tile covers, each once.
    pub spawn: Vec<TileKey>,
}

/// Whether two keys name the same tile of the same grid.
fn same_key(a: &TileKey, b: &TileKey) -> (same: bool)
    ensures
        same == (*a == *b),
{
    a.0 == b.0 && a.1 == b.1
}

/// The position of `key` in `keys`, if it occurs there.
fn position_of(keys: &Vec<TileKey>, key: &TileKey) -> (position: Option<usize>)
    ensures
        match position {
            Some(i) => i < keys.len() && keys@[i as int] == *key,
            None => !keys@.contains(*key),
        },
{
    let mut i: usize = 0;
    while i < keys.len()
        invariant
            i <= keys.len(),
            forall|j: int| 0 <= j < i ==> keys@[j] != *key,
        decreases keys.len() - i,
    {
        if same_key(&keys[i], key) {
            return Some(i);
        }
        i = i + 1;
    }
    None
}

/// Removing the element at `i` from a sequence without duplicates removes
/// exactly that element from its set.
proof fn lemma_remove_from_distinct(s: Seq<TileKey>, i: int)
    requires
        s.no_duplicates(),
        0 <= i < s.len(),
    ensures
        s.remove(i).no_duplicates(),
        s.remove(i).to_set() == s.to_set().remove(s[i]),
{
    let r = s.remove(i);
    assert forall|a: int, b: int| 0 <= a < b < r.len() implies r[a] != r[b] by {
        let sa = if a < i { a } else { a + 1 };
        let sb = if b < i { b } else { b + 1 };
        assert(r[a] == s[sa]);
        assert(r[b] == s[sb]);
    }
    assert forall|x: TileKey| r.to_set().contains(x) <==> s.to_set().remove(s[i]).contains(x) by {
        if r.to_set().contains(x) {
            let k = choose|k: int| 0 <= k < r.len() && r[k] == x;
            let sk = if k < i { k } else { k + 1 };
            assert(s[sk] == x);
            assert(s.contains(x));
        }
        if s.to_set().remove(s[i]).contains(x) {
            let m = choose|m: int| 0 <= m < s.len() && s[m] == x;
            assert(m != i);
            let rm = if m < i { m } else { m - 1 };
            assert(r[rm] == x);
            assert(r.contains(x));
        }
    }
    assert(r.to_set() =~= s.to_set().remove(s[i]));
}

/// Plans the update of the tile entities: which of the `existing` tiles stay
/// and which `required` tiles must be spawned.
///
/// An existing tile stays when it is still required and no earlier existing
/// tile already covers it; each required tile is covered exactly once
/// afterwards.
pub fn plan_tile_update(required: &Vec<TileKey>, existing: &Vec<TileKey>) -> (plan: TileUpdatePlan)
    ensures
        plan.keep.len() == existing.len(),
        forall|i: int|
            0 <= i < existing.len() ==> plan.keep@[i] == unclaimed(
                required@.to_set(),
                existing@,
                i as nat,
            ).contains(existing@[i]),
        plan.spawn@.no_duplicates(),
        plan.spawn@.to_set() == unclaimed(required@.to_set(), existing@, existing.len() as nat),
        (kept_tiles(existing@, plan.keep@, existing.len() as nat) + plan.spawn@).no_duplicates(),
        (kept_tiles(existing@, plan.keep@, existing.len() as nat) + plan.spawn@).to_set()
            == required@.to_set(),
        forall|i: int|
            0 <= i < existing.len() ==> #[trigger] plan.keep@[i] == (required@.contains(existing@[i])
                && !existing@.take(i).contains(existing@[i])),
        forall|key: TileKey| #[trigger] plan.spawn@.contains(key) <==> (required@.contains(key) && !existing@.contains(key)),
{
    // The required tiles, each once, in the order of their first occurrence.
    let mut pending: Vec<TileKey> = Vec::new();
    let mut i: usize = 0;
    while i < required.len()
        invariant
            i <= required.len(),
            pending@.no_duplicates(),
            pending@.to_set() == required@.take(i as int).to_set(),
        decreases required.len() - i,
    {
        let key = required[i];
        let ghost before = pending@;
        if position_of(&pending, &key).is_none() {
            pending.push(key);
            proof {
                assert forall|a: int, b: int| 0 <= a < b < pending@.len() implies pending@[a]
                    != pending@[b] by {
                    if b == pending@.len() - 1 {
                        assert(before.contains(pending@[a]));
                    }
                }
                lemma_push_to_set(before, key);
            }
        }
        proof {
            assert(required@.take(i + 1) == required@.take(i as int).push(key));
            lemma_push_to_set(required@.take(i as int), key);
        }
        i = i + 1;
    }
    proof {
        assert(required@.take(required.len() as int) == required@);
    }

    // Walk the existing tiles; each one that is still pending claims its entry.
    let ghost required_set = required@.to_set();
    let mut keep: Vec<bool> = Vec::new();
    let mut j: usize = 0;
    while j < existing.len()
        invariant
            j <= existing.len(),
            required_set == required@.to_set(),
            pending@.no_duplicates(),
            pending@.to_set() == unclaimed(required_set, existing@, j as nat),
            keep.len() == j,
            forall|k: int|
                0 <= k < j ==> keep@[k] == unclaimed(required_set, existing@, k as nat).contains(
                    existing@[k],
                ),
            kept_tiles(existing@, keep@, j as nat).no_duplicates(),
            kept_tiles(existing@, keep@, j as nat).to_set().disjoint(pending@.to_set()),
            kept_tiles(existing@, keep@, j as nat).to_set() + pending@.to_set() == required_set,
        decreases existing.len() - j,
    {
        let key = existing[j];
        let ghost before_pending = pending@;
        let ghost before_keep = keep@;
        let ghost before_kept = kept_tiles(existing@, keep@, j as nat);
        proof {
            assert(before_pending.to_set().contains(key) <==> before_pending.contains(key));
        }
        match position_of(&pending, &key) {
            Some(p) => {
                proof {
                    lemma_remove_from_distinct(pending@, p as int);
                }
                pending.remove(p);
                keep.push(true);
            },
            None => {
                keep.push(false);
            },
        }
        proof {
            assert(kept_tiles(existing@, keep@, j as nat) == before_kept) by {
                lemma_kept_tiles_prefix(existing@, keep@, before_keep, j as nat);
            }
            let now_kept = kept_tiles(existing@, keep@, (j + 1) as nat);
            if keep@[j as int] {
                assert(now_kept == before_kept.push(key));
                assert(!before_kept.to_set().contains(key));
                assert forall|a: int, b: int| 0 <= a < b < now_kept.len() implies now_kept[a]
                    != now_kept[b] by {
                    if b == now_kept.len() - 1 {
                        assert(before_kept.contains(now_kept[a]));
                    }
                }
                assert(now_kept.to_set() =~= before_kept.to_set().insert(key)) by {
                    lemma_push_to_set(before_kept, key);
                }
                assert(now_kept.to_set().disjoint(pending@.to_set()));
                assert(now_kept.to_set() + pending@.to_set() =~= required_set);
            } else {
                assert(now_kept == before_kept);
            }
            assert forall|k: int|
                0 <= k < j + 1 implies keep@[k] == unclaimed(required_set, existing@, k as nat).contains(
                    existing@[k],
                ) by {
                if k < j {
                }
            }
        }
        j = j + 1;
    }

    proof {
        let kept = kept_tiles(existing@, keep@, existing.len() as nat);
        let all = kept + pending@;
        assert forall|a: int, b: int| 0 <= a < b < all.len() implies all[a] != all[b] by {
            if b >= kept.len() && a < kept.len() {
                assert(kept.to_set().contains(all[a]));
                assert(pending@.to_set().contains(all[b]));
            } else if a >= kept.len() {
                assert(all[a] == pending@[a - kept.len()]);
                assert(all[b] == pending@[b - kept.len()]);
            }
        }
        assert(all.to_set() =~= kept.to_set() + pending@.to_set()) by {
            assert forall|x: TileKey| all.to_set().contains(x) <==> (kept.to_set() + pending@.to_set()).contains(x) by {
                if all.to_set().contains(x) {
                    let k = choose|k: int| 0 <= k < all.len() && all[k] == x;
                    if k < kept.len() {
                        assert(kept[k] == x);
                        assert(kept.contains(x));
                    } else {
                        assert(pending@[k - kept.len()] == x);
                        assert(pending@.contains(x));
                    }
                }
                if kept.to_set().contains(x) {
                    let k = choose|k: int| 0 <= k < kept.len() && kept[k] == x;
                    assert(all[k] == x);
                    assert(all.contains(x));
                }
                if pending@.to_set().contains(x) {
                    let k = choose|k: int| 0 <= k < pending@.len() && pending@[k] == x;
                    assert(all[kept.len() + k] == x);
                    assert(all.contains(x));
                }
            }
        }
    }
    proof {
        let r = required@.to_set();
        assert forall|i: int|
            0 <= i < existing.len() implies #[trigger] keep@[i] == (required@.contains(existing@[i])
                && !existing@.take(i).contains(existing@[i])) by {
            lemma_unclaimed_is_difference(r, existing@, i as nat);
            assert(r.contains(existing@[i]) == required@.contains(existing@[i]));
            assert(existing@.take(i).to_set().contains(existing@[i]) == existing@.take(i).contains(existing@[i]));
        }
        lemma_unclaimed_is_difference(r, existing@, existing.len() as nat);
        assert(existing@.take(existing.len() as int) == existing@);
        assert forall|key: TileKey| #[trigger] pending@.contains(key) <==> (required@.contains(key) && !existing@.contains(key)) by {
            assert(pending@.to_set().contains(key) == pending@.contains(key));
            assert(r.contains(key) == required@.contains(key));
            assert(existing@.to_set().contains(key) == existing@.contains(key));
        }
    }
    TileUpdatePlan { keep, spawn: pending }
}

/// The required tiles still unclaimed after the first `n` existing tiles
/// are exactly the required tiles that none of those existing tiles is.
pub proof fn lemma_unclaimed_is_difference(required: Set<TileKey>, existing: Seq<TileKey>, n: nat)
    requires
        n <= existing.len(),
    ensures
        unclaimed(required, existing, n) == required.difference(existing.take(n as int).to_set()),
    decreases n,
{
    if n > 0 {
        lemma_unclaimed_is_difference(required, existing, (n - 1) as nat);
        let key = existing[n - 1];
        let before = existing.take(n - 1);
        assert(existing.take(n as int) == before.push(key));
        lemma_push_to_set(before, key);
        assert(unclaimed(required, existing, n) =~= required.difference(existing.take(n as int).to_set()));
    } else {
        assert(existing.take(0).to_set() =~= Set::empty());
        assert(unclaimed(required, existing, 0) =~= required.difference(existing.take(0).to_set()));
    }
}

/// Planning is stable: when the existing tiles are exactly the required ones,
/// each once, every existing tile stays and nothing is spawned.
pub proof fn lemma_plan_stable(required: Seq<TileKey>, existing: Seq<TileKey>)
    requires
        existing.no_duplicates(),
        existing.to_set() == required.to_set(),
    ensures
        forall|i: int|
            0 <= i < existing.len() ==> #[trigger] unclaimed(required.to_set(), existing, i as nat).contains(
                existing[i],
            ),
        unclaimed(required.to_set(), existing, existing.len() as nat) == Set::<TileKey>::empty(),
{
    let r = required.to_set();
    assert forall|k: int| 0 <= k < existing.len() implies r.contains(#[trigger] existing[k]) by {
        assert(existing.contains(existing[k]));
    }
    assert forall|i: int| 0 <= i < existing.len() implies #[trigger] unclaimed(r, existing, i as nat).contains(
        existing[i],
    ) by {
        lemma_unclaimed_is_difference(r, existing, i as nat);
        if existing.take(i).contains(existing[i]) {
            let k = choose|k: int| 0 <= k < existing.take(i).len() && existing.take(i)[k] == existing[i];
            assert(existing[k] == existing[i]);
        }
    }
    lemma_unclaimed_is_difference(r, existing, existing.len() as nat);
    assert(existing.take(existing.len() as int) == existing);
    assert(unclaimed(r, existing, existing.len() as nat) =~= Set::<TileKey>::empty());
}

/// `kept_tiles` over the first `n` tiles reads only the first `n` flags.
proof fn lemma_kept_tiles_prefix(existing: Seq<TileKey>, keep: Seq<bool>, other: Seq<bool>, n: nat)
    requires
        n <= keep.len(),
        n <= other.len(),
        forall|k: int| 0 <= k < n ==> keep[k] == other[k],
    ensures
        kept_tiles(existing, keep, n) == kept_tiles(existing, other, n),
    decreases n,
{
    if n > 0 {
        lemma_kept_tiles_prefix(existing, keep, other, (n - 1) as nat);
    }
}

/// The set of a sequence with one more element has that element too.
proof fn lemma_push_to_set(s: Seq<TileKey>, key: TileKey)
    ensures
        s.push(key).to_set() == s.to_set().insert(key),
{
    let t = s.push(key);
    assert forall|x: TileKey| t.to_set().contains(x) <==> s.to_set().insert(key).contains(x) by {
        if t.to_set().contains(x) {
            let k = choose|k: int| 0 <= k < t.len() && t[k] == x;
            if k < s.len() {
                assert(s[k] == x);
                assert(s.contains(x));
            }
        }
        if s.to_set().insert(key).contains(x) {
            if x == key {
                assert(t[s.len() as int] == key);
                assert(t.contains(x));
            } else {
                let k = choose|k: int| 0 <= k < s.len() && s[k] == x;
                assert(t[k] == x);
                assert(t.contains(x));
            }
        }
    }
    assert(t.to_set() =~= s.to_set().insert(key));
}

} // verus!
