//! The integer part of the Web Mercator (EPSG:3857) tile system.
//!
//! See:
//! https://learn.microsoft.com/en-us/bingmaps/articles/bing-maps-tile-system
//! https://wiki.openstreetmap.org/wiki/Slippy_map_tilenames

use vstd::prelude::*;
use vstd::arithmetic::power2::{pow2, lemma2_to64, lemma_pow2_strictly_increases};
use vstd::bits::lemma_u32_shl_is_mul;

verus! {

/// The size of a tile in pixels.
pub const TILE_SIZE: u32 = 256;

/// A map of numbers to their quadkey character representation.
pub const QUADKEY_CHAR_MAP: [char; 4] = ['0', '1', '2', '3'];

/// The smallest level of detail, as a number.
pub const MIN_LEVEL: u8 = 1;

/// The largest level of detail, as a number.
pub const MAX_LEVEL: u8 = 23;

/// `value` clamped into the range of valid levels of detail.
pub open spec fn clamp_level(value: int) -> int {
    if value < MIN_LEVEL {
        MIN_LEVEL as int
    } else if value > MAX_LEVEL {
        MAX_LEVEL as int
    } else {
        value
    }
}

/// The number of pixels along one side of the whole map at `level`.
pub open spec fn map_size_of(level: nat) -> nat {
    TILE_SIZE as nat * pow2(level)
}

/// The level of detail of the map.
#[derive(Clone, Copy, Debug, PartialEq, Eq, Hash, Structural)]
pub struct LevelOfDetail(u8);

impl View for LevelOfDetail {
    type V = u8;

    closed spec fn view(&self) -> u8 {
        self.0
    }
}

impl LevelOfDetail {
    /// Every level of detail lies between the minimum and the maximum.
    #[verifier::type_invariant]
    pub open spec fn inv(self) -> bool {
        MIN_LEVEL <= self@ <= MAX_LEVEL
    }

    /// The maximum level of detail of the map.
    pub fn max() -> (level: Self)
        ensures
            level@ == MAX_LEVEL,
    {
        LevelOfDetail(MAX_LEVEL)
    }

    /// The minimum level of detail of the map.
    pub fn min() -> (level: Self)
        ensures
            level@ == MIN_LEVEL,
    {
        LevelOfDetail(MIN_LEVEL)
    }

    /// Creates a new `LevelOfDetail` from a `u8`.
    /// Clamps the value to the range of valid levels of detail.
    pub fn new(value: u8) -> (level: Self)
        ensures
            level@ == clamp_level(value as int),
            level.inv(),
            1 <= value <= 23 ==> level@ == value,
            value < 1 ==> level@ == 1,
            value > 23 ==> level@ == 23,
    {
        if value < MIN_LEVEL {
            LevelOfDetail(MIN_LEVEL)
        } else if value > MAX_LEVEL {
            LevelOfDetail(MAX_LEVEL)
        } else {
            LevelOfDetail(value)
        }
    }

    /// Gets the `u8` value of the `LevelOfDetail`.
    pub fn value(&self) -> (value: u8)
        ensures
            value == self@,
            MIN_LEVEL <= value <= MAX_LEVEL,
    {
        proof {
            use_type_invariant(self);
        }
        self.0
    }

    /// Get the map size at the given level of detail in pixels.
    pub fn map_size(&self) -> (size: u32)
        ensures
            size == map_size_of(self@ as nat),
    {
        proof {
            use_type_invariant(self);
            lemma2_to64();
            lemma_pow2_strictly_increases(self.0 as nat, 24);
            lemma_u32_shl_is_mul(TILE_SIZE, self.0 as u32);
        }
        TILE_SIZE << self.0
    }
}

impl From<LevelOfDetail> for u8 {
    fn from(level_of_detail: LevelOfDetail) -> (value: u8) {
        level_of_detail.value()
    }
}

impl vstd::std_specs::convert::FromSpecImpl<LevelOfDetail> for u8 {
    open spec fn obeys_from_spec() -> bool {
        true
    }

    open spec fn from_spec(v: LevelOfDetail) -> u8 {
        v@
    }
}

/// A tile in the Web Mercator (EPSG:3857) tile grid.
#[derive(Clone, Copy, Debug, PartialEq, Eq, Hash, Structural)]
pub struct TileCoordinate {
    /// The X coordinate of the tile.
    x: u32,
    /// The Y coordinate of the tile.
    y: u32,
    /// The level of detail of the tile.
    level_of_detail: LevelOfDetail,
}

impl View for TileCoordinate {
    /// The X coordinate, the Y coordinate and the level of detail as a number.
    type V = (u32, u32, u8);

    closed spec fn view(&self) -> (u32, u32, u8) {
        (self.x, self.y, self.level_of_detail@)
    }
}

impl TileCoordinate {
    /// The level of detail that the tile carries.
    pub closed spec fn spec_level_of_detail(self) -> LevelOfDetail {
        self.level_of_detail
    }

    /// Creates a new `TileCoordinate` from an X and Y coordinate and a level of
    /// detail.
    pub fn new(x: u32, y: u32, level_of_detail: LevelOfDetail) -> (tile: Self)
        ensures
            tile@ == (x, y, level_of_detail@),
            tile.spec_level_of_detail() == level_of_detail,
    {
        TileCoordinate { x, y, level_of_detail }
    }

    /// Gets the X coordinate of the tile.
    pub fn x(&self) -> (x: u32)
        ensures
            x == self@.0,
    {
        self.x
    }

    /// Gets the Y coordinate of the tile.
    pub fn y(&self) -> (y: u32)
        ensures
            y == self@.1,
    {
        self.y
    }

    /// Gets the level of detail of the tile.
    pub fn level_of_detail(&self) -> (level_of_detail: LevelOfDetail)
        ensures
            level_of_detail == self.spec_level_of_detail(),
            level_of_detail@ == self@.2,
    {
        self.level_of_detail
    }
}

/// Making a level of detail from the number of a valid level gives that
/// level back.
pub proof fn lemma_new_of_value(level: LevelOfDetail)
    requires
        level.inv(),
    ensures
        clamp_level(level@ as int) == level@,
{
}

/// Clamping is idempotent: a clamped number is a valid level and clamps to
/// itself.
pub proof fn lemma_clamp_level_idempotent(value: int)
    ensures
        MIN_LEVEL <= clamp_level(value) <= MAX_LEVEL,
        clamp_level(clamp_level(value)) == clamp_level(value),
{
}

/// The map doubles in size along each side from one level to the next.
pub proof fn lemma_map_size_doubles(level: nat)
    ensures
        map_size_of(level + 1) == 2 * map_size_of(level),
{
    vstd::arithmetic::power2::lemma_pow2_unfold(level + 1);
    assert(TILE_SIZE as nat * (2 * pow2(level)) == 2 * (TILE_SIZE as nat * pow2(level))) by (nonlinear_arith);
}

/// Two levels of detail are the same exactly when their numbers are.
pub proof fn lemma_level_of_detail_view_injective(a: LevelOfDetail, b: LevelOfDetail)
    ensures
        a@ == b@ <==> a == b,
{
}

/// Two tiles are the same exactly when their coordinates and levels are.
pub proof fn lemma_tile_view_injective(a: TileCoordinate, b: TileCoordinate)
    ensures
        a@ == b@ <==> a == b,
{
}

} // verus!
