//! Tile keys of the spatial grid and the rectangles of tiles that queries walk.

use vstd::prelude::*;

verus! {

/// Number of tile levels; level `l` tiles are squares of side `2^l`.
pub const LEVEL_COUNT: usize = 64;

/// A square tile of the grid: its level and its grid position at that level.
#[derive(Clone, Copy, PartialEq, Eq, Structural, Debug, Hash)]
pub struct TileKey {
    pub level: u8,
    pub x: i32,
    pub y: i32,
}

/// The tiles `min_x..max_x` by `min_y..max_y` (upper bounds excluded) of one level.
#[derive(Clone, Copy, PartialEq, Eq, Structural, Debug)]
pub struct TileRange {
    pub level: u8,
    pub min_x: i32,
    pub max_x: i32,
    pub min_y: i32,
    pub max_y: i32,
}

pub open spec fn two_pow_32() -> int {
    0x1_0000_0000
}

pub open spec fn two_pow_64() -> int {
    0x1_0000_0000_0000_0000
}

/// A grid coordinate read as the unsigned 32-bit word that holds it.
pub open spec fn coord_word(c: int) -> int {
    if c < 0 {
        c + two_pow_32()
    } else {
        c
    }
}

/// The integer under which the grid files the tile `(level, x, y)`:
/// the level above bit 64, then the two coordinate words.
pub open spec fn tile_id(level: int, x: int, y: int) -> int {
    level * two_pow_64() + coord_word(x) * two_pow_32() + coord_word(y)
}

/// The level of the tile filed under `id`.
pub open spec fn level_of(id: u128) -> int {
    id as int / two_pow_64()
}

impl TileKey {
    /// The integer under which the grid files this tile.
    pub open spec fn id(self) -> u128 {
        tile_id(self.level as int, self.x as int, self.y as int) as u128
    }
}

pub proof fn lemma_tile_id_level(level: int, x: int, y: int)
    requires
        0 <= level < 256,
        i32::MIN <= x <= i32::MAX,
        i32::MIN <= y <= i32::MAX,
    ensures
        0 <= tile_id(level, x, y) < u128::MAX,
        level_of(tile_id(level, x, y) as u128) == level,
{
    let r = coord_word(x) * two_pow_32() + coord_word(y);
    assert(0 <= coord_word(x) < two_pow_32());
    assert(0 <= coord_word(y) < two_pow_32());
    assert(0 <= r < two_pow_64()) by (nonlinear_arith)
        requires
            r == coord_word(x) * two_pow_32() + coord_word(y),
            0 <= coord_word(x) < two_pow_32(),
            0 <= coord_word(y) < two_pow_32(),
    ;
    assert((level * two_pow_64() + r) / two_pow_64() == level) by (nonlinear_arith)
        requires
            0 <= r < two_pow_64(),
    ;
    assert(0 <= level * two_pow_64() + r < u128::MAX) by (nonlinear_arith)
        requires
            0 <= r < two_pow_64(),
            0 <= level < 256,
    ;
}

/// Distinct tiles are filed under distinct integers.
pub proof fn lemma_tile_id_injective(l1: int, x1: int, y1: int, l2: int, x2: int, y2: int)
    requires
        0 <= l1 < 256,
        0 <= l2 < 256,
        i32::MIN <= x1 <= i32::MAX,
        i32::MIN <= y1 <= i32::MAX,
        i32::MIN <= x2 <= i32::MAX,
        i32::MIN <= y2 <= i32::MAX,
        tile_id(l1, x1, y1) == tile_id(l2, x2, y2),
    ensures
        l1 == l2,
        x1 == x2,
        y1 == y2,
{
    let d = two_pow_32();
    let (cx1, cy1, cx2, cy2) = (coord_word(x1), coord_word(y1), coord_word(x2), coord_word(y2));
    assert(tile_id(l1, x1, y1) == (l1 * d + cx1) * d + cy1) by (nonlinear_arith)
        requires
            d == two_pow_32(),
            tile_id(l1, x1, y1) == l1 * two_pow_64() + cx1 * d + cy1,
            two_pow_64() == d * d,
    ;
    assert(tile_id(l2, x2, y2) == (l2 * d + cx2) * d + cy2) by (nonlinear_arith)
        requires
            d == two_pow_32(),
            tile_id(l2, x2, y2) == l2 * two_pow_64() + cx2 * d + cy2,
            two_pow_64() == d * d,
    ;
    let n = tile_id(l1, x1, y1);
    vstd::arithmetic::div_mod::lemma_fundamental_div_mod_converse(n, d, l1 * d + cx1, cy1);
    vstd::arithmetic::div_mod::lemma_fundamental_div_mod_converse(n, d, l2 * d + cx2, cy2);
    let m = l1 * d + cx1;
    vstd::arithmetic::div_mod::lemma_fundamental_div_mod_converse(m, d, l1, cx1);
    vstd::arithmetic::div_mod::lemma_fundamental_div_mod_converse(m, d, l2, cx2);
}

/// Computes the integer under which the grid files the tile `(level, x, y)`.
pub fn tile_id_of(level: u8, x: i32, y: i32) -> (id: u128)
    ensures
        id == tile_id(level as int, x as int, y as int),
        id == (TileKey { level, x, y }).id(),
        level_of(id) == level,
{
    proof {
        lemma_tile_id_level(level as int, x as int, y as int);
    }
    let ux: u128 = if x < 0 {
        (x as i64 + 0x1_0000_0000i64) as u128
    } else {
        x as u128
    };
    let uy: u128 = if y < 0 {
        (y as i64 + 0x1_0000_0000i64) as u128
    } else {
        y as u128
    };
    assert(ux * 0x1_0000_0000u128 <= 0xffff_ffff_0000_0000u128) by (nonlinear_arith)
        requires
            ux < 0x1_0000_0000u128,
    ;
    (level as u128) * 0x1_0000_0000_0000_0000u128 + ux * 0x1_0000_0000u128 + uy
}

} // verus!
