//! Tile records of the searchable corpus.

use vstd::prelude::*;
use std::sync::Arc;

verus! {

use vstd::arithmetic::div_mod::{
    lemma_fundamental_div_mod_converse_mod, lemma_fundamental_div_mod_converse_div,
    lemma_div_denominator,
};

/// `(x, y, z)` coordinates in the quad-tree tile pyramid.
pub type TilePos = (u32, u32, u32);

/// Every corpus tile is this many pixels tall (and wide, before the
/// projection deformation narrows it).
pub const TILE_HEIGHT: u32 = 512;

/// Positions that fit the packed `u64` key: 29 bits for each axis and
/// 5 bits for the level, far beyond any practical pyramid depth.
pub open spec fn packable_pos(p: TilePos) -> bool {
    p.0 < 0x2000_0000 && p.1 < 0x2000_0000 && p.2 < 32
}

/// The packed key of a position: `z | x << 5 | y << 34`.
pub open spec fn pos_key_spec(p: TilePos) -> int {
    p.2 + p.0 * 32 + p.1 * 0x4_0000_0000
}

/// Pack a position into a single integer key, injectively.
pub fn pos_key(p: TilePos) -> (r: u64)
    requires
        packable_pos(p),
    ensures
        r == pos_key_spec(p),
{
    (p.2 as u64) + (p.0 as u64) * 32 + (p.1 as u64) * 0x4_0000_0000
}

/// Distinct packable positions have distinct keys.
pub proof fn lemma_pos_key_injective(a: TilePos, b: TilePos)
    requires
        packable_pos(a),
        packable_pos(b),
        pos_key_spec(a) == pos_key_spec(b),
    ensures
        a == b,
{
    lemma_pos_key_unpack(a);
    lemma_pos_key_unpack(b);
}

/// The packed key decomposes back into its three fields.
proof fn lemma_pos_key_unpack(p: TilePos)
    requires
        packable_pos(p),
    ensures
        pos_key_spec(p) % 32 == p.2,
        (pos_key_spec(p) / 32) % 0x2000_0000 == p.0,
        pos_key_spec(p) / 0x4_0000_0000 == p.1,
{
    let k = pos_key_spec(p);
    let rest = p.0 + p.1 * 0x2000_0000;
    assert(k == rest * 32 + p.2) by (nonlinear_arith)
        requires k == p.2 + p.0 * 32 + p.1 * 0x4_0000_0000, rest == p.0 + p.1 * 0x2000_0000,
    ;
    lemma_fundamental_div_mod_converse_mod(k, 32, rest, p.2 as int);
    lemma_fundamental_div_mod_converse_div(k, 32, rest, p.2 as int);
    assert(rest == p.1 * 0x2000_0000 + p.0) by (nonlinear_arith)
        requires rest == p.0 + p.1 * 0x2000_0000,
    ;
    lemma_fundamental_div_mod_converse_mod(rest, 0x2000_0000, p.1 as int, p.0 as int);
    lemma_fundamental_div_mod_converse_div(rest, 0x2000_0000, p.1 as int, p.0 as int);
    lemma_div_denominator(k, 32, 0x2000_0000);
}

/// One immutable corpus tile: its position, its deformed (projection
/// compensated) width in pixels, and the compressed bytes of its
/// full-resolution gradient image and quarter-resolution mip.
pub struct Tile {
    pub x: u32,
    pub y: u32,
    pub z: u32,
    pub width: u32,
    pub data: Arc<Vec<u8>>,
    pub smol_data: Arc<Vec<u8>>,
}

impl Tile {
    pub fn pos(&self) -> (r: TilePos)
        ensures
            r == (self.x, self.y, self.z),
    {
        (self.x, self.y, self.z)
    }

    /// A copy sharing the same byte blobs.
    pub fn duplicate(&self) -> (r: Tile)
        ensures
            r == *self,
    {
        Tile {
            x: self.x,
            y: self.y,
            z: self.z,
            width: self.width,
            data: self.data.clone(),
            smol_data: self.smol_data.clone(),
        }
    }
}

/// A decoded tile image, as the scoring and error-feedback logic read it:
/// RGBA bytes whose first two channels carry the gradient signal.
pub struct TileImage {
    pub pos: TilePos,
    pub width: u32,
    pub height: u32,
    pub data: Vec<u8>,
}

impl TileImage {
    pub open spec fn well_formed(self) -> bool {
        &&& self.width >= 1
        &&& self.height >= 1
        &&& self.width <= 4096
        &&& self.height <= 4096
        &&& self.data@.len() == 4 * self.width * self.height
    }

    /// Channel `c` of the pixel at `(x, y)`.
    pub open spec fn chan(self, x: int, y: int, c: int) -> u8 {
        self.data@[4 * (y * self.width + x) + c]
    }

    pub fn new(pos: TilePos, width: u32, height: u32, data: Vec<u8>) -> (r: TileImage)
        requires
            1 <= width <= 4096,
            1 <= height <= 4096,
            data@.len() == 4 * width * height,
        ensures
            r.well_formed(),
            r == (TileImage { pos, width, height, data }),
    {
        TileImage { pos, width, height, data }
    }
}

} // verus!
