//! The batch dispatcher's layout arithmetic.
//!
//! Each batch of tiles is written into fixed sub-regions of a shared atlas
//! image holding a 4x4 grid of tiles; one scoring pass per mask writes a
//! packed score word per scan offset into a result texture whose rows are
//! padded to the device's copy alignment.  Everything the device needs to
//! be told — atlas origins, raster sizes, row strides, per-tile widths —
//! is computed here, exactly.

use vstd::prelude::*;

verus! {

use vstd::arithmetic::div_mod::{
    lemma_fundamental_div_mod, lemma_mod_division_less_than_divisor,
};
use crate::errmap::{sample_coord, sample_point};
use crate::harvest::BatchLayout;
use crate::score::f16_fixed;
use crate::tiles::{Tile, TileImage, TilePos, TILE_HEIGHT};

/// The atlas holds a `CHUNK_MULT x CHUNK_MULT` grid of tiles.
pub const CHUNK_MULT: u32 = 4;

/// Number of tile slots in one atlas, the decode batch size.
pub const TILE_CHUNK_SIZE: usize = 16;

/// Scan offsets are visited on this integer stride.
pub const STEP_SIZE: u32 = 1;

/// Device rows are copied on a 256-byte (64-word) alignment.
pub const ALIGN_WORDS: u32 = 64;

/// The smallest multiple of `a` at or above `x`.
pub open spec fn align_up_spec(x: int, a: int) -> int {
    ((x + a - 1) / a) * a
}

/// Round a row length up to the copy alignment.
pub fn align_up(x: u32, a: u32) -> (r: u32)
    requires
        1 <= a <= 1024,
        x <= 0xFFF_FFFF,
    ensures
        r == align_up_spec(x as int, a as int),
        x <= r < x + a,
        r % a == 0,
{
    let q: u32 = (x + a - 1) / a;
    proof {
        let s = (x + a - 1) as int;
        let ai = a as int;
        lemma_fundamental_div_mod(s, ai);
        lemma_mod_division_less_than_divisor(s, ai);
        assert(ai * (s / ai) == (s / ai) * ai) by (nonlinear_arith);
        vstd::arithmetic::div_mod::lemma_mod_multiples_basic(s / ai, ai);
        assert((q as int) * ai == s - (s % ai));
    }
    let r = q * a;
    r
}

/// The per-mask result raster: one packed word per scan offset, rows
/// padded to the copy alignment.
pub fn make_layout(mask_w: u32, mask_h: u32) -> (r: BatchLayout)
    requires
        1 <= mask_w < TILE_HEIGHT,
        1 <= mask_h < TILE_HEIGHT,
    ensures
        r.well_formed(),
        r.cell_w == (TILE_HEIGHT - mask_w) / (STEP_SIZE as int),
        r.cell_h == (TILE_HEIGHT - mask_h) / (STEP_SIZE as int),
        r.res_w == CHUNK_MULT * r.cell_w,
        r.res_h == CHUNK_MULT * r.cell_h,
        r.tex_w == align_up_spec(r.res_w as int, ALIGN_WORDS as int),
        r.chunk == CHUNK_MULT,
    {
    let cell_w = (TILE_HEIGHT - mask_w) / STEP_SIZE;
    let cell_h = (TILE_HEIGHT - mask_h) / STEP_SIZE;
    let res_w = CHUNK_MULT * cell_w;
    let res_h = CHUNK_MULT * cell_h;
    let tex_w = align_up(res_w, ALIGN_WORDS);
    BatchLayout { tex_w, res_w, res_h, cell_w, cell_h, chunk: CHUNK_MULT }
}

/// The number of packed words one staging buffer must hold.
pub fn buffer_words(l: &BatchLayout) -> (r: u64)
    ensures
        r == (l.res_h as int) * (l.tex_w as int),
{
    proof {
        assert((l.res_h as int) * (l.tex_w as int) <= 0xFFFF_FFFFint * 0xFFFF_FFFF)
            by (nonlinear_arith)
            requires l.res_h <= 0xFFFF_FFFFu32, l.tex_w <= 0xFFFF_FFFFu32,
        ;
    }
    (l.res_h as u64) * (l.tex_w as u64)
}

/// Where the `i`-th tile of a batch lands in the atlas.
pub fn atlas_origin(i: u32) -> (r: (u32, u32))
    requires
        i < 16,
    ensures
        r.0 == (i % CHUNK_MULT) * TILE_HEIGHT,
        r.1 == (i / CHUNK_MULT) * TILE_HEIGHT,
        r.0 <= 3 * TILE_HEIGHT,
        r.1 <= 3 * TILE_HEIGHT,
{
    ((i % CHUNK_MULT) * TILE_HEIGHT, (i / CHUNK_MULT) * TILE_HEIGHT)
}

/// Where the `i`-th tile's quarter-resolution mip lands in the atlas's
/// third mip level.
pub fn atlas_mip_origin(i: u32) -> (r: (u32, u32))
    requires
        i < 16,
    ensures
        r.0 == (i % CHUNK_MULT) * TILE_HEIGHT / 4,
        r.1 == (i / CHUNK_MULT) * TILE_HEIGHT / 4,
{
    let o = atlas_origin(i);
    (o.0 / 4, o.1 / 4)
}

/// The per-tile valid-width push constants of one batch: each tile's
/// deformed width, padded with zeros to the full grid, so the kernel never
/// scans a tile past its own right edge.
pub fn widths_push_constants(batch: &Vec<Tile>) -> (r: Vec<u32>)
    requires
        batch@.len() <= TILE_CHUNK_SIZE,
    ensures
        r@.len() == TILE_CHUNK_SIZE,
        forall|i: int| 0 <= i < batch@.len() ==> r@[i] == batch@[i].width,
        forall|i: int| batch@.len() <= i < TILE_CHUNK_SIZE ==> r@[i] == 0,
{
    let mut out: Vec<u32> = Vec::new();
    let mut i: usize = 0;
    while i < batch.len()
        invariant
            i <= batch@.len(),
            out@.len() == i,
            forall|j: int| 0 <= j < i ==> out@[j] == batch@[j].width,
        decreases batch@.len() - i,
    {
        out.push(batch[i].width);
        i = i + 1;
    }
    while out.len() < TILE_CHUNK_SIZE
        invariant
            batch@.len() <= out@.len() <= TILE_CHUNK_SIZE,
            forall|j: int| 0 <= j < batch@.len() ==> out@[j] == batch@[j].width,
            forall|j: int| batch@.len() <= j < out@.len() ==> out@[j] == 0,
        decreases TILE_CHUNK_SIZE - out@.len(),
    {
        out.push(0);
    }
    out
}

/// The batch's tile-ordering table, built before dispatch in upload order:
/// the harvester maps winning cells back to real tiles through it.
pub fn batch_table(batch: &Vec<Tile>) -> (r: Vec<(TilePos, u32)>)
    ensures
        r@.len() == batch@.len(),
        forall|i: int|
            0 <= i < batch@.len() ==> #[trigger] r@[i] == ((batch@[i].x, batch@[i].y,
            batch@[i].z), batch@[i].width),
{
    let mut out: Vec<(TilePos, u32)> = Vec::new();
    let mut i: usize = 0;
    while i < batch.len()
        invariant
            i <= batch@.len(),
            out@.len() == i,
            forall|j: int|
                0 <= j < i ==> #[trigger] out@[j] == ((batch@[j].x, batch@[j].y, batch@[j].z),
                batch@[j].width),
        decreases batch@.len() - i,
    {
        let t = &batch[i];
        out.push((t.pos(), t.width));
        i = i + 1;
    }
    out
}

/// One byte of the temporal-context hint: an RGBA pixel sampled from the
/// chosen tile at the chosen offset, zoom-scaled and clamped to the tile.
pub open spec fn context_byte(t: TileImage, x: u32, y: u32, zoom: u16, w4: int, k: int) -> u8 {
    let c = k % 4;
    let p = k / 4;
    let xx = p % w4;
    let yy = p / w4;
    let sx = sample_coord(x, zoom, xx, t.width);
    let sy = sample_coord(y, zoom, yy, t.height);
    if c == 3 {
        255
    } else {
        t.chan(sx, sy, c)
    }
}

/// Build the temporal-context hint from the previously chosen tile: a
/// quarter-mask-sized RGBA crop around the chosen offset, uploaded as the
/// next query's third mip level.  The caller hands the tile already
/// resized to its deformed width, the coordinate space the chosen offset
/// lives in.
pub fn context_image(t: &TileImage, mask_w: u32, mask_h: u32, x: u32, y: u32, zoom: u16) -> (r:
    Vec<u8>)
    requires
        t.well_formed(),
        4 <= mask_w <= 4096,
        4 <= mask_h <= 4096,
        f16_fixed(zoom) >= 0,
    ensures
        r@.len() == 4 * ((mask_w / 4) * (mask_h / 4)),
        forall|k: int|
            0 <= k < r@.len() ==> r@[k] == context_byte(*t, x, y, zoom, (mask_w / 4) as int, k),
{
    let w4: u32 = mask_w / 4;
    let h4: u32 = mask_h / 4;
    proof {
        assert((w4 as int) * (h4 as int) <= 0x10_0000) by (nonlinear_arith)
            requires 1 <= w4 <= 1024, 1 <= h4 <= 1024,
        ;
        assert(4 * ((w4 as int) * (h4 as int)) == 4 * (w4 as int) * (h4 as int))
            by (nonlinear_arith);
        assert(4 * (t.width as int) * (t.height as int) == 4 * ((t.width as int) * (t.height
            as int))) by (nonlinear_arith);
    }
    let n: usize = 4 * (w4 as usize) * (h4 as usize);
    let mut out: Vec<u8> = Vec::new();
    let mut k: usize = 0;
    while k < n
        invariant
            k <= n,
            n == 4 * ((w4 as int) * (h4 as int)),
            n <= 0x40_0000,
            1 <= w4 <= 1024,
            1 <= h4 <= 1024,
            t.well_formed(),
            f16_fixed(zoom) >= 0,
            t.data@.len() == 4 * ((t.width as int) * (t.height as int)),
            out@.len() == k,
            forall|j: int|
                0 <= j < k ==> out@[j] == context_byte(*t, x, y, zoom, w4 as int, j),
        decreases n - k,
    {
        let c: usize = k % 4;
        let p: usize = k / 4;
        proof {
            vstd::arithmetic::div_mod::lemma_multiply_divide_lt(
                k as int,
                4,
                (w4 as int) * (h4 as int),
            );
            vstd::arithmetic::div_mod::lemma_mod_division_less_than_divisor(k as int, 4);
            vstd::arithmetic::div_mod::lemma_multiply_divide_lt(p as int, w4 as int, h4 as int);
            vstd::arithmetic::div_mod::lemma_mod_division_less_than_divisor(p as int, w4 as int);
        }
        let xx: u32 = (p % (w4 as usize)) as u32;
        let yy: u32 = (p / (w4 as usize)) as u32;
        let v: u8 = if c == 3 {
            255
        } else {
            let sx = sample_point(x, zoom, xx, t.width);
            let sy = sample_point(y, zoom, yy, t.height);
            proof {
                assert((sy as int) * (t.width as int) + sx < (t.height as int) * (t.width
                    as int) && (sy as int) * (t.width as int) >= 0) by (nonlinear_arith)
                    requires 0 <= sy < t.height, 0 <= sx < t.width, t.width >= 1,
                ;
                assert((t.height as int) * (t.width as int) <= 0x100_0000) by (nonlinear_arith)
                    requires 1 <= t.height <= 4096, 1 <= t.width <= 4096,
                ;
                assert((t.height as int) * (t.width as int) == (t.width as int) * (t.height
                    as int)) by (nonlinear_arith);
            }
            let ti: usize = (sy as usize) * (t.width as usize) + (sx as usize);
            t.data[4 * ti + c]
        };
        out.push(v);
        proof {
            assert(out@[k as int] == context_byte(*t, x, y, zoom, w4 as int, k as int));
        }
        k = k + 1;
    }
    out
}

/// Keep only the tiles whose packed key is not forbidden: the searchable
/// set of this frame.
pub fn filter_tiles(tiles: &Vec<Tile>, forbidden: &Vec<u64>) -> (r: Vec<Tile>)
    requires
        forall|i: int|
            0 <= i < tiles@.len() ==> crate::tiles::packable_pos(
                ((#[trigger] tiles@[i]).x, tiles@[i].y, tiles@[i].z),
            ),
    ensures
        r@ == tiles@.filter(
            (|t: Tile| !forbidden@.contains(
                crate::tiles::pos_key_spec((t.x, t.y, t.z)) as u64,
            )),
        ),
{
    let ghost pred = (|t: Tile| !forbidden@.contains(
        crate::tiles::pos_key_spec((t.x, t.y, t.z)) as u64,
    ));
    let mut out: Vec<Tile> = Vec::new();
    let mut i: usize = 0;
    while i < tiles.len()
        invariant
            i <= tiles@.len(),
            forall|i2: int|
                0 <= i2 < tiles@.len() ==> crate::tiles::packable_pos(
                    ((#[trigger] tiles@[i2]).x, tiles@[i2].y, tiles@[i2].z),
                ),
            pred == (|t: Tile| !forbidden@.contains(
                crate::tiles::pos_key_spec((t.x, t.y, t.z)) as u64,
            )),
            out@ == tiles@.subrange(0, i as int).filter(pred),
        decreases tiles@.len() - i,
    {
        let t = &tiles[i];
        let key = crate::tiles::pos_key(t.pos());
        proof {
            assert(key == crate::tiles::pos_key_spec(
                (tiles@[i as int].x, tiles@[i as int].y, tiles@[i as int].z),
            ) as u64);
        }
        let mut found = false;
        let mut f: usize = 0;
        while f < forbidden.len()
            invariant
                f <= forbidden@.len(),
                found <==> exists|q: int| 0 <= q < f && forbidden@[q] == key,
            decreases forbidden@.len() - f,
        {
            if forbidden[f] == key {
                found = true;
            }
            f = f + 1;
        }
        proof {
            assert(found <==> forbidden@.contains(key));
        }
        if !found {
            out.push(t.duplicate());
        }
        proof {
            let pre = tiles@.subrange(0, i as int);
            let cur = tiles@.subrange(0, i + 1);
            assert(cur.drop_last() =~= pre);
            assert(cur.last() == tiles@[i as int]);
            reveal_with_fuel(Seq::filter, 2);
            assert(pred(tiles@[i as int]) <==> !found);
            assert(out@ =~= cur.filter(pred));
        }
        i = i + 1;
    }
    proof {
        assert(tiles@.subrange(0, tiles@.len() as int) =~= tiles@);
    }
    out
}

} // verus!
