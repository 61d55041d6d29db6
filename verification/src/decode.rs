//! The decode stage.
//!
//! A background worker turns each tile's compressed bytes into raw RGBA
//! pixel buffers (full resolution and the quarter-resolution mip), in
//! corpus order and in fixed-size batches.  A tile that fails to decode is
//! a fatal corpus error: the pipeline does not skip tiles silently.
//!
//! Which byte strings decode, and to what pixels, is left to the image
//! crate's configured decoders (it supports process-global format hooks),
//! so the contract at the call states only what holds of every outcome:
//! a decoded buffer has 4 bytes per pixel.  Everything the library itself
//! decides about a decode outcome — acceptance, dimension gating, the
//! error it maps to — stands in [`accept_decoded`], which takes the
//! outcomes as arguments and is verified for every value of them.

use vstd::prelude::*;
use std::sync::Arc;

verus! {

use crate::tiles::{Tile, TileImage, TilePos};

/// Relies on `image::load_from_memory` and
/// `image::DynamicImage::to_rgba8`: decoding compressed image bytes held
/// in memory into RGBA pixels.  Whichever decoder handles the bytes, a
/// decoded RGBA buffer holds exactly 4 bytes per pixel; nothing more is
/// assumed of the result.
#[verifier::external_body]
fn decode_rgba(bytes: &Arc<Vec<u8>>) -> (r: Option<(u32, u32, Vec<u8>)>)
    ensures
        r matches Some(t) ==> t.2@.len() == 4 * t.0 * t.1,
{
    match image::load_from_memory(bytes.as_slice()) {
        Ok(img) => {
            let rgba = img.to_rgba8();
            let w = rgba.width();
            let h = rgba.height();
            Some((w, h, rgba.into_raw()))
        },
        Err(_) => None,
    }
}

/// One decoded tile, ready for upload: full-resolution pixels, the
/// quarter-resolution mip, and the deformed width the kernel must respect.
pub struct DecodedTile {
    pub pos: TilePos,
    pub width: u32,
    pub full: TileImage,
    pub mip: TileImage,
}

/// Why the decode stage aborted the run.
#[derive(Clone, Copy, Debug, PartialEq, Eq, Structural)]
pub enum DecodeError {
    /// The tile at this batch index holds undecodable bytes.
    Undecodable(usize),
    /// The tile at this batch index decoded to an unusable size.
    BadDimensions(usize),
}

/// Dimensions the pipeline can work with.
pub open spec fn usable_dims(w: u32, h: u32) -> bool {
    1 <= w <= 4096 && 1 <= h <= 4096
}

/// What a successful decode guarantees of its result: the tile's position
/// and deformed width travel unchanged onto both representations, and both
/// pixel buffers are well formed (4 bytes per pixel, usable dimensions).
pub open spec fn tile_decoded(t: Tile, d: DecodedTile) -> bool {
    &&& d.pos == (t.x, t.y, t.z)
    &&& d.width == t.width
    &&& d.full.pos == (t.x, t.y, t.z)
    &&& d.mip.pos == (t.x, t.y, t.z)
    &&& d.full.well_formed()
    &&& d.mip.well_formed()
}

/// The decode stage's acceptance gate, on the two decode outcomes of one
/// tile: accepted exactly when both representations decoded with usable
/// dimensions, in which case the result carries exactly the given pixels;
/// a failed decode is `Undecodable` and an out-of-range size is
/// `BadDimensions` (each reported at batch index 0, renumbered by the
/// batch loop).
pub fn accept_decoded(
    pos: TilePos,
    width: u32,
    full: Option<(u32, u32, Vec<u8>)>,
    mip: Option<(u32, u32, Vec<u8>)>,
) -> (r: Result<DecodedTile, DecodeError>)
    requires
        full matches Some(f) ==> f.2@.len() == 4 * f.0 * f.1,
        mip matches Some(q) ==> q.2@.len() == 4 * q.0 * q.1,
    ensures
        r is Ok <==> ((full matches Some(f) && usable_dims(f.0, f.1)) && (mip matches Some(q)
            && usable_dims(q.0, q.1))),
        r matches Ok(d) ==> ((full matches Some(f) && mip matches Some(q) && {
            &&& d.pos == pos
            &&& d.width == width
            &&& d.full.pos == pos
            &&& d.full.width == f.0
            &&& d.full.height == f.1
            &&& d.full.data@ == f.2@
            &&& d.mip.pos == pos
            &&& d.mip.width == q.0
            &&& d.mip.height == q.1
            &&& d.mip.data@ == q.2@
            &&& d.full.well_formed()
            &&& d.mip.well_formed()
        })),
        r matches Err(e) ==> ((e matches DecodeError::Undecodable(i) && i == 0 && (full is None
            || mip is None)) || (e matches DecodeError::BadDimensions(i) && i == 0 && full
            is Some && mip is Some)),
{
    match (full, mip) {
        (Some((fw, fh, fdata)), Some((mw, mh, mdata))) => {
            if fw >= 1 && fw <= 4096 && fh >= 1 && fh <= 4096 && mw >= 1 && mw <= 4096 && mh >= 1
                && mh <= 4096 {
                Ok(
                    DecodedTile {
                        pos,
                        width,
                        full: TileImage::new(pos, fw, fh, fdata),
                        mip: TileImage::new(pos, mw, mh, mdata),
                    },
                )
            } else {
                Err(DecodeError::BadDimensions(0))
            }
        },
        _ => Err(DecodeError::Undecodable(0)),
    }
}

/// Decode one tile's two representations and run them through the
/// acceptance gate.
pub fn decode_tile(t: &Tile) -> (r: Result<DecodedTile, DecodeError>)
    ensures
        r matches Ok(d) ==> tile_decoded(*t, d),
        r matches Err(e) ==> (e matches DecodeError::Undecodable(i) && i == 0) || (e
            matches DecodeError::BadDimensions(i) && i == 0),
{
    let full = decode_rgba(&t.data);
    let mip = decode_rgba(&t.smol_data);
    accept_decoded(t.pos(), t.width, full, mip)
}

/// Decode a whole batch, in order.  Any failure is fatal and carries the
/// index of the first rejected tile.
pub fn decode_batch(batch: &Vec<Tile>) -> (r: Result<Vec<DecodedTile>, DecodeError>)
    ensures
        r matches Ok(v) ==> {
            &&& v@.len() == batch@.len()
            &&& forall|i: int| 0 <= i < batch@.len() ==> tile_decoded(batch@[i], #[trigger] v@[i])
        },
        r matches Err(e) ==> ((e matches DecodeError::Undecodable(i) && i < batch@.len()) || (e
            matches DecodeError::BadDimensions(i) && i < batch@.len())),
{
    let mut out: Vec<DecodedTile> = Vec::new();
    let mut i: usize = 0;
    while i < batch.len()
        invariant
            i <= batch@.len(),
            out@.len() == i,
            forall|j: int| 0 <= j < i ==> tile_decoded(batch@[j], #[trigger] out@[j]),
        decreases batch@.len() - i,
    {
        match decode_tile(&batch[i]) {
            Ok(d) => {
                out.push(d);
            },
            Err(e) => {
                return Err(match e {
                    DecodeError::Undecodable(_) => DecodeError::Undecodable(i),
                    DecodeError::BadDimensions(_) => DecodeError::BadDimensions(i),
                });
            },
        }
        i = i + 1;
    }
    Ok(out)
}

} // verus!
