//! Corpus path parsing.
//!
//! The tile corpus is laid out as `.../{z}/{y}/{x}.<ext>`; a tile's
//! position is read back from the last three path segments.

use vstd::prelude::*;

verus! {

use vstd::string::StringSliceAdditionalSpecFns;
use crate::logfile::{split_by, split_bytes};
use crate::parse::{digits_val, all_digits, parse_u32};
use crate::tiles::TilePos;

pub const SLASH: u8 = 47;
pub const BACKSLASH: u8 = 92;
pub const DOT: u8 = 46;

/// A path with every platform separator normalised to `/`.
pub open spec fn norm_path(s: Seq<u8>) -> Seq<u8> {
    s.map_values(|b: u8| if b == BACKSLASH { SLASH } else { b })
}

/// The `/`-separated segments of a path.
pub open spec fn path_segs(s: Seq<u8>) -> Seq<Seq<u8>> {
    split_by(norm_path(s), SLASH)
}

/// Length of a file name's stem: everything before the first dot.
pub open spec fn stem_len(name: Seq<u8>) -> int
    decreases name.len(),
{
    if name.len() == 0 {
        0
    } else if name[0] == DOT {
        0
    } else {
        1 + stem_len(name.drop_first())
    }
}

/// A file name's stem.
pub open spec fn stem_of(name: Seq<u8>) -> Seq<u8> {
    name.subrange(0, stem_len(name))
}

proof fn lemma_stem_len_at(name: Seq<u8>, i: int)
    requires
        0 <= i <= name.len(),
        forall|j: int| 0 <= j < i ==> name[j] != DOT,
        i < name.len() ==> name[i] == DOT,
    ensures
        stem_len(name) == i,
    decreases name.len(),
{
    if name.len() == 0 {
    } else if name[0] == DOT {
        assert(i == 0);
    } else {
        assert(i >= 1);
        let t = name.drop_first();
        assert(forall|j: int| 0 <= j < i - 1 ==> t[j] == name[j + 1] && t[j] != DOT);
        if i - 1 < t.len() {
            assert(t[i - 1] == name[i]);
        }
        lemma_stem_len_at(t, i - 1);
    }
}

/// Whether a path has the `{z}/{y}/{x}.<ext>` tile shape with in-range
/// coordinates.
pub open spec fn tile_path_ok(s: Seq<u8>) -> bool {
    let segs = path_segs(s);
    let name = segs.last();
    let stem = stem_of(name);
    &&& segs.len() >= 3
    &&& stem.len() > 0 && all_digits(stem) && digits_val(stem) <= u32::MAX
    &&& ({
        let ys = segs[segs.len() - 2];
        ys.len() > 0 && all_digits(ys) && digits_val(ys) <= u32::MAX
    })
    &&& ({
        let zs = segs[segs.len() - 3];
        zs.len() > 0 && all_digits(zs) && digits_val(zs) <= u32::MAX
    })
}

/// The `(x, y, z)` a tile path denotes.
pub open spec fn tile_pos_of_path(s: Seq<u8>) -> TilePos {
    let segs = path_segs(s);
    (
        digits_val(stem_of(segs.last())) as u32,
        digits_val(segs[segs.len() - 2]) as u32,
        digits_val(segs[segs.len() - 3]) as u32,
    )
}

/// Read a tile's position out of its corpus path.
pub fn extract_tile_pos(path_str: &str) -> (r: TilePos)
    requires
        tile_path_ok(path_str.spec_bytes()),
    ensures
        r == tile_pos_of_path(path_str.spec_bytes()),
{
    let bytes = path_str.as_bytes();
    let mut norm: Vec<u8> = Vec::new();
    let mut i: usize = 0;
    while i < bytes.len()
        invariant
            i <= bytes@.len(),
            norm@ =~= norm_path(bytes@.subrange(0, i as int)),
        decreases bytes@.len() - i,
    {
        let b = bytes[i];
        norm.push(if b == BACKSLASH {
            SLASH
        } else {
            b
        });
        proof {
            assert(norm@ =~= norm_path(bytes@.subrange(0, i + 1))) by {
                assert(bytes@.subrange(0, i + 1).map_values(
                    |b: u8| if b == BACKSLASH { SLASH } else { b },
                ) =~= bytes@.subrange(0, i as int).map_values(
                    |b: u8| if b == BACKSLASH { SLASH } else { b },
                ).push(if bytes@[i as int] == BACKSLASH { SLASH } else { bytes@[i as int] }));
            }
        }
        i = i + 1;
    }
    proof {
        assert(bytes@.subrange(0, bytes@.len() as int) =~= bytes@);
    }
    let segs = split_bytes(norm.as_slice(), SLASH);
    let ghost sv = path_segs(path_str.spec_bytes());
    proof {
        assert(segs@.map_values(|v: Vec<u8>| v@) == sv);
        assert(segs@.len() == sv.len());
        assert(segs@[sv.len() - 1]@ == sv.last());
        assert(segs@[sv.len() - 2]@ == sv[sv.len() - 2]);
        assert(segs@[sv.len() - 3]@ == sv[sv.len() - 3]);
    }
    let n = segs.len();
    let name = &segs[n - 1];
    let mut stem: Vec<u8> = Vec::new();
    let mut j: usize = 0;
    while j < name.len() && name[j] != DOT
        invariant
            j <= name@.len(),
            forall|q: int| 0 <= q < j ==> name@[q] != DOT,
            stem@ =~= name@.subrange(0, j as int),
        decreases name@.len() - j,
    {
        stem.push(name[j]);
        proof {
            assert(stem@ =~= name@.subrange(0, j + 1));
        }
        j = j + 1;
    }
    proof {
        lemma_stem_len_at(name@, j as int);
        assert(stem@ =~= stem_of(name@));
    }
    let x = match parse_u32(stem.as_slice()) {
        Some(v) => v,
        None => {
            proof {
                assert(false);
            }
            0
        },
    };
    let y = match parse_u32(segs[n - 2].as_slice()) {
        Some(v) => v,
        None => {
            proof {
                assert(false);
            }
            0
        },
    };
    let z = match parse_u32(segs[n - 3].as_slice()) {
        Some(v) => v,
        None => {
            proof {
                assert(false);
            }
            0
        },
    };
    (x, y, z)
}

} // verus!
