//! Decimal parsing and formatting over raw bytes.
//!
//! The result log and the corpus paths both carry plain ASCII decimal
//! numbers; these helpers give them exact round-trip semantics.

use vstd::prelude::*;

verus! {

use vstd::arithmetic::div_mod::{lemma_fundamental_div_mod, lemma_multiply_divide_le};

pub open spec fn is_digit(b: u8) -> bool {
    48 <= b <= 57
}

pub open spec fn all_digits(s: Seq<u8>) -> bool {
    forall|i: int| 0 <= i < s.len() ==> is_digit(#[trigger] s[i])
}

/// The value of a digit string, most significant digit first.
pub open spec fn digits_val(s: Seq<u8>) -> int
    decreases s.len(),
{
    if s.len() == 0 {
        0
    } else {
        digits_val(s.drop_last()) * 10 + (s.last() - 48)
    }
}

pub proof fn lemma_digits_val_nonneg(s: Seq<u8>)
    requires
        all_digits(s),
    ensures
        digits_val(s) >= 0,
    decreases s.len(),
{
    if s.len() > 0 {
        assert(all_digits(s.drop_last())) by {
            assert(forall|i: int| 0 <= i < s.len() - 1 ==> s.drop_last()[i] == s[i]);
        }
        lemma_digits_val_nonneg(s.drop_last());
    }
}

/// A digit string's value only grows as digits are appended.
pub proof fn lemma_digits_val_prefix_le(s: Seq<u8>, i: int)
    requires
        all_digits(s),
        0 <= i <= s.len(),
    ensures
        digits_val(s.subrange(0, i)) <= digits_val(s),
    decreases s.len() - i,
{
    if i < s.len() {
        lemma_digits_val_prefix_le(s, i + 1);
        let p = s.subrange(0, i);
        let q = s.subrange(0, i + 1);
        assert(q.drop_last() =~= p);
        assert(q.last() == s[i]);
        assert(forall|j: int| 0 <= j < p.len() ==> p[j] == s[j]);
        lemma_digits_val_nonneg(p);
    } else {
        assert(s.subrange(0, i) =~= s);
    }
}

/// Parse an unsigned decimal. Returns the value exactly when the bytes are
/// one or more digits and the value fits a `u64`.
pub fn parse_u64(s: &[u8]) -> (r: Option<u64>)
    ensures
        r is Some <==> (s@.len() > 0 && all_digits(s@) && digits_val(s@) <= u64::MAX),
        r matches Some(v) ==> v == digits_val(s@),
{
    if s.len() == 0 {
        return None;
    }
    let mut acc: u64 = 0;
    let mut i: usize = 0;
    while i < s.len()
        invariant
            0 < s@.len(),
            i <= s@.len(),
            all_digits(s@.subrange(0, i as int)),
            acc == digits_val(s@.subrange(0, i as int)),
        decreases s@.len() - i,
    {
        let b = s[i];
        if b < 48 || b > 57 {
            proof {
                assert(!is_digit(s@[i as int]));
            }
            return None;
        }
        let d: u64 = (b - 48) as u64;
        let ghost p = s@.subrange(0, i as int);
        let ghost q = s@.subrange(0, i + 1 as int);
        proof {
            assert(q.drop_last() =~= p);
            assert(q.last() == s@[i as int]);
            lemma_digits_val_nonneg(p);
        }
        if acc > (u64::MAX - d) / 10 {
            proof {
                // acc * 10 + d > u64::MAX, so the value of the longer
                // prefix, and of the whole string, is out of range.
                assert(10 * acc > u64::MAX - d) by {
                    if 10 * acc <= u64::MAX - d {
                        lemma_multiply_divide_le(u64::MAX - d, 10, acc as int);
                    }
                };
                assert(digits_val(q) > u64::MAX);
                if all_digits(s@) && digits_val(s@) <= u64::MAX {
                    lemma_digits_val_prefix_le(s@, i + 1);
                }
            }
            return None;
        }
        proof {
            assert(acc * 10 + d <= u64::MAX) by {
                assert(acc <= (u64::MAX - d) / 10);
                lemma_fundamental_div_mod(u64::MAX - d, 10);
                assert(acc * 10 <= ((u64::MAX - d) / 10) * 10) by (nonlinear_arith)
                    requires acc <= (u64::MAX - d) / 10,
                ;
            };
        }
        acc = acc * 10 + d;
        i = i + 1;
        proof {
            assert(s@.subrange(0, i as int) =~= q);
        }
    }
    proof {
        assert(s@.subrange(0, s@.len() as int) =~= s@);
    }
    Some(acc)
}

/// Parse an unsigned decimal into a `u32`.
pub fn parse_u32(s: &[u8]) -> (r: Option<u32>)
    ensures
        r is Some <==> (s@.len() > 0 && all_digits(s@) && digits_val(s@) <= u32::MAX),
        r matches Some(v) ==> v == digits_val(s@),
{
    match parse_u64(s) {
        Some(v) => {
            if v <= 0xFFFF_FFFF {
                Some(v as u32)
            } else {
                None
            }
        },
        None => {
            proof {
                if s@.len() > 0 && all_digits(s@) && digits_val(s@) <= u32::MAX {
                    assert(digits_val(s@) <= u64::MAX);
                }
            }
            None
        },
    }
}

/// The shape of an optionally signed decimal.
pub open spec fn signed_shape(s: Seq<u8>) -> bool {
    if s.len() > 0 && s[0] == 45 {
        s.len() > 1 && all_digits(s.drop_first())
    } else {
        s.len() > 0 && all_digits(s)
    }
}

/// The value of an optionally signed decimal.
pub open spec fn signed_val(s: Seq<u8>) -> int {
    if s.len() > 0 && s[0] == 45 {
        -digits_val(s.drop_first())
    } else {
        digits_val(s)
    }
}

/// Parse an optionally signed decimal into an `i64`; the magnitude must be
/// at most `i64::MAX`.
pub fn parse_i64(s: &[u8]) -> (r: Option<i64>)
    ensures
        r is Some <==> (signed_shape(s@) && -i64::MAX <= signed_val(s@) <= i64::MAX),
        r matches Some(v) ==> v == signed_val(s@),
{
    if s.len() > 0 && s[0] == 45 {
        let (_, rest) = s.split_at(1);
        proof {
            assert(rest@ =~= s@.drop_first());
        }
        match parse_u64(rest) {
            Some(v) => {
                proof {
                    lemma_digits_val_nonneg(rest@);
                }
                if v <= i64::MAX as u64 {
                    Some(-(v as i64))
                } else {
                    None
                }
            },
            None => None,
        }
    } else {
        match parse_u64(s) {
            Some(v) => {
                if v <= i64::MAX as u64 {
                    Some(v as i64)
                } else {
                    None
                }
            },
            None => None,
        }
    }
}

/// The decimal digits of `v`, most significant first (no leading zeros
/// except for `0` itself).
pub open spec fn dec_digits(v: nat) -> Seq<u8>
    decreases v,
{
    if v < 10 {
        seq![(48 + v) as u8]
    } else {
        dec_digits(v / 10).push((48 + v % 10) as u8)
    }
}

pub proof fn lemma_dec_digits(v: nat)
    ensures
        dec_digits(v).len() >= 1,
        all_digits(dec_digits(v)),
        digits_val(dec_digits(v)) == v,
    decreases v,
{
    if v < 10 {
        assert(digits_val(dec_digits(v).drop_last()) == 0) by {
            assert(dec_digits(v).drop_last() =~= Seq::<u8>::empty());
        }
    } else {
        lemma_dec_digits(v / 10);
        let d = dec_digits(v);
        assert(d.drop_last() =~= dec_digits(v / 10));
        lemma_fundamental_div_mod(v as int, 10);
        assert(forall|i: int| 0 <= i < d.len() - 1 ==> d[i] == dec_digits(v / 10)[i]);
    }
}

/// Write the decimal digits of `v` onto `out`.
pub fn fmt_u64_into(v: u64, out: &mut Vec<u8>)
    ensures
        final(out)@ == old(out)@ + dec_digits(v as nat),
    decreases v,
{
    if v < 10 {
        out.push(48 + v as u8);
        proof {
            assert(out@ =~= old(out)@ + dec_digits(v as nat));
        }
    } else {
        fmt_u64_into(v / 10, out);
        out.push(48 + (v % 10) as u8);
        proof {
            assert(out@ =~= old(out)@ + dec_digits(v as nat));
        }
    }
}

/// The bytes of an optionally signed decimal.
pub open spec fn signed_dec(v: int) -> Seq<u8> {
    if v < 0 {
        seq![45u8] + dec_digits((-v) as nat)
    } else {
        dec_digits(v as nat)
    }
}

/// Write the optionally signed decimal of `v` onto `out`.
pub fn fmt_i64_into(v: i64, out: &mut Vec<u8>)
    requires
        v > i64::MIN,
    ensures
        final(out)@ == old(out)@ + signed_dec(v as int),
    decreases v,
{
    if v < 0 {
        out.push(45);
        let m = -v;
        fmt_u64_into(m as u64, out);
        proof {
            assert(out@ =~= old(out)@ + signed_dec(v as int));
        }
    } else {
        fmt_u64_into(v as u64, out);
    }
}

/// LAW: formatting then parsing gives back the value.
pub proof fn lemma_signed_roundtrip(v: int)
    ensures
        signed_shape(signed_dec(v)),
        signed_val(signed_dec(v)) == v,
{
    if v < 0 {
        lemma_dec_digits((-v) as nat);
        let s = signed_dec(v);
        assert(s.drop_first() =~= dec_digits((-v) as nat));
        assert(s[0] == 45);
    } else {
        lemma_dec_digits(v as nat);
        let s = signed_dec(v);
        assert(s[0] != 45) by {
            lemma_dec_digits_first(v as nat);
        }
    }
}

/// The first byte of a decimal rendering is a digit.
proof fn lemma_dec_digits_first(v: nat)
    ensures
        is_digit(dec_digits(v)[0]),
    decreases v,
{
    if v >= 10 {
        lemma_dec_digits_first(v / 10);
        assert(dec_digits(v)[0] == dec_digits(v / 10)[0]);
    }
}

} // verus!
