//! The persisted result log.
//!
//! One CSV row per processed frame
//! (`Frame,tile_x,tile_y,tile_z,zoom,x,y,score,time`); the log is both the
//! durable output and the resume checkpoint.  Zoom is recorded as its
//! half-precision bit pattern, score as its fixed-point value and time in
//! milliseconds, so every row re-reads to exactly the record it came from.

use vstd::prelude::*;

verus! {

use crate::parse::{
    is_digit, all_digits, digits_val, dec_digits, signed_shape, signed_val, signed_dec,
    parse_u64, parse_i64, fmt_u64_into, fmt_i64_into, lemma_dec_digits,
    lemma_digits_val_nonneg, lemma_signed_roundtrip,
};

pub const COMMA: u8 = 44;
pub const NEWLINE: u8 = 10;
pub const HASH: u8 = 35;

/// One row of the result log.
#[derive(Clone, Copy, Debug, PartialEq, Eq, Structural)]
pub struct FrameRecord {
    pub frame: u32,
    pub tile_x: u32,
    pub tile_y: u32,
    pub tile_z: u32,
    pub zoom: u16,
    pub x: u32,
    pub y: u32,
    pub score: i64,
}

/// Why a log refuses to load.
#[derive(Clone, Copy, Debug, PartialEq, Eq, Structural)]
pub enum LogError {
    /// A data row that does not parse; holds its zero-based line index.
    Malformed(usize),
    /// A frame id that appears on two rows.
    DuplicateFrame(u32),
}

/// Split at every separator byte; n separators give n + 1 pieces.
pub open spec fn split_by(s: Seq<u8>, sep: u8) -> Seq<Seq<u8>>
    decreases s.len(),
{
    if s.len() == 0 {
        seq![Seq::<u8>::empty()]
    } else if s.last() == sep {
        split_by(s.drop_last(), sep).push(Seq::<u8>::empty())
    } else {
        let r = split_by(s.drop_last(), sep);
        r.update(r.len() - 1, r.last().push(s.last()))
    }
}

pub proof fn lemma_split_by_len(s: Seq<u8>, sep: u8)
    ensures
        split_by(s, sep).len() >= 1,
    decreases s.len(),
{
    if s.len() > 0 {
        lemma_split_by_len(s.drop_last(), sep);
    }
}

/// Splitting around one separator splits each side on its own.
pub proof fn lemma_split_by_append(s: Seq<u8>, t: Seq<u8>, sep: u8)
    ensures
        split_by(s + seq![sep] + t, sep) =~~= split_by(s, sep) + split_by(t, sep),
    decreases t.len(),
{
    lemma_split_by_len(s, sep);
    lemma_split_by_len(t, sep);
    if t.len() == 0 {
        assert((s + seq![sep] + t) =~= s + seq![sep]);
        assert((s + seq![sep]).drop_last() =~= s);
        assert(split_by(s + seq![sep], sep) =~= split_by(s, sep).push(Seq::<u8>::empty()));
        assert(split_by(t, sep) =~= seq![Seq::<u8>::empty()]);
    } else {
        lemma_split_by_append(s, t.drop_last(), sep);
        let whole = s + seq![sep] + t;
        assert(whole.drop_last() =~= s + seq![sep] + t.drop_last());
        assert(whole.last() == t.last());
        if t.last() == sep {
            assert(split_by(whole, sep) =~= split_by(whole.drop_last(), sep).push(
                Seq::<u8>::empty(),
            ));
        } else {
            let r = split_by(whole.drop_last(), sep);
            let rs = split_by(s, sep);
            let rt = split_by(t.drop_last(), sep);
            lemma_split_by_len(t.drop_last(), sep);
            assert(r =~~= rs + rt);
            assert((rs + rt).len() == rs.len() + rt.len());
            assert(r.len() == rs.len() + rt.len());
            assert(rt.len() >= 1);
            assert(r.last() == rt.last()) by {
                assert(r[r.len() - 1] == (rs + rt)[r.len() - 1]);
                assert((rs + rt)[rs.len() + rt.len() - 1] == rt[rt.len() - 1]);
            }
            let lhs = r.update(r.len() - 1, r.last().push(t.last()));
            let rhs = rs + rt.update(rt.len() - 1, rt.last().push(t.last()));
            assert forall|k: int| 0 <= k < lhs.len() implies lhs[k] =~= rhs[k] by {
                assert(r[k] == (rs + rt)[k]);
                if k < rs.len() {
                    assert((rs + rt)[k] == rs[k] && rhs[k] == rs[k]);
                } else if k < lhs.len() - 1 {
                    assert((rs + rt)[k] == rt[k - rs.len()]);
                    assert(rhs[k] == rt.update(rt.len() - 1, rt.last().push(t.last()))[k
                        - rs.len()]);
                } else {
                    assert(rhs[k] == rt.update(rt.len() - 1, rt.last().push(t.last()))[k
                        - rs.len()]);
                }
            }
            assert(lhs =~~= rhs);
        }
    }
}

/// A piece without the separator splits to itself alone.
pub proof fn lemma_split_by_whole(s: Seq<u8>, sep: u8)
    requires
        !s.contains(sep),
    ensures
        split_by(s, sep) =~~= seq![s],
    decreases s.len(),
{
    if s.len() > 0 {
        assert(s.last() != sep);
        assert(!s.drop_last().contains(sep)) by {
            if s.drop_last().contains(sep) {
                let i = choose|i: int| 0 <= i < s.len() - 1 && s.drop_last()[i] == sep;
                assert(s[i] == sep);
            }
        }
        lemma_split_by_whole(s.drop_last(), sep);
        assert(seq![s.drop_last()].update(0, s.drop_last().push(s.last())) =~~= seq![
            s.drop_last().push(s.last()),
        ]);
        assert(s.drop_last().push(s.last()) =~= s);
    }
}

/// Split a byte string at every separator.
pub fn split_bytes(s: &[u8], sep: u8) -> (r: Vec<Vec<u8>>)
    ensures
        r@.map_values(|v: Vec<u8>| v@) == split_by(s@, sep),
{
    let mut done: Vec<Vec<u8>> = Vec::new();
    let mut cur: Vec<u8> = Vec::new();
    let mut i: usize = 0;
    while i < s.len()
        invariant
            i <= s@.len(),
            split_by(s@.subrange(0, i as int), sep) =~~= done@.map_values(|v: Vec<u8>| v@).push(
                cur@,
            ),
        decreases s@.len() - i,
    {
        let ghost pre = s@.subrange(0, i as int);
        let ghost post = s@.subrange(0, i + 1 as int);
        proof {
            assert(post.drop_last() =~= pre);
            assert(post.last() == s@[i as int]);
        }
        let b = s[i];
        if b == sep {
            done.push(cur);
            cur = Vec::new();
            proof {
                assert(split_by(post, sep) =~= split_by(pre, sep).push(Seq::<u8>::empty()));
                assert(split_by(pre, sep).push(Seq::<u8>::empty()) =~~= done@.map_values(
                    |v: Vec<u8>| v@,
                ).push(cur@));
            }
        } else {
            cur.push(b);
            proof {
                let r0 = split_by(pre, sep);
                assert(r0.last() == cur@.drop_last());
                assert(split_by(post, sep) =~~= r0.update(r0.len() - 1, r0.last().push(b)));
                assert(r0.update(r0.len() - 1, r0.last().push(b)) =~~= done@.map_values(
                    |v: Vec<u8>| v@,
                ).push(cur@));
            }
        }
        i = i + 1;
    }
    proof {
        assert(s@.subrange(0, s@.len() as int) =~= s@);
    }
    done.push(cur);
    proof {
        assert(done@.map_values(|v: Vec<u8>| v@) =~~= split_by(s@, sep));
    }
    done
}

/// An unsigned field of at most `max`.
pub open spec fn uint_field_ok(s: Seq<u8>, max: int) -> bool {
    s.len() > 0 && all_digits(s) && digits_val(s) <= max
}

/// A score field: optionally signed, magnitude at most `i64::MAX`.
pub open spec fn score_field_ok(s: Seq<u8>) -> bool {
    signed_shape(s) && -i64::MAX <= signed_val(s) <= i64::MAX
}

/// What a data row must look like: at least eight comma-separated fields
/// (anything past the eighth, such as the elapsed time, is ignored).
pub open spec fn record_shape(line: Seq<u8>) -> bool {
    let f = split_by(line, COMMA);
    &&& f.len() >= 8
    &&& uint_field_ok(f[0], u32::MAX as int)
    &&& uint_field_ok(f[1], u32::MAX as int)
    &&& uint_field_ok(f[2], u32::MAX as int)
    &&& uint_field_ok(f[3], u32::MAX as int)
    &&& uint_field_ok(f[4], u16::MAX as int)
    &&& uint_field_ok(f[5], u32::MAX as int)
    &&& uint_field_ok(f[6], u32::MAX as int)
    &&& score_field_ok(f[7])
}

/// The record a well-shaped row denotes.
pub open spec fn record_of(line: Seq<u8>) -> FrameRecord {
    let f = split_by(line, COMMA);
    FrameRecord {
        frame: digits_val(f[0]) as u32,
        tile_x: digits_val(f[1]) as u32,
        tile_y: digits_val(f[2]) as u32,
        tile_z: digits_val(f[3]) as u32,
        zoom: digits_val(f[4]) as u16,
        x: digits_val(f[5]) as u32,
        y: digits_val(f[6]) as u32,
        score: signed_val(f[7]) as i64,
    }
}

fn parse_u32_field(s: &Vec<u8>) -> (r: Option<u32>)
    ensures
        r is Some <==> uint_field_ok(s@, u32::MAX as int),
        r matches Some(v) ==> v == digits_val(s@),
{
    match parse_u64(s.as_slice()) {
        Some(v) => if v <= 0xFFFF_FFFF {
            Some(v as u32)
        } else {
            None
        },
        None => None,
    }
}

/// Parse one data row.
pub fn parse_record(line: &Vec<u8>) -> (r: Option<FrameRecord>)
    ensures
        r is Some <==> record_shape(line@),
        r matches Some(rec) ==> rec == record_of(line@),
{
    let fields = split_bytes(line.as_slice(), COMMA);
    proof {
        assert(fields@.map_values(|v: Vec<u8>| v@).len() == fields@.len());
    }
    if fields.len() < 8 {
        return None;
    }
    proof {
        assert forall|i: int| 0 <= i < 8 implies fields@.map_values(|v: Vec<u8>| v@)[i]
            == fields@[i]@ by {}
    }
    let frame = parse_u32_field(&fields[0]);
    let tile_x = parse_u32_field(&fields[1]);
    let tile_y = parse_u32_field(&fields[2]);
    let tile_z = parse_u32_field(&fields[3]);
    let zoom64 = parse_u64(fields[4].as_slice());
    let x = parse_u32_field(&fields[5]);
    let y = parse_u32_field(&fields[6]);
    let score = parse_i64(fields[7].as_slice());
    match (frame, tile_x, tile_y, tile_z, zoom64, x, y, score) {
        (
            Some(frame),
            Some(tile_x),
            Some(tile_y),
            Some(tile_z),
            Some(zoom),
            Some(x),
            Some(y),
            Some(score),
        ) => {
            if zoom <= 0xFFFF {
                Some(
                    FrameRecord {
                        frame,
                        tile_x,
                        tile_y,
                        tile_z,
                        zoom: zoom as u16,
                        x,
                        y,
                        score,
                    },
                )
            } else {
                None
            }
        },
        _ => None,
    }
}

/// The bytes of one data row (without the line terminator): the eight
/// record fields and the elapsed milliseconds.
pub open spec fn record_line(rec: FrameRecord, time_ms: u64) -> Seq<u8> {
    dec_digits(rec.frame as nat) + seq![COMMA] + (dec_digits(rec.tile_x as nat) + seq![COMMA]
        + (dec_digits(rec.tile_y as nat) + seq![COMMA] + (dec_digits(rec.tile_z as nat)
        + seq![COMMA] + (dec_digits(rec.zoom as nat) + seq![COMMA] + (dec_digits(rec.x as nat)
        + seq![COMMA] + (dec_digits(rec.y as nat) + seq![COMMA] + (signed_dec(rec.score as int)
        + seq![COMMA] + dec_digits(time_ms as nat))))))))
}

/// Render one data row.
#[verifier::rlimit(100)]
pub fn format_record(rec: &FrameRecord, time_ms: u64) -> (r: Vec<u8>)
    requires
        rec.score > i64::MIN,
    ensures
        r@ == record_line(*rec, time_ms),
{
    let mut out: Vec<u8> = Vec::new();
    fmt_u64_into(rec.frame as u64, &mut out);
    out.push(COMMA);
    fmt_u64_into(rec.tile_x as u64, &mut out);
    out.push(COMMA);
    fmt_u64_into(rec.tile_y as u64, &mut out);
    out.push(COMMA);
    fmt_u64_into(rec.tile_z as u64, &mut out);
    out.push(COMMA);
    fmt_u64_into(rec.zoom as u64, &mut out);
    out.push(COMMA);
    fmt_u64_into(rec.x as u64, &mut out);
    out.push(COMMA);
    fmt_u64_into(rec.y as u64, &mut out);
    out.push(COMMA);
    fmt_i64_into(rec.score, &mut out);
    out.push(COMMA);
    fmt_u64_into(time_ms, &mut out);
    proof {
        assert(out@ =~= record_line(*rec, time_ms));
    }
    out
}

/// Digit strings contain no comma.
proof fn lemma_digits_no_comma(s: Seq<u8>)
    requires
        all_digits(s),
    ensures
        !s.contains(COMMA),
{
    if s.contains(COMMA) {
        let i = choose|i: int| 0 <= i < s.len() && s[i] == COMMA;
        assert(is_digit(s[i]));
    }
}

proof fn lemma_signed_no_comma(s: Seq<u8>)
    requires
        signed_shape(s),
    ensures
        !s.contains(COMMA),
{
    if s.contains(COMMA) {
        let i = choose|i: int| 0 <= i < s.len() && s[i] == COMMA;
        if s[0] == 45 {
            if i > 0 {
                assert(is_digit(s.drop_first()[i - 1]));
            }
        } else {
            assert(is_digit(s[i]));
        }
    }
}

/// One field peels off the front of a row.
proof fn lemma_split_field(f: Seq<u8>, rest: Seq<u8>)
    requires
        !f.contains(COMMA),
    ensures
        split_by(f + seq![COMMA] + rest, COMMA) =~~= seq![f] + split_by(rest, COMMA),
{
    lemma_split_by_append(f, rest, COMMA);
    lemma_split_by_whole(f, COMMA);
}

/// LAW (resume round trip): a formatted row re-reads to exactly the record
/// it was formatted from.
#[verifier::rlimit(100)]
pub proof fn lemma_record_roundtrip(rec: FrameRecord, time_ms: u64)
    requires
        rec.score > i64::MIN,
    ensures
        record_shape(record_line(rec, time_ms)),
        record_of(record_line(rec, time_ms)) == rec,
{
    let f0 = dec_digits(rec.frame as nat);
    let f1 = dec_digits(rec.tile_x as nat);
    let f2 = dec_digits(rec.tile_y as nat);
    let f3 = dec_digits(rec.tile_z as nat);
    let f4 = dec_digits(rec.zoom as nat);
    let f5 = dec_digits(rec.x as nat);
    let f6 = dec_digits(rec.y as nat);
    let f7 = signed_dec(rec.score as int);
    let f8 = dec_digits(time_ms as nat);
    lemma_dec_digits(rec.frame as nat);
    lemma_dec_digits(rec.tile_x as nat);
    lemma_dec_digits(rec.tile_y as nat);
    lemma_dec_digits(rec.tile_z as nat);
    lemma_dec_digits(rec.zoom as nat);
    lemma_dec_digits(rec.x as nat);
    lemma_dec_digits(rec.y as nat);
    lemma_dec_digits(time_ms as nat);
    lemma_signed_roundtrip(rec.score as int);
    lemma_digits_no_comma(f0);
    lemma_digits_no_comma(f1);
    lemma_digits_no_comma(f2);
    lemma_digits_no_comma(f3);
    lemma_digits_no_comma(f4);
    lemma_digits_no_comma(f5);
    lemma_digits_no_comma(f6);
    lemma_signed_no_comma(f7);
    lemma_digits_no_comma(f8);
    let line = record_line(rec, time_ms);
    let tail8 = f8;
    let tail7 = f7 + seq![COMMA] + tail8;
    let tail6 = f6 + seq![COMMA] + tail7;
    let tail5 = f5 + seq![COMMA] + tail6;
    let tail4 = f4 + seq![COMMA] + tail5;
    let tail3 = f3 + seq![COMMA] + tail4;
    let tail2 = f2 + seq![COMMA] + tail3;
    let tail1 = f1 + seq![COMMA] + tail2;
    assert(split_by(tail8, COMMA) =~~= seq![f8]) by {
        lemma_split_by_whole(f8, COMMA);
    }
    assert(split_by(tail7, COMMA) =~~= seq![f7, f8]) by {
        lemma_split_field(f7, tail8);
        assert(seq![f7] + seq![f8] =~~= seq![f7, f8]);
    }
    assert(split_by(tail6, COMMA) =~~= seq![f6, f7, f8]) by {
        lemma_split_field(f6, tail7);
        assert(seq![f6] + seq![f7, f8] =~~= seq![f6, f7, f8]);
    }
    assert(split_by(tail5, COMMA) =~~= seq![f5, f6, f7, f8]) by {
        lemma_split_field(f5, tail6);
        assert(seq![f5] + seq![f6, f7, f8] =~~= seq![f5, f6, f7, f8]);
    }
    assert(split_by(tail4, COMMA) =~~= seq![f4, f5, f6, f7, f8]) by {
        lemma_split_field(f4, tail5);
        assert(seq![f4] + seq![f5, f6, f7, f8] =~~= seq![f4, f5, f6, f7, f8]);
    }
    assert(split_by(tail3, COMMA) =~~= seq![f3, f4, f5, f6, f7, f8]) by {
        lemma_split_field(f3, tail4);
        assert(seq![f3] + seq![f4, f5, f6, f7, f8] =~~= seq![f3, f4, f5, f6, f7, f8]);
    }
    assert(split_by(tail2, COMMA) =~~= seq![f2, f3, f4, f5, f6, f7, f8]) by {
        lemma_split_field(f2, tail3);
        assert(seq![f2] + seq![f3, f4, f5, f6, f7, f8] =~~= seq![f2, f3, f4, f5, f6, f7, f8]);
    }
    assert(split_by(tail1, COMMA) =~~= seq![f1, f2, f3, f4, f5, f6, f7, f8]) by {
        lemma_split_field(f1, tail2);
        assert(seq![f1] + seq![f2, f3, f4, f5, f6, f7, f8] =~~= seq![
            f1, f2, f3, f4, f5, f6, f7, f8,
        ]);
    }
    assert(line == f0 + seq![COMMA] + tail1);
    assert(split_by(line, COMMA) =~~= seq![f0, f1, f2, f3, f4, f5, f6, f7, f8]) by {
        lemma_split_field(f0, tail1);
        assert(seq![f0] + seq![f1, f2, f3, f4, f5, f6, f7, f8] =~~= seq![
            f0, f1, f2, f3, f4, f5, f6, f7, f8,
        ]);
    }
    let f = split_by(line, COMMA);
    assert(f[0] == f0 && f[1] == f1 && f[2] == f2 && f[3] == f3 && f[4] == f4 && f[5] == f5
        && f[6] == f6 && f[7] == f7);
}

/// No two records carry the same frame id.
pub open spec fn frames_unique(recs: Seq<FrameRecord>) -> bool {
    forall|i: int, j: int| 0 <= i < j < recs.len() ==> recs[i].frame != recs[j].frame
}

/// Whether a row is data: not the header (handled by the caller), not
/// blank, not a comment.
pub open spec fn is_data_line(line: Seq<u8>) -> bool {
    line.len() > 0 && line[0] != HASH
}

/// The records denoted by a log's bytes, in file order, or `None` where
/// some data row is malformed.
pub open spec fn log_records(content: Seq<u8>) -> Option<Seq<FrameRecord>> {
    let ls = split_by(content, NEWLINE).drop_first();
    if forall|i: int| 0 <= i < ls.len() && is_data_line(#[trigger] ls[i]) ==> record_shape(ls[i]) {
        Some(
            ls.filter(|l: Seq<u8>| is_data_line(l)).map_values(|l: Seq<u8>| record_of(l)),
        )
    } else {
        None
    }
}

/// Parse a whole result log: the first line (the header) is skipped, blank
/// and `#` lines are skipped, any malformed data row is a fatal error, and
/// a duplicated frame id is a fatal error.
pub fn parse_log(content: &[u8]) -> (r: Result<Vec<FrameRecord>, LogError>)
    ensures
        r matches Ok(recs) ==> {
            &&& log_records(content@) == Some(recs@)
            &&& frames_unique(recs@)
        },
        r matches Err(e) ==> (e matches LogError::Malformed(_) && log_records(content@) is None)
            || (e matches LogError::DuplicateFrame(_) && (log_records(content@) matches Some(recs)
            && !frames_unique(recs))),
{
    let all_lines = split_bytes(content, NEWLINE);
    let ghost ls = split_by(content@, NEWLINE).drop_first();
    let mut recs: Vec<FrameRecord> = Vec::new();
    let mut i: usize = 1;
    proof {
        lemma_split_by_len(content@, NEWLINE);
        assert(all_lines@.len() >= 1);
    }
    while i < all_lines.len()
        invariant
            1 <= i <= all_lines@.len(),
            all_lines@.map_values(|v: Vec<u8>| v@) == split_by(content@, NEWLINE),
            ls == split_by(content@, NEWLINE).drop_first(),
            forall|j: int|
                0 <= j < i - 1 && is_data_line(#[trigger] ls[j]) ==> record_shape(ls[j]),
            recs@ == ls.subrange(0, i - 1).filter(|l: Seq<u8>| is_data_line(l)).map_values(
                |l: Seq<u8>| record_of(l),
            ),
        decreases all_lines@.len() - i,
    {
        let line = &all_lines[i];
        let ghost lv = ls[i - 1];
        proof {
            assert(all_lines@.map_values(|v: Vec<u8>| v@)[i as int] == line@);
            assert(lv == line@);
            assert(ls.subrange(0, i as int).drop_last() =~= ls.subrange(0, i - 1));
            reveal_with_fuel(Seq::filter, 2);
        }
        let data = line.len() > 0 && line[0] != HASH;
        if data {
            match parse_record(line) {
                Some(rec) => {
                    recs.push(rec);
                },
                None => {
                    return Err(LogError::Malformed(i));
                },
            }
        }
        proof {
            let pre = ls.subrange(0, i - 1);
            let cur = ls.subrange(0, i as int);
            assert(cur.drop_last() =~= pre);
            assert(cur.last() == lv);
            assert(cur.filter(|l: Seq<u8>| is_data_line(l)) == if is_data_line(lv) {
                pre.filter(|l: Seq<u8>| is_data_line(l)).push(lv)
            } else {
                pre.filter(|l: Seq<u8>| is_data_line(l))
            });
        }
        i = i + 1;
    }
    proof {
        assert(ls.subrange(0, ls.len() as int) =~= ls);
        assert(log_records(content@) == Some(recs@));
    }
    let mut a: usize = 0;
    while a < recs.len()
        invariant
            a <= recs@.len(),
            log_records(content@) == Some(recs@),
            forall|p: int, q: int| 0 <= p < q < recs@.len() && p < a ==> recs@[p].frame
                != recs@[q].frame,
        decreases recs@.len() - a,
    {
        let mut b: usize = a + 1;
        while b < recs.len()
            invariant
                a < b <= recs@.len(),
                log_records(content@) == Some(recs@),
                forall|q: int| a < q < b ==> recs@[a as int].frame != recs@[q].frame,
            decreases recs@.len() - b,
        {
            if recs[a].frame == recs[b].frame {
                proof {
                    assert(recs@[a as int].frame == recs@[b as int].frame);
                    assert(!frames_unique(recs@));
                }
                return Err(LogError::DuplicateFrame(recs[a].frame));
            }
            b = b + 1;
        }
        a = a + 1;
    }
    Ok(recs)
}

/// Find the record for a frame, if the log already holds one.
pub fn find_frame(recs: &Vec<FrameRecord>, frame: u32) -> (r: Option<usize>)
    ensures
        r matches Some(i) ==> i < recs@.len() && recs@[i as int].frame == frame,
        r is None ==> forall|i: int| 0 <= i < recs@.len() ==> recs@[i].frame != frame,
{
    let mut i: usize = 0;
    while i < recs.len()
        invariant
            i <= recs@.len(),
            forall|j: int| 0 <= j < i ==> recs@[j].frame != frame,
        decreases recs@.len() - i,
    {
        if recs[i].frame == frame {
            return Some(i);
        }
        i = i + 1;
    }
    None
}

} // verus!
