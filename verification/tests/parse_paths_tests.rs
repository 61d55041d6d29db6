use tilematch::parse::{fmt_i64_into, fmt_u64_into, parse_i64, parse_u32, parse_u64};
use tilematch::paths::extract_tile_pos;

#[test]
fn unsigned_decimals_parse_exactly() {
    assert_eq!(parse_u64(b"0"), Some(0));
    assert_eq!(parse_u64(b"18446744073709551615"), Some(u64::MAX));
    assert_eq!(parse_u64(b"18446744073709551616"), None);
    assert_eq!(parse_u64(b""), None);
    assert_eq!(parse_u64(b"12a"), None);
    assert_eq!(parse_u32(b"4294967295"), Some(u32::MAX));
    assert_eq!(parse_u32(b"4294967296"), None);
}

#[test]
fn signed_decimals_parse_exactly() {
    assert_eq!(parse_i64(b"-1"), Some(-1));
    assert_eq!(parse_i64(b"9223372036854775807"), Some(i64::MAX));
    assert_eq!(parse_i64(b"-9223372036854775807"), Some(-i64::MAX));
    assert_eq!(parse_i64(b"-"), None);
    assert_eq!(parse_i64(b"--3"), None);
}

#[test]
fn formatting_round_trips() {
    for v in [0u64, 7, 10, 99, 100, 65535, u64::MAX] {
        let mut out = Vec::new();
        fmt_u64_into(v, &mut out);
        assert_eq!(parse_u64(&out), Some(v));
    }
    for v in [0i64, -1, 42, -5033165, i64::MAX, -i64::MAX] {
        let mut out = Vec::new();
        fmt_i64_into(v, &mut out);
        assert_eq!(parse_i64(&out), Some(v));
    }
}

#[test]
fn tile_positions_come_from_the_last_three_segments() {
    assert_eq!(extract_tile_pos("data/tiles_grad/7/27/35.png"), (35, 27, 7));
    assert_eq!(extract_tile_pos("9/108/140.jpeg"), (140, 108, 9));
}

#[test]
fn windows_separators_are_accepted() {
    assert_eq!(
        extract_tile_pos("data\\tiles_grad\\8\\54\\70.png"),
        (70, 54, 8)
    );
}
