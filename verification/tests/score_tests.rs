use tilematch::score::{score_from_bits, unpack, zoom_scale, SCORE_INF, SCORE_NEG_INF};

#[test]
fn half_precision_decodes_exactly() {
    // 1.0 is 2^24 in fixed point.
    assert_eq!(score_from_bits(0x3C00), 1 << 24);
    // 1.5
    assert_eq!(score_from_bits(0x3E00), 25165824);
    // -1.0
    assert_eq!(score_from_bits(0xBC00), -(1 << 24));
    // Smallest subnormal is one fixed-point unit.
    assert_eq!(score_from_bits(0x0001), 1);
    assert_eq!(score_from_bits(0x8001), -1);
    // Zeros.
    assert_eq!(score_from_bits(0x0000), 0);
    assert_eq!(score_from_bits(0x8000), 0);
}

#[test]
fn infinities_sort_above_and_below_all_finite_values() {
    assert_eq!(score_from_bits(0x7C00), SCORE_INF);
    assert_eq!(score_from_bits(0xFC00), -SCORE_INF);
    // Largest finite half value (65504.0) stays below the infinity mark.
    assert!(score_from_bits(0x7BFF) < SCORE_INF);
}

#[test]
fn nan_scores_never_win() {
    assert_eq!(score_from_bits(0x7C01), SCORE_NEG_INF);
    assert_eq!(score_from_bits(0xFE00), SCORE_NEG_INF);
    assert!(SCORE_NEG_INF < -SCORE_INF);
}

#[test]
fn decoding_preserves_order_on_positives() {
    let mut prev = score_from_bits(0x0000);
    for bits in 1u16..0x7C00 {
        let v = score_from_bits(bits);
        assert!(v > prev);
        prev = v;
    }
}

#[test]
fn packed_words_split_into_score_and_zoom() {
    let (score_bits, zoom_bits) = unpack(0x3800_3C00);
    assert_eq!(score_bits, 0x3C00);
    assert_eq!(zoom_bits, 0x3800);
}

#[test]
fn zoom_scaling_is_exact() {
    // 0.5 zoom halves, rounding down.
    assert_eq!(zoom_scale(100, 0x3800), 50);
    assert_eq!(zoom_scale(101, 0x3800), 50);
    // 1.0 zoom is the identity.
    assert_eq!(zoom_scale(12345, 0x3C00), 12345);
    // 2.0 doubles.
    assert_eq!(zoom_scale(7, 0x4000), 14);
}
