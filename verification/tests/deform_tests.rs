use tilematch::deform::{deform_width, deformation_fixed};

#[test]
fn equator_keeps_full_width() {
    // z = 8 puts the equator at row 64 of the 128-row half span.
    assert_eq!(deformation_fixed(64, 8), 65536);
    assert_eq!(deform_width(512, 64, 8), 512);
}

#[test]
fn poles_collapse_to_zero() {
    assert_eq!(deformation_fixed(0, 8), 0);
    assert_eq!(deform_width(512, 0, 8), 0);
    assert_eq!(deform_width(512, 128, 8), 0);
}

#[test]
fn width_never_exceeds_input() {
    for y in 0..=128 {
        assert!(deform_width(512, y, 8) <= 512);
    }
}

#[test]
fn width_is_monotone_toward_equator() {
    // Northern half: less latitude means more width.
    for y in 0..64 {
        assert!(deform_width(512, y, 8) <= deform_width(512, y + 1, 8));
    }
    // Southern half mirrors it.
    for y in 64..128 {
        assert!(deform_width(512, y, 8) >= deform_width(512, y + 1, 8));
    }
}

#[test]
fn width_is_symmetric_about_the_equator() {
    for y in 0..=128 {
        assert_eq!(deform_width(512, y, 8), deform_width(512, 128 - y, 8));
    }
}

#[test]
fn mid_latitude_value_is_exact() {
    assert_eq!(deform_width(512, 32, 8), 362);
    assert_eq!(deform_width(512, 96, 8), 362);
}
