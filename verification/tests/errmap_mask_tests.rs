use tilematch::errmap::{residual_at, ErrorMap, ERR_INIT};
use tilematch::mask::{dot_parts, similar_at_least, Mask};
use tilematch::tiles::TileImage;
use tilematch::topk::ZOOM_ONE_BITS;

fn mask_1x1(r: u8, g: u8, b: u8) -> Mask {
    Mask::new(1, 1, vec![r, g, b, 255])
}

#[test]
fn residual_matches_the_exact_formula() {
    // Missing brightness in the first channel only.
    assert_eq!(residual_at(200, 0, 0, 100, 50), 25700);
    // Pure synthesis-weight penalty on present detail.
    assert_eq!(residual_at(0, 0, 255, 100, 100), 25700);
    // Nothing missing, nothing penalised.
    assert_eq!(residual_at(0, 0, 0, 200, 200), 0);
    assert_eq!(residual_at(100, 100, 0, 255, 255), 0);
}

#[test]
fn fresh_map_decays_by_halving() {
    let mut e = ErrorMap::new(2, 2);
    assert!(e.values.iter().all(|v| *v == ERR_INIT));
    e.decay();
    assert!(e.values.iter().all(|v| *v == ERR_INIT / 2));
    e.decay();
    assert!(e.values.iter().all(|v| *v == ERR_INIT / 4));
}

#[test]
fn accumulate_adds_the_residual_of_the_sampled_pixel() {
    let mut e = ErrorMap::new(1, 1);
    let m = mask_1x1(200, 0, 0);
    let t = TileImage::new((0, 0, 1), 2, 2, {
        let mut d = vec![0u8; 16];
        d[0] = 100;
        d[1] = 50;
        d
    });
    e.accumulate(&m, &t, 0, 0, ZOOM_ONE_BITS);
    assert_eq!(e.values[0], ERR_INIT + 25700);
}

#[test]
fn reweighting_scales_the_signal_channels_only() {
    let mut e = ErrorMap::new(1, 1);
    // error 1.0 makes the factor exactly 1: the mask is unchanged
    e.values[0] = 65536;
    let mut m = mask_1x1(100, 60, 30);
    e.reweight(&mut m);
    assert_eq!(&m.data[..4], &[100, 60, 30, 255]);
    // error 0 leaves the base factor 0.7
    e.values[0] = 0;
    let mut m2 = mask_1x1(100, 60, 30);
    e.reweight(&mut m2);
    assert_eq!(&m2.data[..4], &[70, 42, 30, 255]);
}

#[test]
fn identical_masks_are_maximally_similar() {
    let a = mask_1x1(10, 20, 0);
    let b = mask_1x1(10, 20, 0);
    let (sum, n1, n2) = dot_parts(&a, &b);
    assert_eq!(sum, 10 * 10 + 20 * 20);
    assert_eq!(n1, n2);
    assert!(similar_at_least(&a, &b, 4, 5));
}

#[test]
fn orthogonal_masks_are_not_similar() {
    let a = Mask::new(2, 1, vec![200, 0, 0, 0, 0, 0, 0, 0]);
    let b = Mask::new(2, 1, vec![0, 0, 0, 0, 200, 0, 0, 0]);
    let (sum, _, _) = dot_parts(&a, &b);
    assert_eq!(sum, 0);
    assert!(!similar_at_least(&a, &b, 4, 5));
}

#[test]
fn a_zero_signal_mask_counts_as_similar_to_everything() {
    let a = mask_1x1(0, 0, 0);
    let b = mask_1x1(99, 0, 0);
    assert!(similar_at_least(&a, &b, 4, 5));
}
