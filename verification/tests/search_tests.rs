use tilematch::mask::Mask;
use tilematch::tiles::TileImage;
use tilematch::search::{score_offset, search_tile, search_tiles};

fn blank_mask(w: u32, h: u32) -> Vec<u8> {
    vec![0u8; (4 * w * h) as usize]
}

fn set_px(data: &mut [u8], w: u32, x: u32, y: u32, r: u8, g: u8) {
    let i = (4 * (y * w + x)) as usize;
    data[i] = r;
    data[i + 1] = g;
}

/// The worked scenario: a 2x2 fully-saturated foreground at (10, 10) in an
/// otherwise-zero 32x32 mask, scored against a tile whose matching 2x2
/// patch sits at (110, 210).
fn scenario() -> (Mask, TileImage) {
    let mut mdata = blank_mask(32, 32);
    for (dx, dy) in [(0, 0), (1, 0), (0, 1), (1, 1)] {
        set_px(&mut mdata, 32, 10 + dx, 10 + dy, 255, 255);
    }
    let mask = Mask::new(32, 32, mdata);

    let (tw, th) = (144u32, 248u32);
    let mut tdata = blank_mask(tw, th);
    for (dx, dy) in [(0, 0), (1, 0), (0, 1), (1, 1)] {
        set_px(&mut tdata, tw, 110 + dx, 210 + dy, 255, 255);
    }
    let tile = TileImage::new((77, 19, 7), tw, th, tdata);
    (mask, tile)
}

#[test]
fn worked_scenario_finds_the_offset_adjusted_match() {
    let (mask, tile) = scenario();
    let best = search_tile(&mask, &tile);
    assert_eq!(best.x, 100);
    assert_eq!(best.y, 200);
    assert_eq!((best.tile_x, best.tile_y, best.tile_z), (77, 19, 7));
    // 4 pixels, 2 channels, each 255 * 255.
    assert_eq!(best.score, 520200);
    // Its score really is the maximum among all candidates.
    assert_eq!(best.score, score_offset(&mask, &tile, 100, 200));
    assert!(score_offset(&mask, &tile, 99, 200) < best.score);
    assert!(score_offset(&mask, &tile, 101, 200) < best.score);
    assert!(score_offset(&mask, &tile, 100, 201) < best.score);
}

#[test]
fn repeated_runs_are_deterministic() {
    let (mask, tile) = scenario();
    let a = search_tile(&mask, &tile);
    let b = search_tile(&mask, &tile);
    assert_eq!(a, b);
}

#[test]
fn pruning_never_improves_on_the_unpruned_search() {
    let (mask, tile) = scenario();
    let empty = TileImage::new((1, 2, 7), 144, 248, blank_mask(144, 248));
    let all = vec![duplicate_img(&tile), duplicate_img(&empty)];
    let pruned = vec![duplicate_img(&empty)];
    let full_best = search_tiles(&mask, &all);
    let pruned_best = search_tiles(&mask, &pruned);
    assert!(pruned_best.score <= full_best.score);
    assert_eq!(full_best.score, 520200);
    assert_eq!(pruned_best.score, 0);
}

fn duplicate_img(t: &TileImage) -> TileImage {
    TileImage::new(t.pos, t.width, t.height, t.data.clone())
}

#[test]
fn tile_ties_go_to_the_first_tile_in_list_order() {
    let (mask, tile) = scenario();
    // two tiles with identical content tie on score; the first one wins
    let twin = TileImage::new((42, 43, 7), tile.width, tile.height, tile.data.clone());
    let tiles = vec![duplicate_img(&tile), twin];
    let best = search_tiles(&mask, &tiles);
    assert_eq!((best.tile_x, best.tile_y, best.tile_z), (77, 19, 7));
    assert_eq!((best.x, best.y), (100, 200));
}
