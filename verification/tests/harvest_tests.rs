use tilematch::harvest::{harvest_batch, AlgoResult, BatchLayout, ScoreTable};
use tilematch::score::SCORE_NEG_INF;
use tilematch::tiles::TilePos;

fn small_layout() -> BatchLayout {
    BatchLayout {
        tex_w: 4,
        res_w: 4,
        res_h: 4,
        cell_w: 2,
        cell_h: 2,
        chunk: 2,
    }
}

fn table() -> Vec<(TilePos, u32)> {
    vec![((10, 11, 7), 2), ((20, 21, 7), 1), ((30, 31, 7), 2)]
}

fn words(entries: &[(u32, u32, u32)]) -> Vec<u32> {
    // 4x4 raster of packed words, zero (score 0.0) elsewhere.
    let mut data = vec![0u32; 16];
    for &(x, y, w) in entries {
        data[(y * 4 + x) as usize] = w;
    }
    data
}

#[test]
fn best_valid_offset_wins_and_maps_back_to_its_tile() {
    let l = small_layout();
    let tiles = table();
    // score 0.5 at (0,0) with zoom bits 0x3C00 packed in the high half.
    let data = words(&[(0, 0, 0x3C00_3800)]);
    let r = harvest_batch(&l, &tiles, &data);
    assert_eq!((r.tile_x, r.tile_y, r.tile_z), (10, 11, 7));
    assert_eq!((r.x, r.y), (0, 0));
    assert_eq!(r.score, 8388608);
    assert_eq!(r.zoom, 0x3C00);
}

#[test]
fn offsets_past_the_deformed_width_are_rejected() {
    let l = small_layout();
    let tiles = table();
    // The high score lands in the second tile's cell at local x = 1, but
    // that tile's valid width is only 1; a lower score elsewhere wins.
    let data = words(&[(3, 1, 0x3C00), (0, 1, 0x3800)]);
    let r = harvest_batch(&l, &tiles, &data);
    assert_eq!((r.tile_x, r.tile_y, r.tile_z), (10, 11, 7));
    assert_eq!((r.x, r.y), (0, 1));
    assert_eq!(r.score, 8388608);
}

#[test]
fn cells_beyond_the_batch_table_are_rejected() {
    let l = small_layout();
    let tiles = table();
    // Cell 3 has no backing tile in this 3-tile batch.
    let data = words(&[(2, 2, 0x7BFF), (1, 0, 0x3800)]);
    let r = harvest_batch(&l, &tiles, &data);
    assert_eq!((r.tile_x, r.tile_y, r.tile_z), (10, 11, 7));
    assert_eq!((r.x, r.y), (1, 0));
}

#[test]
fn score_ties_go_to_the_first_offset_in_scan_order() {
    let l = small_layout();
    let tiles = table();
    // two offsets carry the same maximal score; the earlier row wins
    let data = words(&[(1, 2, 0x3800), (0, 1, 0x3800)]);
    let r = harvest_batch(&l, &tiles, &data);
    assert_eq!((r.x, r.y), (0, 1));
    let r2 = harvest_batch(&l, &tiles, &data);
    assert_eq!(r, r2);
}

#[test]
fn all_nan_output_yields_no_candidate() {
    let l = small_layout();
    let tiles = table();
    let data = vec![0x0000_7C01u32; 16];
    let r = harvest_batch(&l, &tiles, &data);
    assert_eq!(r.tile_x, u32::MAX);
    assert_eq!(r.score, SCORE_NEG_INF);
}

#[test]
fn score_table_keeps_the_maximum_per_tile() {
    let mut t = ScoreTable::new();
    t.record_max(5, 10);
    t.record_max(6, 20);
    t.record_max(5, 7);
    t.record_max(5, 30);
    let entries = t.entries_ref();
    assert_eq!(entries.len(), 2);
    assert_eq!(entries[0], (5, 30));
    assert_eq!(entries[1], (6, 20));
}

#[test]
fn merging_a_winner_updates_shortlist_and_tile_table() {
    let mut a = AlgoResult::new(2);
    let win = tilematch::topk::PosResult {
        tile_x: 10,
        tile_y: 11,
        tile_z: 7,
        x: 3,
        y: 4,
        score: 99,
        zoom: 0x3C00,
    };
    a.merge(win);
    assert_eq!(a.best_pos.results()[0], win);
    let key = tilematch::tiles::pos_key((10, 11, 7));
    assert_eq!(a.tile_max_scores.entries_ref()[0], (key, 99));
    // merging a sentinel changes nothing
    a.merge(tilematch::topk::PosResult::empty());
    assert_eq!(a.best_pos.results()[0], win);
    assert_eq!(a.tile_max_scores.entries_ref().len(), 1);
}

#[test]
fn algo_result_clears_between_frames() {
    let mut a = AlgoResult::new(3);
    a.best_pos.insert(tilematch::topk::PosResult {
        tile_x: 1,
        tile_y: 2,
        tile_z: 3,
        x: 0,
        y: 0,
        score: 5,
        zoom: 0x3C00,
    });
    a.tile_max_scores.record_max(9, 5);
    a.clear();
    assert_eq!(a.best_pos.results()[0].score, SCORE_NEG_INF);
    assert!(a.tile_max_scores.entries_ref().is_empty());
}
