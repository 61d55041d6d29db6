use tilematch::harvest::AlgoResult;
use tilematch::logfile::{format_record, parse_log};
use tilematch::mask::Mask;
use tilematch::sequencer::Sequencer;
use tilematch::tiles::pos_key;
use tilematch::topk::{PosResult, ZOOM_ONE_BITS};

fn flat_mask(w: u32, h: u32, v: u8) -> Mask {
    let mut data = vec![0u8; (4 * w * h) as usize];
    for px in 0..(w * h) as usize {
        data[4 * px] = v;
        data[4 * px + 1] = v;
    }
    Mask::new(w, h, data)
}

fn winner(tile: (u32, u32, u32), score: i64) -> PosResult {
    PosResult {
        tile_x: tile.0,
        tile_y: tile.1,
        tile_z: tile.2,
        x: 5,
        y: 6,
        score,
        zoom: ZOOM_ONE_BITS,
    }
}

fn algo_with(win: PosResult, scores: &[(u64, i64)]) -> AlgoResult {
    let mut a = AlgoResult::new(4);
    a.best_pos.insert(win);
    for &(k, s) in scores {
        a.tile_max_scores.record_max(k, s);
    }
    a
}

#[test]
fn completing_a_frame_records_ring_history_and_row() {
    let mut seq = Sequencer::new(8, 8, Vec::new());
    let rec = seq.complete_frame(41, flat_mask(8, 8, 9), algo_with(winner((3, 4, 7), 123), &[]));
    assert_eq!(rec.frame, 41);
    assert_eq!((rec.tile_x, rec.tile_y, rec.tile_z), (3, 4, 7));
    assert_eq!((rec.x, rec.y), (5, 6));
    assert_eq!(rec.score, 123);
    assert_eq!(seq.ring.items, vec![(3, 4, 7)]);
    assert_eq!(seq.history.len(), 1);
    assert_eq!(seq.history[0].mask_id, 41);
}

#[test]
fn forbidden_set_covers_ring_and_pruned_tiles() {
    let mut seq = Sequencer::new(8, 8, Vec::new());
    let mask = flat_mask(8, 8, 9);
    let pruned_key = pos_key((100, 100, 9));
    let kept_key = pos_key((101, 101, 9));
    // A frame whose winner scored 0: any tile recorded well below
    // (margin is about 0.3 in score units) is confidently worse.
    let algo = algo_with(
        winner((3, 4, 7), 0),
        &[(pruned_key, -6_000_000), (kept_key, -1_000_000)],
    );
    seq.complete_frame(41, flat_mask(8, 8, 9), algo);
    // The very same mask is maximally similar to the history entry.
    let forbidden = seq.forbidden_keys(&mask);
    assert!(forbidden.contains(&pos_key((3, 4, 7))));
    assert!(forbidden.contains(&pruned_key));
    assert!(!forbidden.contains(&kept_key));
}

#[test]
fn dissimilar_masks_share_no_pruning() {
    let mut seq = Sequencer::new(2, 1, Vec::new());
    // history mask lights only the first pixel; the query only the second:
    // orthogonal signals, similarity 0.
    let mut d1 = vec![0u8; 8];
    d1[0] = 200;
    let m1 = Mask::new(2, 1, d1);
    let mut d2 = vec![0u8; 8];
    d2[4] = 200;
    let m2 = Mask::new(2, 1, d2);
    let pruned_key = pos_key((100, 100, 9));
    seq.complete_frame(1, m1, algo_with(winner((3, 4, 7), 0), &[(pruned_key, -6_000_000)]));
    let forbidden = seq.forbidden_keys(&m2);
    assert!(forbidden.contains(&pos_key((3, 4, 7))));
    assert!(!forbidden.contains(&pruned_key));
}

/// Resume idempotence: after a run over frames 1..=3, restarting with the
/// same log replays every frame and appends nothing.
#[test]
fn restart_with_same_log_dispatches_nothing_and_appends_nothing() {
    // First run: three frames, log written as it goes.
    let mut log: Vec<u8> = b"Frame,tile_x,tile_y,tile_z,zoom,x,y,score,time".to_vec();
    let mut seq = Sequencer::new(8, 8, Vec::new());
    for f in 1u32..=3 {
        assert!(seq.plan_frame(f).is_none());
        let rec = seq.complete_frame(
            f,
            flat_mask(8, 8, 9),
            algo_with(winner((f, f, 7), f as i64), &[]),
        );
        log.push(b'\n');
        log.extend_from_slice(&format_record(&rec, 42));
    }
    let log_after_first_run = log.clone();

    // Restart: load the log and drive the same frames again.
    let records = parse_log(&log).expect("clean log");
    assert_eq!(records.len(), 3);
    let mut seq2 = Sequencer::new(8, 8, records);
    let mut dispatches = 0;
    for f in 1u32..=3 {
        match seq2.plan_frame(f) {
            Some(rec) => {
                assert_eq!(rec.frame, f);
                assert_eq!((rec.tile_x, rec.tile_y, rec.tile_z), (f, f, 7));
                // replay only: nothing is appended to the log
            }
            None => {
                dispatches += 1;
            }
        }
    }
    assert_eq!(dispatches, 0);
    assert_eq!(log, log_after_first_run);
}

#[test]
fn begin_frame_decays_the_error_map() {
    let mut seq = Sequencer::new(4, 4, Vec::new());
    let mask = flat_mask(4, 4, 9);
    let before = seq.errors.values.clone();
    seq.begin_frame(&mask, None);
    for (a, b) in before.iter().zip(seq.errors.values.iter()) {
        assert_eq!(*b, *a / 2);
    }
}
