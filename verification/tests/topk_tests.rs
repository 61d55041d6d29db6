use tilematch::score::SCORE_NEG_INF;
use tilematch::topk::{PosResult, PosResults, ZOOM_ONE_BITS};

fn candidate(tile: u32, score: i64) -> PosResult {
    PosResult {
        tile_x: tile,
        tile_y: tile,
        tile_z: 7,
        x: 1,
        y: 2,
        score,
        zoom: ZOOM_ONE_BITS,
    }
}

fn assert_sorted_desc(r: &PosResults) {
    let v = r.results();
    for i in 1..v.len() {
        assert!(v[i - 1].score >= v[i].score);
    }
}

#[test]
fn new_list_is_all_sentinels() {
    let r = PosResults::new(4);
    assert_eq!(r.results().len(), 4);
    for e in r.results() {
        assert_eq!(e.tile_x, u32::MAX);
        assert_eq!(e.score, SCORE_NEG_INF);
    }
}

#[test]
fn insert_keeps_descending_order_and_capacity() {
    let mut r = PosResults::new(3);
    for (tile, score) in [(1, 10), (2, 30), (3, 20), (4, 25), (5, 5)] {
        r.insert(candidate(tile, score));
        assert_eq!(r.results().len(), 3);
        assert_sorted_desc(&r);
    }
    let v = r.results();
    assert_eq!(v[0].score, 30);
    assert_eq!(v[1].score, 25);
    assert_eq!(v[2].score, 20);
    assert_eq!(v[0].tile_x, 2);
    assert_eq!(v[1].tile_x, 4);
    assert_eq!(v[2].tile_x, 3);
}

#[test]
fn insert_below_worst_of_full_list_is_noop() {
    let mut r = PosResults::new(2);
    r.insert(candidate(1, 100));
    r.insert(candidate(2, 50));
    let before: Vec<PosResult> = r.results().clone();
    r.insert(candidate(3, 49));
    assert_eq!(r.results().clone(), before);
}

#[test]
fn insert_equal_to_worst_replaces_worst() {
    let mut r = PosResults::new(2);
    r.insert(candidate(1, 100));
    r.insert(candidate(2, 50));
    r.insert(candidate(3, 50));
    let v = r.results();
    assert_eq!(v[0].tile_x, 1);
    assert_eq!(v[1].tile_x, 3);
    assert_eq!(v[1].score, 50);
}

#[test]
fn clear_resets_to_sentinels() {
    let mut r = PosResults::new(3);
    r.insert(candidate(1, 7));
    r.clear();
    assert_eq!(r.results().len(), 3);
    for e in r.results() {
        assert_eq!(e.score, SCORE_NEG_INF);
    }
}

#[test]
fn long_random_like_sequence_stays_well_formed() {
    let mut r = PosResults::new(5);
    let mut s: i64 = 17;
    for i in 0..200 {
        s = (s * 31 + i) % 1000;
        r.insert(candidate(i as u32, s));
        assert_eq!(r.results().len(), 5);
        assert_sorted_desc(&r);
    }
}
