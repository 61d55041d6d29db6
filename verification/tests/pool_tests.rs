use tilematch::pool::{BufferPool, InFlightWindow};

#[test]
fn checked_out_buffers_never_exceed_capacity() {
    let mut pool = BufferPool::new(3);
    let mut held = Vec::new();
    for _ in 0..3 {
        held.push(pool.acquire().expect("provisioned buffer"));
    }
    assert_eq!(pool.free.len(), 0);
    // The (C+1)-th request cannot be served until a harvest releases one:
    // the pool refuses rather than over-allocating.
    assert!(pool.acquire().is_err());
    let id = held.pop().unwrap();
    pool.release(id);
    let again = pool.acquire().expect("released buffer is reusable");
    assert_eq!(again, id);
    // Never more than `capacity` distinct buffers were ever handed out.
    held.push(again);
    held.sort();
    held.dedup();
    assert!(held.len() <= 3);
}

#[test]
fn acquired_ids_are_distinct_and_come_off_the_free_list_top() {
    let mut pool = BufferPool::new(4);
    let mut ids = Vec::new();
    for _ in 0..4 {
        let id = pool.acquire().unwrap();
        // an acquired buffer is off the free list at once
        assert!(!pool.free.contains(&id));
        ids.push(id);
    }
    assert_eq!(ids, vec![3, 2, 1, 0]);
}

#[test]
fn window_blocks_on_oldest_batch_when_full() {
    let mut w = InFlightWindow::new(3);
    assert_eq!(w.note_dispatched(1), None);
    assert_eq!(w.note_dispatched(2), None);
    // The window is now full: the next dispatch must wait on batch 1.
    assert_eq!(w.note_dispatched(3), Some(1));
    assert_eq!(w.note_dispatched(4), Some(2));
    assert_eq!(w.pending, vec![3, 4]);
    let drained = w.drain();
    assert_eq!(drained, vec![3, 4]);
    assert!(w.pending.is_empty());
}
