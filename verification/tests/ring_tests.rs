use tilematch::ring::ForbiddenRing;

#[test]
fn ring_holds_last_choices_oldest_evicted_first() {
    let mut ring = ForbiddenRing::new(9);
    for n in 1u32..=20 {
        ring.push((n, n, 7));
        let expect = if n < 9 { n as usize } else { 9 };
        assert_eq!(ring.items.len(), expect);
        // Exactly the last min(n, 9) chosen tiles, in choice order.
        let start = if n >= 9 { n - 9 + 1 } else { 1 };
        for (i, got) in ring.items.iter().enumerate() {
            let frame = start + i as u32;
            assert_eq!(*got, (frame, frame, 7));
        }
    }
}

#[test]
fn ring_contains_matches_membership() {
    let mut ring = ForbiddenRing::new(3);
    ring.push((1, 1, 1));
    ring.push((2, 2, 2));
    assert!(ring.contains((1, 1, 1)));
    assert!(ring.contains((2, 2, 2)));
    assert!(!ring.contains((3, 3, 3)));
    ring.push((3, 3, 3));
    ring.push((4, 4, 4));
    // capacity 3: the oldest entry has been evicted
    assert!(!ring.contains((1, 1, 1)));
    assert!(ring.contains((2, 2, 2)));
    assert!(ring.contains((4, 4, 4)));
}
