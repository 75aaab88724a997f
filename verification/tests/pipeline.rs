use matching_engine::pipeline::SpscRing;

#[test]
fn test_push_pop_roundtrip() {
    let mut ring = SpscRing::new(8);
    for i in 0..8u64 {
        ring.push(i).unwrap();
    }
    assert!(ring.push(99).is_err());
    for i in 0..8u64 {
        assert_eq!(ring.pop(), Some(i));
    }
    assert_eq!(ring.pop(), None);
}

#[test]
fn ring_wraps_around_and_reports_length() {
    let mut ring: SpscRing<u64> = SpscRing::new(3);
    assert!(ring.is_empty());
    for round in 0..10u64 {
        ring.push(round).unwrap();
        ring.push(round + 100).unwrap();
        assert_eq!(ring.len(), 2);
        assert_eq!(ring.pop(), Some(round));
        assert_eq!(ring.pop(), Some(round + 100));
        assert!(ring.is_empty());
    }
    assert_eq!(ring.capacity(), 3);
    let mut empty: SpscRing<u64> = SpscRing::new(0);
    assert_eq!(empty.push(1), Err(1));
    assert_eq!(empty.pop(), None);
}
