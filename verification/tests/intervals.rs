use peershare_core::Range;

#[test]
fn test_intersects() {
    let ranges = [
        ((0, 0), (0, 0)),
        ((2, 5), (1, 6)),
        ((2, 5), (3, 4)),
        ((2, 4), (3, 5)),
        ((3, 5), (2, 4)),
    ];
    for ((a, b), (c, d)) in ranges {
        let a = Range::new(a, b);
        let b = Range::new(c, d);
        assert!(a.intersects(&b));
    }
}

#[test]
fn test_doesnt_intersect() {
    let ranges = [((0, 0), (1, 0)), ((0, 1), (2, 1)), ((2, 5), (0, 1))];
    for ((a, b), (c, d)) in ranges {
        let a = Range::new(a, b);
        let b = Range::new(c, d);
        assert!(!a.intersects(&b));
    }
}

#[test]
fn test_split_rule() {
    // The Bao rule: the left half is the largest power of two of full
    // chunks strictly below the total chunk count.
    let r = Range::new(0, 3 * 1024 + 1);
    let (left, right) = r.split().unwrap();
    assert_eq!(left, Range::new(0, 2 * 1024));
    assert_eq!(right, Range::new(2 * 1024, 1024 + 1));

    let r = Range::new(0, 4 * 1024);
    let (left, right) = r.split().unwrap();
    assert_eq!(left, Range::new(0, 2 * 1024));
    assert_eq!(right, Range::new(2 * 1024, 2 * 1024));

    assert!(Range::new(0, 1024).split().is_none());
    assert!(Range::new(0, 0).split().is_none());
}

#[test]
fn test_accessors() {
    let r = Range::new(2048, 1025);
    assert_eq!(r.offset(), 2048);
    assert_eq!(r.length(), 1025);
    assert_eq!(r.end(), 3073);
    assert_eq!(r.index(), 2);
    assert_eq!(r.num_chunks(), 2);
    assert!(!r.is_chunk());
    assert!(Range::new(0, 0).is_chunk());
    assert_eq!(Range::new(0, 0).num_chunks(), 1);
}

#[test]
fn test_encoded_size() {
    // 8-byte header + 64 bytes per parent (one less than the chunk count)
    // + 1024 bytes per chunk.
    assert_eq!(Range::new(0, 0).encoded_size(), 8 + 1024);
    assert_eq!(Range::new(0, 1024).encoded_size(), 8 + 1024);
    assert_eq!(Range::new(0, 2049).encoded_size(), 8 + 2 * 64 + 3 * 1024);
}

#[test]
fn test_split_at() {
    let r = Range::new(0, 5000);
    let (a, b) = r.split_at(2).unwrap();
    assert_eq!(a, Range::new(0, 2048));
    assert_eq!(b, Range::new(2048, 2952));
    assert!(r.split_at(5).is_none());
}
