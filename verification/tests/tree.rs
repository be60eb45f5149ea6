use peershare_core::{tree_hash, Insertion, Mime, Range, Tree};
use std::io::Read;

// Interesting input lengths to run tests on.
const TEST_CASES: &[u64] = &[
    0,
    1,
    10,
    1024 - 1,
    1024,
    1024 + 1,
    2 * 1024 - 1,
    2 * 1024,
    2 * 1024 + 1,
    3 * 1024 - 1,
    3 * 1024,
    3 * 1024 + 1,
    4 * 1024 - 1,
    4 * 1024,
    4 * 1024 + 1,
    8 * 1024 - 1,
    8 * 1024,
    8 * 1024 + 1,
    16 * 1024 - 1,
    16 * 1024,
    16 * 1024 + 1,
];

#[test]
fn test_tree() {
    let buf = [0x42; 65537];
    for &case in TEST_CASES {
        let bytes = &buf[..(case as usize)];
        let (bao_bytes, bao_hash) = bao::encode::encode(bytes);
        let tree = tree_hash(bytes, Mime::ApplicationOctetStream);
        let id = tree.id().clone();

        assert_eq!(tree.hash().as_slice(), bao_hash.as_bytes());
        assert!(tree.complete());
        assert_eq!(tree.length(), Some(case));
        assert_eq!(tree.ranges(), vec![tree.range()]);
        assert_eq!(tree.missing_ranges(), vec![]);

        let mut tree2 = Tree::open(id.clone());
        assert_eq!(tree2.hash().as_slice(), bao_hash.as_bytes());
        assert!(!tree2.complete());
        assert_eq!(tree2.length(), None);
        assert_eq!(tree2.ranges(), vec![]);
        assert_eq!(tree2.missing_ranges(), vec![tree.range()]);

        let slice = tree.encode(bytes).unwrap();
        assert!(slice.len() as u64 <= tree.range().encoded_size());
        assert_eq!(bao_bytes, slice);
        let mut buffer = vec![0u8; case as usize];
        tree2.decode(&slice, &mut buffer).unwrap();
        assert_eq!(tree2, tree);
        assert_eq!(bytes, &buffer[..]);

        if let Some((left_range, right_range)) = tree.range().split() {
            let left_slice = tree.encode_range(&left_range, bytes).unwrap();
            let mut left_slice2 = vec![];
            bao::encode::SliceExtractor::new(
                std::io::Cursor::new(&bao_bytes),
                left_range.offset(),
                left_range.length(),
            )
            .read_to_end(&mut left_slice2)
            .unwrap();
            assert_eq!(left_slice, left_slice2);

            let right_slice = tree.encode_range(&right_range, bytes).unwrap();
            let mut right_slice2 = vec![];
            bao::encode::SliceExtractor::new(
                std::io::Cursor::new(&bao_bytes),
                right_range.offset(),
                right_range.length(),
            )
            .read_to_end(&mut right_slice2)
            .unwrap();
            assert_eq!(right_slice, right_slice2);

            let mut buffer = vec![0u8; case as usize];
            let mut tree2 = Tree::open(id.clone());

            tree2
                .decode_range(&left_range, &left_slice, &mut buffer)
                .unwrap();
            assert_eq!(tree2.hash().as_slice(), bao_hash.as_bytes());
            assert!(!tree2.complete());
            assert_eq!(tree2.length(), None);
            assert_eq!(tree2.ranges(), vec![left_range]);
            assert_eq!(tree2.missing_ranges(), vec![right_range]);

            tree2
                .decode_range(&right_range, &right_slice, &mut buffer)
                .unwrap();
            assert_eq!(tree2, tree);
            assert_eq!(bytes, &buffer[..]);
        }
    }
}

#[test]
fn test_tree_hasher() {
    let buf = [0x42; 65537];
    for &case in TEST_CASES {
        let bytes = &buf[..(case as usize)];
        let hash = blake3::hash(bytes);
        let tree = tree_hash(bytes, Mime::ApplicationOctetStream);
        assert_eq!(tree.hash().as_slice(), hash.as_bytes());
    }
}

#[test]
fn test_tree_hasher_streaming() {
    // Feeding the same bytes in uneven pieces gives the same root.
    let buf: Vec<u8> = (0..10000u32).map(|i| (i % 251) as u8).collect();
    let whole = tree_hash(&buf, Mime::ApplicationOctetStream);
    let mut hasher = peershare_core::TreeHasher::new();
    let mut i = 0;
    let mut step = 1;
    while i < buf.len() {
        let end = usize::min(i + step, buf.len());
        hasher.update(&buf[i..end]);
        i = end;
        step = step * 2 + 1;
    }
    let tree = hasher.finalize(Mime::ApplicationOctetStream);
    assert_eq!(tree.hash(), whole.hash());
    assert_eq!(tree.hash().as_slice(), blake3::hash(&buf).as_bytes());
}

#[test]
fn test_decode_idempotent() {
    // Absorbing the same slice twice leaves tree and chunk bytes identical.
    let bytes = [0x42u8; 2049];
    let tree = tree_hash(&bytes, Mime::ApplicationOctetStream);
    let range = Range::new(1024, 1024);
    let slice = tree.encode_range(&range, &bytes).unwrap();

    let mut tree2 = Tree::open(tree.id().clone());
    let mut buffer = vec![0u8; 2049];
    tree2.decode_range(&range, &slice, &mut buffer).unwrap();
    let ranges_once = tree2.ranges();
    let buffer_once = buffer.clone();

    // The second decode mutates nothing, whatever its outcome.
    let _ = tree2.decode_range(&range, &slice, &mut buffer);
    assert_eq!(tree2.ranges(), ranges_once);
    assert_eq!(buffer, buffer_once);
}

#[test]
fn test_node_accessors() {
    let bytes = [9u8; 2049];
    let tree = tree_hash(&bytes, Mime::ApplicationOctetStream);
    assert!(!tree.is_missing());
    assert!(tree.as_chunk().is_none());
    let (lh, rh) = tree.as_subtree().unwrap();
    let left = tree.left().unwrap();
    let right = tree.right().unwrap();
    assert_eq!(&left.hash, lh);
    assert_eq!(&right.hash, rh);
    assert_eq!(left.range, Range::new(0, 2048));
    assert_eq!(right.range, Range::new(2048, 1));
    let last = tree.last_chunk();
    assert_eq!(last.range, Range::new(2048, 1));

    // The persistence records walk the known nodes in pre-order: the root
    // parent record first, then the three chunks (left subtree first).
    let records = tree.insertions();
    assert_eq!(records.len(), 5);
    match &records[0] {
        Insertion::Parent(h, l, r) => {
            assert_eq!(h, tree.hash());
            assert_eq!(l, lh);
            assert_eq!(r, rh);
        },
        _ => panic!("expected a parent record"),
    }
    match &records[4] {
        Insertion::Chunk(h) => assert_eq!(h, &last.hash),
        _ => panic!("expected a chunk record"),
    }

    // A fresh tree of a single-chunk stream decodes straight to a chunk.
    let small = tree_hash(&bytes[..5], Mime::ApplicationOctetStream);
    let slice = small.encode(&bytes[..5]).unwrap();
    let mut tree2 = Tree::open(small.id().clone());
    assert!(tree2.is_missing());
    assert_eq!(tree2.insertions().len(), 0);
    let mut buffer = vec![0u8; 5];
    tree2.decode(&slice, &mut buffer).unwrap();
    assert!(tree2.as_chunk().is_some());
    assert!(tree2.left().is_none());
}
