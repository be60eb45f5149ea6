use peershare_core::{Mime, Range, StoreError, Stream, StreamStorage};

#[test]
fn test_store() {
    let data = [0x42; 2049];
    let range = Range::new(1024, 1024);

    let mut store1 = StreamStorage::new();
    let id = store1.insert(Mime::ApplicationOctetStream, &data);
    let k1 = store1.find(&id).unwrap();
    let slice = store1.stream(k1).encode_range(&range).unwrap();
    store1.remove(&id).unwrap();

    let mut store2 = StreamStorage::new();
    let k2 = store2.get(&id);
    store2.stream_mut(k2).decode_range(&range, &slice).unwrap();

    let buf = store2.stream(k2).read_range(&range).unwrap();
    assert_eq!(buf, vec![0x42; 1024]);

    store2.remove(&id).unwrap();
}

#[test]
fn test_empty_stream() {
    // Insert 0 bytes: length 0, media-type code 0; the whole-stream proof
    // is exactly the 8-byte header, and absorbing it promotes the root.
    let mut store = StreamStorage::new();
    let id = store.insert(Mime::ApplicationOctetStream, &[]);
    assert_eq!(id.length(), 0);
    assert_eq!(id.mime().code(), 0);

    let k = store.find(&id).unwrap();
    let slice = store.stream(k).encode_range(&Range::new(0, 0)).unwrap();
    assert_eq!(slice.len(), 8);
    assert_eq!(slice, vec![0u8; 8]);

    let mut fresh = Stream::allocate(id.clone());
    assert_eq!(fresh.missing_ranges(), vec![Range::new(0, 0)]);
    fresh.decode_range(&Range::new(0, 0), &slice).unwrap();
    assert_eq!(fresh.tree.length(), Some(0));
    assert!(fresh.tree.complete());
    assert_eq!(fresh.read().unwrap(), Vec::<u8>::new());
}

#[test]
fn test_single_chunk() {
    // Insert 1024 bytes of 0x42.
    let data = [0x42u8; 1024];
    let mut store = StreamStorage::new();
    let id = store.insert(Mime::ApplicationOctetStream, &data);
    let k = store.find(&id).unwrap();
    assert_eq!(store.stream(k).ranges(), vec![Range::new(0, 1024)]);
    assert_eq!(store.stream(k).missing_ranges(), vec![]);
}

#[test]
fn test_middle_slice() {
    // Two chunks plus one byte; prove and absorb only the middle chunk.
    let data = [0x42u8; 2049];
    let mut store = StreamStorage::new();
    let id = store.insert(Mime::ApplicationOctetStream, &data);
    let k = store.find(&id).unwrap();
    let range = Range::new(1024, 1024);
    let slice = store.stream(k).encode_range(&range).unwrap();
    assert!(slice.len() as u64 <= range.encoded_size() + 2 * 64);

    let mut fresh = Stream::allocate(id.clone());
    fresh.decode_range(&range, &slice).unwrap();
    assert_eq!(fresh.read_range(&range).unwrap(), vec![0x42u8; 1024]);
    assert!(!fresh.has_range(&Range::new(0, 1024)));
    assert_eq!(
        fresh.missing_ranges(),
        vec![Range::new(0, 1024), Range::new(2048, 1)]
    );
    assert_eq!(fresh.ranges(), vec![range]);
}

#[test]
fn test_tamper() {
    // Flipping the first parent-hash byte of the middle-chunk slice makes
    // decoding fail with CryptoMismatch, writing no byte and promoting no
    // node.
    let data = [0x42u8; 2049];
    let mut store = StreamStorage::new();
    let id = store.insert(Mime::ApplicationOctetStream, &data);
    let k = store.find(&id).unwrap();
    let range = Range::new(1024, 1024);
    let mut slice = store.stream(k).encode_range(&range).unwrap();
    slice[8] ^= 1;

    let mut fresh = Stream::allocate(id.clone());
    assert_eq!(
        fresh.decode_range(&range, &slice),
        Err(StoreError::CryptoMismatch)
    );
    assert_eq!(fresh.ranges(), vec![]);
    assert_eq!(fresh.missing_ranges(), vec![Range::new(0, 2049)]);
    assert_eq!(fresh.chunks, vec![0u8; 2049]);
}

#[test]
fn test_tamper_every_byte() {
    // Flipping any single byte of a whole-stream slice makes decoding fail.
    let data = [0x42u8; 2049];
    let mut store = StreamStorage::new();
    let id = store.insert(Mime::ApplicationOctetStream, &data);
    let k = store.find(&id).unwrap();
    let range = Range::new(0, 2049);
    let slice = store.stream(k).encode_range(&range).unwrap();
    for i in 0..slice.len() {
        let mut bad = slice.clone();
        bad[i] ^= 1;
        let mut fresh = Stream::allocate(id.clone());
        let r = fresh.decode_range(&range, &bad);
        if i < 8 {
            assert_eq!(r, Err(StoreError::FormatError));
        } else {
            assert_eq!(r, Err(StoreError::CryptoMismatch));
        }
    }
}

#[test]
fn test_half_slices() {
    // Encoding the two halves separately and absorbing both yields the
    // directly hashed tree and the original bytes.
    let len = 3 * 1024 + 1;
    let data: Vec<u8> = (0..len).map(|i| (i % 253) as u8).collect();
    let mut store = StreamStorage::new();
    let id = store.insert(Mime::ApplicationOctetStream, &data);
    let k = store.find(&id).unwrap();

    let (left, right) = Range::new(0, len as u64).split().unwrap();
    assert_eq!(left, Range::new(0, 2 * 1024));
    assert_eq!(right, Range::new(2 * 1024, 1024 + 1));

    let left_slice = store.stream(k).encode_range(&left).unwrap();
    let right_slice = store.stream(k).encode_range(&right).unwrap();

    let mut fresh = Stream::allocate(id.clone());
    fresh.decode_range(&left, &left_slice).unwrap();
    fresh.decode_range(&right, &right_slice).unwrap();
    assert_eq!(fresh.tree, store.stream(k).tree);
    assert!(fresh.tree.complete());
    assert_eq!(fresh.read().unwrap(), data);
}

#[test]
fn test_ranges_partition() {
    // Held and missing ranges are coalesced and partition the stream.
    let data = [7u8; 5 * 1024 + 3];
    let mut store = StreamStorage::new();
    let id = store.insert(Mime::ApplicationOctetStream, &data);
    let k = store.find(&id).unwrap();

    let q = Range::new(1024, 2 * 1024);
    let slice = store.stream(k).encode_range(&q).unwrap();
    let mut fresh = Stream::allocate(id.clone());
    fresh.decode_range(&q, &slice).unwrap();

    // Adjacent verified chunks coalesce into one entry.
    assert_eq!(fresh.ranges(), vec![Range::new(1024, 2 * 1024)]);
    assert_eq!(
        fresh.missing_ranges(),
        vec![Range::new(0, 1024), Range::new(3 * 1024, 2 * 1024 + 3)]
    );
}

#[test]
fn test_store_listing() {
    let mut store = StreamStorage::new();
    assert_eq!(store.streams().len(), 0);
    let a = store.insert(Mime::TextPlain, b"alpha");
    let b = store.insert(Mime::TextPlain, b"beta");
    assert!(store.contains(&a));
    assert!(store.contains(&b));
    assert_eq!(store.streams(), vec![a.clone(), b.clone()]);
    assert!(store.remove(&a).is_ok());
    assert!(!store.contains(&a));
    assert!(store.remove(&a).is_err());
    assert_eq!(store.streams(), vec![b.clone()]);
}

#[test]
fn test_read_range_refused() {
    let data = [1u8; 2048];
    let mut store = StreamStorage::new();
    let id = store.insert(Mime::ApplicationOctetStream, &data);
    let fresh = Stream::allocate(id);
    assert_eq!(
        fresh.read_range(&Range::new(0, 1024)),
        Err(StoreError::RangeInvalid)
    );
}

#[test]
fn test_chunk_file_name() {
    let mut store = StreamStorage::new();
    let id = store.insert(Mime::ApplicationOctetStream, b"name me");
    let name = peershare_core::chunk_file_name(&id);
    let expected = hex::encode(blake3::hash(&id.to_bytes()).as_bytes());
    assert_eq!(name, expected);
    assert_eq!(name.len(), 64);
}

#[test]
fn test_encode_refused() {
    // Proving a range that is not held fails with MissingNode.
    let data = [5u8; 4096];
    let mut store = StreamStorage::new();
    let id = store.insert(Mime::ApplicationOctetStream, &data);
    let fresh = Stream::allocate(id.clone());
    assert_eq!(
        fresh.encode_range(&Range::new(0, 1024)),
        Err(StoreError::MissingNode)
    );

    // A partially absorbed stream still refuses ranges it lacks.
    let k = store.find(&id).unwrap();
    let q = Range::new(0, 1024);
    let slice = store.stream(k).encode_range(&q).unwrap();
    let mut partial = Stream::allocate(id);
    partial.decode_range(&q, &slice).unwrap();
    assert!(partial.encode_range(&q).is_ok());
    assert_eq!(
        partial.encode_range(&Range::new(2048, 1024)),
        Err(StoreError::MissingNode)
    );
}
