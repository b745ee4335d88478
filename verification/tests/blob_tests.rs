use timelapse::blob::{is_binary, total_size, Blob, BlobError, BlobHeaderV1};
use timelapse::blob_store::{BlobCache, BlobStore};
use timelapse::hash::{hash_bytes, Blake3Hash};

#[test]
fn test_is_binary() {
    assert!(!is_binary(b"Hello, world!"));
    assert!(!is_binary(b"Line 1\nLine 2\nLine 3"));
    assert!(is_binary(b"Hello\x00world"));
    assert!(is_binary(&[0u8; 100]));
}

#[test]
fn is_binary_looks_at_the_first_8192_bytes_only() {
    let mut data = vec![b'a'; 8193];
    data[8192] = 0;
    assert!(!is_binary(&data));
    data[8191] = 0;
    assert!(is_binary(&data));
    assert!(!is_binary(b""));
}

#[test]
fn test_blob_header_serialization() {
    let header = BlobHeaderV1::new(1000, 500, true);
    let bytes = header.to_bytes();
    let parsed = BlobHeaderV1::from_bytes(&bytes).unwrap();
    assert_eq!(header.orig_len, parsed.orig_len);
    assert_eq!(header.stored_len, parsed.stored_len);
    assert_eq!(header.is_compressed(), parsed.is_compressed());
    assert_eq!(parsed, header);
}

#[test]
fn header_layout_is_21_little_endian_bytes() {
    let header = BlobHeaderV1::new(0x0102030405060708, 3, false);
    let bytes = header.to_bytes();
    assert_eq!(bytes.len(), 21);
    assert_eq!(&bytes[..4], b"SNB1");
    assert_eq!(bytes[4], 0);
    assert_eq!(&bytes[5..13], &[8, 7, 6, 5, 4, 3, 2, 1]);
    assert_eq!(&bytes[13..21], &[3, 0, 0, 0, 0, 0, 0, 0]);
    assert_eq!(BlobHeaderV1::new(1, 1, true).to_bytes()[4], 1);
}

#[test]
fn header_faults() {
    assert_eq!(BlobHeaderV1::from_bytes(b"SNB1"), Err(BlobError::Truncated));
    assert_eq!(BlobHeaderV1::from_bytes(&[0u8; 21]), Err(BlobError::BadMagic));
    let mut bytes = BlobHeaderV1::new(5, 5, false).to_bytes();
    bytes[3] = b'2';
    assert_eq!(BlobHeaderV1::from_bytes(&bytes), Err(BlobError::BadMagic));
}

#[test]
fn test_blob_compression() {
    let data = b"hello world".repeat(1000);
    let (blob, serialized) = Blob::from_bytes(&data).unwrap();
    assert!(blob.compressed);
    assert!(serialized.len() < data.len());
    assert_eq!(blob.size, data.len() as u64);
    assert_eq!(blob.hash, hash_bytes(&data));
    let header = BlobHeaderV1::from_bytes(&serialized).unwrap();
    assert!(header.is_compressed());
    assert_eq!(header.orig_len, data.len() as u64);
    assert_eq!(header.stored_len, (serialized.len() - 21) as u64);
    assert_eq!(Blob::decode(&serialized).unwrap(), data);
}

#[test]
fn small_blob_is_stored_raw() {
    let data = b"hello";
    let (blob, serialized) = Blob::from_bytes(data).unwrap();
    assert!(!blob.compressed);
    assert_eq!(serialized.len(), 21 + 5);
    assert_eq!(&serialized[21..], data);
    let header = BlobHeaderV1::from_bytes(&serialized).unwrap();
    assert_eq!(header.orig_len, 5);
    assert_eq!(header.stored_len, 5);
    assert_eq!(Blob::decode(&serialized).unwrap(), data);
}

#[test]
fn compression_starts_at_4096_bytes() {
    let below = vec![b'x'; 4095];
    let at = vec![b'x'; 4096];
    assert!(!Blob::from_bytes(&below).unwrap().0.compressed);
    assert!(Blob::from_bytes(&at).unwrap().0.compressed);
    assert_eq!(Blob::decode(&Blob::from_bytes(&at).unwrap().1).unwrap(), at);
}

#[test]
fn empty_blob_round_trips() {
    let (blob, serialized) = Blob::from_bytes(b"").unwrap();
    assert_eq!(blob.size, 0);
    assert_eq!(serialized.len(), 21);
    assert_eq!(Blob::decode(&serialized).unwrap(), Vec::<u8>::new());
}

#[test]
fn decode_faults() {
    assert_eq!(Blob::decode(b"xx"), Err(BlobError::Truncated));
    assert_eq!(Blob::decode(&[1u8; 30]), Err(BlobError::BadMagic));

    let (_, mut raw) = Blob::from_bytes(b"hello").unwrap();
    raw.push(0);
    assert_eq!(Blob::decode(&raw), Err(BlobError::LengthMismatch));

    // a raw payload whose original length differs from the stored one
    let framed = Blob::frame(4, b"hello", false);
    assert_eq!(Blob::decode(&framed), Err(BlobError::LengthMismatch));

    // a payload flagged as compressed that is no compressed frame
    let framed = Blob::frame(5, b"hello", true);
    assert_eq!(Blob::decode(&framed), Err(BlobError::Corrupted));

    // a compressed payload with a wrong original length
    let data = b"abc".repeat(2000);
    let (_, good) = Blob::from_bytes(&data).unwrap();
    let lying = Blob::frame(data.len() as u64 + 1, &good[21..], true);
    assert_eq!(Blob::decode(&lying), Err(BlobError::Corrupted));
}

#[test]
fn to_bytes_follows_the_flag() {
    let data = b"tiny";
    let blob = Blob { hash: hash_bytes(data), size: 4, compressed: true };
    let packed = blob.to_bytes(data).unwrap();
    assert_eq!(packed[4], 1);
    assert_eq!(Blob::decode(&packed).unwrap(), data);
    let blob = Blob { hash: hash_bytes(data), size: 4, compressed: false };
    assert_eq!(blob.to_bytes(data).unwrap(), Blob::frame(4, data, false));
}

#[test]
fn test_blob_store_write_read() {
    let mut store = BlobStore::new();
    let data = b"test data";
    let hash = hash_bytes(data);
    let write = store.write_blob(hash, data, false).unwrap().unwrap();
    assert_eq!(write.path, BlobStore::blob_path(&hash));
    // from the cache
    let read_data = store.read_cached(&hash).unwrap();
    assert_eq!(data, &read_data[..]);
    // from what went to disk, with a cold cache
    let mut cold = BlobStore::new();
    assert_eq!(cold.read_cached(&hash), None);
    let read_data = cold.read_blob(hash, &write.bytes).unwrap();
    assert_eq!(data, &read_data[..]);
    assert_eq!(cold.read_cached(&hash).unwrap(), data);
}

#[test]
fn writing_a_blob_twice_changes_nothing() {
    let mut store = BlobStore::new();
    let data = b"same";
    let hash = hash_bytes(data);
    assert!(store.write_blob(hash, data, false).unwrap().is_some());
    let entries = store.cache.entries.clone();
    let used = store.cache.used_bytes;
    assert_eq!(store.write_blob(hash, data, true), Ok(None));
    assert_eq!(store.write_blob(hash, data, false), Ok(None));
    assert_eq!(store.cache.entries, entries);
    assert_eq!(store.cache.used_bytes, used);
    assert!(store.has_blob(&hash, false));
    assert!(!store.has_blob(&hash_bytes(b"other"), false));
    assert!(store.has_blob(&hash_bytes(b"other"), true));
}

#[test]
fn blob_path_is_sharded_by_the_first_two_hex_digits() {
    let hash = Blake3Hash::from_bytes([0xab; 32]);
    let path = String::from_utf8(BlobStore::blob_path(&hash)).unwrap();
    assert_eq!(path, format!("objects/blobs/ab/{}", "ab".repeat(31)));
}

#[test]
fn cache_evicts_the_least_recently_used() {
    let mut cache = BlobCache::new(10);
    let h = |n: u8| Blake3Hash::from_bytes([n; 32]);
    cache.put(h(1), b"aaaa");
    cache.put(h(2), b"bbbb");
    assert_eq!(cache.used_bytes, 8);
    // a hit makes 1 the most recent, so 2 goes first
    assert_eq!(cache.get(&h(1)).unwrap(), b"aaaa");
    cache.put(h(3), b"cccc");
    assert!(cache.contains(&h(1)));
    assert!(!cache.contains(&h(2)));
    assert!(cache.contains(&h(3)));
    assert_eq!(cache.used_bytes, 8);
    // larger than the whole cache: not cached, nothing evicted
    cache.put(h(4), b"0123456789x");
    assert!(!cache.contains(&h(4)));
    assert_eq!(cache.entries.len(), 2);
    // exactly the whole cache: everything else goes
    cache.put(h(5), b"0123456789");
    assert_eq!(cache.entries.len(), 1);
    assert_eq!(cache.used_bytes, 10);
    assert_eq!(cache.get(&h(9)), None);
}

#[test]
fn read_after_write_gives_the_bytes_back() {
    for data in [Vec::new(), b"hello".to_vec(), vec![7u8; 4095], vec![7u8; 4096], b"abc".repeat(5000)] {
        let hash = hash_bytes(&data);
        let mut store = BlobStore::new();
        let write = store.write_blob(hash, &data, false).unwrap().unwrap();
        // a cache hit
        assert_eq!(store.read_cached(&hash), Some(data.clone()));
        // a cache miss, in a store that starts cold on what went to disk
        let mut cold = BlobStore::new();
        assert_eq!(cold.read_cached(&hash), None);
        assert_eq!(cold.read_blob(hash, &write.bytes), Ok(data.clone()));
        assert_eq!(write.bytes, Blob::from_bytes(&data).unwrap().1);
    }
}

#[test]
fn sizes_add_up_and_saturate() {
    assert_eq!(total_size(&[]), 0);
    assert_eq!(total_size(&[5]), 5);
    assert_eq!(total_size(&[1, 2, 3]), 6);
    assert_eq!(total_size(&[u64::MAX, 1]), u64::MAX);
    assert_eq!(total_size(&[u64::MAX - 1, 1, 0]), u64::MAX);
    assert_eq!(total_size(&[u64::MAX, u64::MAX, 7]), u64::MAX);
}
