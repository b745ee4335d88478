use timelapse::hash::{hash_bytes, Blake3Hash, HexError, IncrementalHasher};

#[test]
fn hash_test_hash_consistency() {
    let data = b"hello world";
    let hash1 = hash_bytes(data);
    let hash2 = hash_bytes(data);
    assert_eq!(hash1, hash2);
}

#[test]
fn hash_test_hex_encoding_roundtrip() {
    let original = Blake3Hash::from_bytes([42; 32]);
    let hex = original.to_hex();
    let decoded = Blake3Hash::from_hex(&hex).unwrap();
    assert_eq!(original, decoded);
}

#[test]
fn test_hex_encoding_lowercase() {
    let pattern = [0xde, 0xad, 0xbe, 0xef];
    let mut bytes = [0u8; 32];
    for (i, &byte) in pattern.iter().cycle().take(32).enumerate() {
        bytes[i] = byte;
    }
    let hash = Blake3Hash::from_bytes(bytes);
    let hex = hash.to_hex();
    assert!(hex.chars().all(|c| c.is_ascii_lowercase() || c.is_ascii_digit()));
    assert_eq!(hex.len(), 64);
    assert_eq!(&hex[..8], "deadbeef");
}

#[test]
fn test_hex_decoding_invalid_length() {
    assert!(Blake3Hash::from_hex("abc").is_err());
    assert!(Blake3Hash::from_hex("").is_err());
    assert!(Blake3Hash::from_hex(&"a".repeat(63)).is_err());
    assert_eq!(Blake3Hash::from_hex("abc"), Err(HexError::InvalidLength { got: 3 }));
    assert_eq!(
        Blake3Hash::from_hex(&"a".repeat(65)),
        Err(HexError::InvalidLength { got: 65 })
    );
}

#[test]
fn test_hex_decoding_invalid_chars() {
    let invalid = "g".repeat(64);
    assert!(Blake3Hash::from_hex(&invalid).is_err());
    let mut late = "0".repeat(64);
    late.replace_range(10..11, "x");
    assert_eq!(
        Blake3Hash::from_hex(&late),
        Err(HexError::InvalidChar { index: 10, byte: b'x' })
    );
}

#[test]
fn test_hex_decoding_accepts_uppercase() {
    let upper = "AB".repeat(32);
    let lower = "ab".repeat(32);
    assert_eq!(Blake3Hash::from_hex(&upper), Blake3Hash::from_hex(&lower));
    assert_eq!(Blake3Hash::from_hex(&upper).unwrap().as_bytes(), &[0xab; 32]);
}

#[test]
fn hash_test_incremental_hasher() {
    let data = b"hello world";
    let hash_direct = hash_bytes(data);

    let mut incremental = IncrementalHasher::new();
    incremental.update(b"hello ");
    incremental.update(b"world");
    let hash_incremental = incremental.finalize();

    assert_eq!(hash_direct, hash_incremental);
}

#[test]
fn test_hash_empty_data() {
    let data = b"";
    let hash = hash_bytes(data);
    let hash2 = hash_bytes(data);
    assert_eq!(hash, hash2);
    assert_eq!(
        hash.to_hex(),
        "af1349b9f5f9a1a6a0404dea36dcc9499bcb25c9adc112b7cc9a93cae41f3262"
    );
}

#[test]
fn test_different_data_different_hash() {
    let hash1 = hash_bytes(b"hello");
    let hash2 = hash_bytes(b"world");
    assert_ne!(hash1, hash2);
}

#[test]
fn incremental_hasher_with_no_input_matches_empty_hash() {
    let hasher = IncrementalHasher::new();
    assert_eq!(hasher.finalize(), hash_bytes(b""));
}

#[test]
fn hash_bytes_known_value() {
    // digest of "hello world" as published for BLAKE3
    assert_eq!(
        hash_bytes(b"hello world").to_hex(),
        "d74981efa70a0c880b8d8c1985d075dbcbf679b99a5f9914e5aaf96b831a9e24"
    );
}

#[test]
fn same_compares_bytes() {
    let a = Blake3Hash::from_bytes([1; 32]);
    let mut other = [1u8; 32];
    other[31] = 2;
    let b = Blake3Hash::from_bytes(other);
    assert!(a.same(&a));
    assert!(!a.same(&b));
}

#[test]
fn the_default_hasher_has_been_fed_nothing() {
    let mut hasher = IncrementalHasher::default();
    assert_eq!(IncrementalHasher::default().finalize(), hash_bytes(b""));
    hasher.update(b"abc");
    assert_eq!(hasher.finalize(), hash_bytes(b"abc"));
}
