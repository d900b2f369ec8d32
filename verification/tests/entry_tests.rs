//! The entry model and the integrity check.

use sha1::{Digest, Sha1};

use dxvk_cache::entry::{sha1_empty, DxvkStateCacheEntry, DxvkStateCacheEntryHeader};

fn sha1_hash(data: &[u8]) -> [u8; 20] {
    let mut out = [0u8; 20];
    out.copy_from_slice(&Sha1::digest(data));
    out
}

fn legacy_hash(data: &[u8]) -> [u8; 20] {
    let mut buf = data.to_vec();
    buf.extend_from_slice(&sha1_hash(b""));
    sha1_hash(&buf)
}

#[test]
fn sentinel_is_digest_of_nothing() {
    assert_eq!(sha1_empty(), sha1_hash(b""));
}

#[test]
fn modern_entry_valid_iff_hash_matches() {
    // SHA-1 of "abc", a fixed reference value.
    let expected: [u8; 20] = [
        0xa9, 0x99, 0x3e, 0x36, 0x47, 0x06, 0x81, 0x6a, 0xba, 0x3e, 0x25, 0x71, 0x78, 0x50, 0xc2,
        0x6c, 0x9c, 0xd0, 0xd8, 0x9d,
    ];
    let header = DxvkStateCacheEntryHeader::new((3 << 8) | 1);
    let entry = DxvkStateCacheEntry {
        header: Some(header),
        hash: expected,
        data: b"abc".to_vec(),
    };
    assert!(entry.is_valid());

    let mut wrong = expected;
    wrong[0] ^= 1;
    let entry = DxvkStateCacheEntry {
        header: Some(header),
        hash: wrong,
        data: b"abc".to_vec(),
    };
    assert!(!entry.is_valid());
}

#[test]
fn legacy_entry_hashes_sentinel_after_payload() {
    let data = vec![5u8; 64];
    let entry = DxvkStateCacheEntry {
        header: None,
        hash: legacy_hash(&data),
        data: data.clone(),
    };
    assert!(entry.is_valid());

    // The plain digest, without the sentinel, must not validate a legacy entry.
    let entry = DxvkStateCacheEntry {
        header: None,
        hash: sha1_hash(&data),
        data,
    };
    assert!(!entry.is_valid());
}

#[test]
fn refresh_hash_makes_entry_valid() {
    let mut entry = DxvkStateCacheEntry {
        header: None,
        hash: [0u8; 20],
        data: vec![1, 2, 3],
    };
    assert!(!entry.is_valid());
    entry.refresh_hash();
    assert!(entry.is_valid());
    assert_eq!(entry.hash, legacy_hash(&[1, 2, 3]));
}

#[test]
fn with_length_builds_zeroed_legacy_entry() {
    let entry = DxvkStateCacheEntry::with_length(24);
    assert!(entry.header.is_none());
    assert_eq!(entry.hash, [0u8; 20]);
    assert_eq!(entry.data, vec![0u8; 4]);
}

#[test]
fn with_header_sizes_payload_from_header() {
    let header = DxvkStateCacheEntryHeader::new((6 << 8) | 2);
    let entry = DxvkStateCacheEntry::with_header(header);
    assert!(entry.header.is_some());
    assert_eq!(entry.hash, [0u8; 20]);
    assert_eq!(entry.data.len(), 6);
}
