//! The format reader and writer: parsing, serializing, and their round trip.

use sha1::{Digest, Sha1};

use dxvk_cache::{DxvkStateCache, ErrorKind};

fn sha1_hash(data: &[u8]) -> [u8; 20] {
    let mut out = [0u8; 20];
    out.copy_from_slice(&Sha1::digest(data));
    out
}

fn legacy_hash(data: &[u8]) -> [u8; 20] {
    let mut buf = data.to_vec();
    buf.extend_from_slice(&sha1_hash(b""));
    sha1_hash(&buf)
}

fn header_bytes(version: u32, entry_size: u32) -> Vec<u8> {
    let mut out = b"DXVK".to_vec();
    out.extend_from_slice(&version.to_le_bytes());
    out.extend_from_slice(&entry_size.to_le_bytes());
    out
}

/// A legacy file: each entry is its payload followed by its hash, the
/// payload sized by the header's entry size.
fn legacy_file(version: u32, payloads: &[Vec<u8>]) -> Vec<u8> {
    let entry_size = payloads[0].len() as u32 + 20;
    let mut out = header_bytes(version, entry_size);
    for p in payloads {
        out.extend_from_slice(p);
        out.extend_from_slice(&legacy_hash(p));
    }
    out
}

/// A modern file: each entry is stage mask, 24-bit size, hash, payload.
fn modern_file(version: u32, entries: &[(u8, Vec<u8>)]) -> Vec<u8> {
    let mut out = header_bytes(version, 0);
    for (stage, p) in entries {
        out.push(*stage);
        let size = p.len() as u32;
        out.extend_from_slice(&size.to_le_bytes()[0..3]);
        out.extend_from_slice(&sha1_hash(p));
        out.extend_from_slice(p);
    }
    out
}

#[test]
fn parses_legacy_file() {
    let bytes = legacy_file(2, &[vec![1u8; 40], vec![2u8; 40]]);
    let cache = DxvkStateCache::from_bytes(&bytes).unwrap();
    assert_eq!(cache.header.magic, *b"DXVK");
    assert_eq!(cache.header.version, 2);
    assert_eq!(cache.header.entry_size, 60);
    assert_eq!(cache.len(), 2);
}

#[test]
fn parses_modern_file() {
    let bytes = modern_file(9, &[(1, vec![7u8; 10]), (3, vec![9u8; 25])]);
    let cache = DxvkStateCache::from_bytes(&bytes).unwrap();
    assert_eq!(cache.header.version, 9);
    assert_eq!(cache.len(), 2);
    for (hash, entry) in &cache.entries {
        assert_eq!(*hash, entry.hash);
        assert!(entry.is_valid());
        assert!(entry.header.is_some());
    }
}

#[test]
fn round_trip_legacy_reproduces_bytes() {
    let bytes = legacy_file(7, &[vec![1u8; 16], vec![2u8; 16], vec![3u8; 16]]);
    let cache = DxvkStateCache::from_bytes(&bytes).unwrap();
    assert_eq!(cache.to_bytes(), bytes);
}

#[test]
fn round_trip_modern_reproduces_bytes() {
    let bytes = modern_file(8, &[(0, vec![4u8; 3]), (2, vec![5u8; 100])]);
    let cache = DxvkStateCache::from_bytes(&bytes).unwrap();
    assert_eq!(cache.to_bytes(), bytes);
}

#[test]
fn round_trip_reproduces_hash_data_pairs() {
    let bytes = legacy_file(4, &[vec![11u8; 30], vec![13u8; 30]]);
    let cache = DxvkStateCache::from_bytes(&bytes).unwrap();
    let reread = DxvkStateCache::from_bytes(&cache.to_bytes()).unwrap();
    assert_eq!(reread.header.version, cache.header.version);
    assert_eq!(reread.header.entry_size, cache.header.entry_size);
    let a: Vec<_> = cache.entries.iter().map(|(k, e)| (*k, e.data.clone())).collect();
    let b: Vec<_> = reread.entries.iter().map(|(k, e)| (*k, e.data.clone())).collect();
    assert_eq!(a, b);
}

#[test]
fn bad_magic_is_invalid_data() {
    let mut bytes = legacy_file(2, &[vec![1u8; 40]]);
    bytes[0] = b'X';
    let err = DxvkStateCache::from_bytes(&bytes).unwrap_err();
    assert_eq!(err.kind(), ErrorKind::InvalidData);
    assert_eq!(err.message(), "Magic string mismatch");
}

#[test]
fn unrecognized_version_is_invalid_data() {
    let bytes = header_bytes(1, 60);
    let err = DxvkStateCache::from_bytes(&bytes).unwrap_err();
    assert_eq!(err.kind(), ErrorKind::InvalidData);
    assert_eq!(err.message(), "Unsupported state cache version");
}

#[test]
fn legacy_entry_size_below_hash_size_is_invalid_data() {
    let bytes = header_bytes(2, 8);
    let err = DxvkStateCache::from_bytes(&bytes).unwrap_err();
    assert_eq!(err.kind(), ErrorKind::InvalidData);
}

#[test]
fn truncated_header_is_io_error() {
    let bytes = b"DXVK\x02\x00".to_vec();
    let err = DxvkStateCache::from_bytes(&bytes).unwrap_err();
    assert_eq!(err.kind(), ErrorKind::IoError);
}

#[test]
fn truncation_inside_entry_is_io_error() {
    let mut bytes = legacy_file(2, &[vec![1u8; 40]]);
    bytes.truncate(bytes.len() - 5);
    let err = DxvkStateCache::from_bytes(&bytes).unwrap_err();
    assert_eq!(err.kind(), ErrorKind::IoError);
    assert_eq!(err.message(), "Unexpected end of stream");
}

#[test]
fn end_between_entries_is_clean_stop() {
    let bytes = legacy_file(2, &[vec![1u8; 40], vec![2u8; 40]]);
    let cache = DxvkStateCache::from_bytes(&bytes).unwrap();
    assert_eq!(cache.len(), 2);
}

#[test]
fn corrupt_entry_is_dropped() {
    let mut bytes = legacy_file(2, &[vec![1u8; 40], vec![2u8; 40]]);
    // Flip one payload byte of the first entry: its stored hash no longer
    // matches, so only the second entry survives.
    bytes[12] ^= 0xff;
    let cache = DxvkStateCache::from_bytes(&bytes).unwrap();
    assert_eq!(cache.len(), 1);
}

#[test]
fn duplicate_hash_in_one_file_is_deduplicated() {
    let bytes = legacy_file(2, &[vec![1u8; 40], vec![1u8; 40]]);
    let cache = DxvkStateCache::from_bytes(&bytes).unwrap();
    assert_eq!(cache.len(), 1);
}

#[test]
fn legacy_entry_with_empty_payload_round_trips() {
    // Entry size of exactly twenty: the payload is empty and the entry is
    // nothing but its hash.
    let bytes = legacy_file(2, &[Vec::new(), Vec::new()]);
    let cache = DxvkStateCache::from_bytes(&bytes).unwrap();
    assert_eq!(cache.header.entry_size, 20);
    assert_eq!(cache.len(), 1);
    assert_eq!(cache.to_bytes().len(), 12 + 20);
}

#[test]
fn modern_entry_with_empty_payload_round_trips() {
    let bytes = modern_file(8, &[(5, Vec::new())]);
    let cache = DxvkStateCache::from_bytes(&bytes).unwrap();
    assert_eq!(cache.len(), 1);
    assert_eq!(cache.to_bytes(), bytes);
}

#[test]
fn empty_file_is_io_error() {
    let bytes = Vec::new();
    let err = DxvkStateCache::from_bytes(&bytes).unwrap_err();
    assert_eq!(err.kind(), ErrorKind::IoError);
}
