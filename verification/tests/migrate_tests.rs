//! The version migrator: single steps, chains, the lossy inverse, and the
//! failure modes.

use sha1::{Digest, Sha1};

use dxvk_cache::entry::DxvkStateCacheEntry;
use dxvk_cache::migrate::convert;
use dxvk_cache::ErrorKind;

fn sha1_hash(data: &[u8]) -> [u8; 20] {
    let mut out = [0u8; 20];
    out.copy_from_slice(&Sha1::digest(data));
    out
}

fn legacy_hash(data: &[u8]) -> [u8; 20] {
    let mut buf = data.to_vec();
    buf.extend_from_slice(&sha1_hash(b""));
    sha1_hash(&buf)
}

fn legacy_entry(data: Vec<u8>) -> DxvkStateCacheEntry {
    let hash = legacy_hash(&data);
    DxvkStateCacheEntry { header: None, hash, data }
}

#[test]
fn convert_same_version_is_noop() {
    let mut entry = legacy_entry(vec![3u8; 2000]);
    let before_data = entry.data.clone();
    let before_hash = entry.hash;
    convert(&mut entry, 4, 4).unwrap();
    assert_eq!(entry.data, before_data);
    assert_eq!(entry.hash, before_hash);
}

#[test]
fn v2_to_v3_inverts_depth_clip_and_clears_depth_bias() {
    let mut data = vec![0u8; 2000];
    data[1204] = 1;
    data[1208] = 1;
    let mut entry = legacy_entry(data);
    let old_hash = entry.hash;
    convert(&mut entry, 2, 3).unwrap();
    assert_eq!(entry.data[1204], 0);
    assert_eq!(entry.data[1208], 0);
    // The hash is recomputed over the rewritten payload and differs.
    assert_eq!(entry.hash, legacy_hash(&entry.data));
    assert_ne!(entry.hash, old_hash);
    assert!(entry.is_valid());
}

#[test]
fn v2_to_v3_sets_cleared_depth_clip() {
    let mut data = vec![0u8; 2000];
    data[1204] = 0;
    let mut entry = legacy_entry(data);
    convert(&mut entry, 2, 3).unwrap();
    assert_eq!(entry.data[1204], 1);
    assert_eq!(entry.data[1208], 0);
}

#[test]
fn v3_to_v4_sets_alpha_compare_default() {
    let mut entry = legacy_entry(vec![0u8; 2000]);
    convert(&mut entry, 3, 4).unwrap();
    assert_eq!(entry.data[1244], 7);
    assert!(entry.is_valid());
}

#[test]
fn v2_to_v4_walks_both_steps() {
    let mut data = vec![0u8; 2000];
    data[1204] = 1;
    let mut entry = legacy_entry(data);
    convert(&mut entry, 2, 4).unwrap();
    assert_eq!(entry.data[1204], 0);
    assert_eq!(entry.data[1208], 0);
    assert_eq!(entry.data[1244], 7);
    assert!(entry.is_valid());
}

#[test]
fn round_trip_v2_v3_identity_when_flags_agree() {
    let mut data = vec![0u8; 2000];
    data[1204] = 1;
    data[1208] = 1;
    let original = data.clone();
    let mut entry = legacy_entry(data);
    convert(&mut entry, 2, 3).unwrap();
    convert(&mut entry, 3, 2).unwrap();
    assert_eq!(entry.data, original);
}

#[test]
fn round_trip_v2_v3_documented_divergence() {
    // Depth-bias set but depth-clip clear: the inverse cannot reconstruct
    // the original, and the depth-bias byte comes back as the depth-clip
    // value instead.
    let mut data = vec![0u8; 2000];
    data[1204] = 0;
    data[1208] = 1;
    let original = data.clone();
    let mut entry = legacy_entry(data);
    convert(&mut entry, 2, 3).unwrap();
    convert(&mut entry, 3, 2).unwrap();
    assert_ne!(entry.data, original);
    assert_eq!(entry.data[1208], 0);
    assert_eq!(entry.data[1204], original[1204]);
    let same_elsewhere = entry
        .data
        .iter()
        .zip(original.iter())
        .enumerate()
        .all(|(i, (a, b))| i == 1208 || a == b);
    assert!(same_elsewhere);
}

#[test]
fn round_trip_v3_v4_is_identity() {
    let original = vec![0u8; 2000];
    let mut entry = legacy_entry(original.clone());
    convert(&mut entry, 3, 4).unwrap();
    convert(&mut entry, 4, 3).unwrap();
    assert_eq!(entry.data, original);
}

#[test]
fn short_payload_edits_are_noops() {
    let mut entry = legacy_entry(vec![9u8; 100]);
    let before = entry.data.clone();
    convert(&mut entry, 2, 3).unwrap();
    assert_eq!(entry.data, before);
    assert!(entry.is_valid());
}

#[test]
fn corrupted_flag_byte_is_invalid_data() {
    let mut data = vec![0u8; 2000];
    data[1204] = 5;
    let mut entry = legacy_entry(data.clone());
    let err = convert(&mut entry, 2, 3).unwrap_err();
    assert_eq!(err.kind(), ErrorKind::InvalidData);
    assert_eq!(err.message(), "State cache entry data corruption");
    // The entry is left untouched.
    assert_eq!(entry.data, data);
}

#[test]
fn corrupted_alpha_compare_byte_is_invalid_data() {
    let mut data = vec![0u8; 2000];
    data[1244] = 3;
    let mut entry = legacy_entry(data);
    let err = convert(&mut entry, 3, 4).unwrap_err();
    assert_eq!(err.kind(), ErrorKind::InvalidData);
}

#[test]
fn steps_beyond_v4_are_unsupported() {
    let mut entry = legacy_entry(vec![0u8; 2000]);
    let err = convert(&mut entry, 4, 5).unwrap_err();
    assert_eq!(err.kind(), ErrorKind::InvalidInput);
    assert_eq!(err.message(), "Unsupported state cache version conversion");

    let mut entry = legacy_entry(vec![0u8; 2000]);
    let err = convert(&mut entry, 2, 5).unwrap_err();
    assert_eq!(err.kind(), ErrorKind::InvalidInput);

    let mut entry = legacy_entry(vec![0u8; 2000]);
    let err = convert(&mut entry, 8, 7).unwrap_err();
    assert_eq!(err.kind(), ErrorKind::InvalidInput);
}
