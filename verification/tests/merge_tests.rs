//! Whole runs of the merger over in-memory file images.

use sha1::{Digest, Sha1};

use dxvk_cache::merge_all;
use dxvk_cache::ErrorKind;

fn sha1_hash(data: &[u8]) -> [u8; 20] {
    let mut out = [0u8; 20];
    out.copy_from_slice(&Sha1::digest(data));
    out
}

fn legacy_hash(data: &[u8]) -> [u8; 20] {
    let mut buf = data.to_vec();
    buf.extend_from_slice(&sha1_hash(b""));
    sha1_hash(&buf)
}

fn header_bytes(version: u32, entry_size: u32) -> Vec<u8> {
    let mut out = b"DXVK".to_vec();
    out.extend_from_slice(&version.to_le_bytes());
    out.extend_from_slice(&entry_size.to_le_bytes());
    out
}

fn legacy_file(version: u32, payloads: &[Vec<u8>]) -> Vec<u8> {
    let entry_size = payloads[0].len() as u32 + 20;
    let mut out = header_bytes(version, entry_size);
    for p in payloads {
        out.extend_from_slice(p);
        out.extend_from_slice(&legacy_hash(p));
    }
    out
}

#[test]
fn merges_two_legacy_files_with_overlap() {
    // File A holds payloads one and two, file B payloads two and three,
    // payload two byte-identical in both.  The merged store holds exactly
    // the three distinct records: two keeps its position from the first
    // insertion and its value from B, three comes last.
    let p1 = vec![1u8; 40];
    let p2 = vec![2u8; 40];
    let p3 = vec![3u8; 40];
    let file_a = legacy_file(2, &[p1.clone(), p2.clone()]);
    let file_b = legacy_file(2, &[p2.clone(), p3.clone()]);
    let (cache, counts) = merge_all(&vec![file_a, file_b], 0).unwrap();
    assert_eq!(cache.header.version, 2);
    assert_eq!(cache.len(), 3);
    assert_eq!(counts, vec![2, 1]);
    let order: Vec<Vec<u8>> = cache.entries.values().map(|e| e.data.clone()).collect();
    assert_eq!(order, vec![p1, p2, p3]);
    for (hash, entry) in &cache.entries {
        assert_eq!(*hash, legacy_hash(&entry.data));
    }
}

#[test]
fn merges_disjoint_files_summing_sizes() {
    let file_a = legacy_file(2, &[vec![1u8; 40], vec![2u8; 40]]);
    let file_b = legacy_file(2, &[vec![3u8; 40], vec![4u8; 40]]);
    let (cache, counts) = merge_all(&vec![file_a, file_b], 0).unwrap();
    assert_eq!(cache.len(), 4);
    assert_eq!(counts, vec![2, 2]);
}

#[test]
fn rejects_mixed_detected_versions() {
    let file_a = legacy_file(2, &[vec![1u8; 40]]);
    let file_b = legacy_file(3, &[vec![2u8; 40]]);
    let err = merge_all(&vec![file_a, file_b], 0).unwrap_err();
    assert_eq!(err.kind(), ErrorKind::InvalidInput);
    assert_eq!(err.message(), "State cache version mismatch");
}

#[test]
fn no_valid_entries_is_invalid_data() {
    // Both files parse, but every entry fails the integrity check.
    let mut file_a = legacy_file(2, &[vec![1u8; 40]]);
    let alen = file_a.len();
    file_a[alen - 1] ^= 0xff;
    let mut file_b = legacy_file(2, &[vec![2u8; 40]]);
    let blen = file_b.len();
    file_b[blen - 1] ^= 0xff;
    let err = merge_all(&vec![file_a, file_b], 0).unwrap_err();
    assert_eq!(err.kind(), ErrorKind::InvalidData);
    assert_eq!(err.message(), "No valid state cache entries found");
}

#[test]
fn no_inputs_is_invalid_data() {
    let err = merge_all(&Vec::new(), 0).unwrap_err();
    assert_eq!(err.kind(), ErrorKind::InvalidData);
}

#[test]
fn bad_magic_aborts_run() {
    let good = legacy_file(2, &[vec![1u8; 40]]);
    let mut bad = legacy_file(2, &[vec![2u8; 40]]);
    bad[1] = b'Y';
    let err = merge_all(&vec![good, bad], 0).unwrap_err();
    assert_eq!(err.kind(), ErrorKind::InvalidData);
    assert_eq!(err.message(), "Magic string mismatch");
}

#[test]
fn migrates_v2_run_to_v3() {
    // Every entry of a version-two file migrated to version three: the
    // depth-clip byte inverted, the depth-bias byte cleared, and every
    // output hash differing from its input hash.
    let mut p1 = vec![0u8; 1500];
    p1[1204] = 1;
    p1[1208] = 1;
    let mut p2 = vec![9u8; 1500];
    p2[1204] = 0;
    p2[1208] = 0;
    let input_hashes = vec![legacy_hash(&p1), legacy_hash(&p2)];
    let file = legacy_file(2, &[p1.clone(), p2.clone()]);
    let (cache, _) = merge_all(&vec![file], 3).unwrap();
    assert_eq!(cache.header.version, 3);
    assert_eq!(cache.len(), 2);
    let entries: Vec<_> = cache.entries.values().collect();
    assert_eq!(entries[0].data[1204], 0);
    assert_eq!(entries[0].data[1208], 0);
    assert_eq!(entries[1].data[1204], 1);
    assert_eq!(entries[1].data[1208], 0);
    for (i, (hash, entry)) in cache.entries.iter().enumerate() {
        assert_eq!(*hash, legacy_hash(&entry.data));
        assert_ne!(*hash, input_hashes[i]);
    }
}

#[test]
fn target_version_without_ladder_step_aborts() {
    let file = legacy_file(2, &[vec![1u8; 40]]);
    let err = merge_all(&vec![file], 9).unwrap_err();
    assert_eq!(err.kind(), ErrorKind::InvalidInput);
}

#[test]
fn keeping_detected_version_is_default() {
    let file = legacy_file(6, &[vec![1u8; 40]]);
    let (cache, _) = merge_all(&vec![file], 0).unwrap();
    assert_eq!(cache.header.version, 6);
    assert_eq!(cache.header.entry_size, 60);
}
