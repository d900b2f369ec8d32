//! The cache store: deduplication, insertion order, and merge-in behavior.

use dxvk_cache::entry::DxvkStateCacheEntry;
use dxvk_cache::{DxvkStateCache, ErrorKind};

fn entry_with(hash_byte: u8, data: Vec<u8>) -> DxvkStateCacheEntry {
    DxvkStateCacheEntry { header: None, hash: [hash_byte; 20], data }
}

#[test]
fn new_store_is_empty() {
    let cache = DxvkStateCache::new();
    assert!(cache.is_empty());
    assert_eq!(cache.len(), 0);
    assert_eq!(cache.header.magic, *b"DXVK");
    assert_eq!(cache.header.version, 0);
}

#[test]
fn insert_keys_by_hash() {
    let mut cache = DxvkStateCache::new();
    cache.insert_entry(entry_with(1, vec![10]));
    cache.insert_entry(entry_with(2, vec![20]));
    assert_eq!(cache.len(), 2);
    assert!(cache.entries.contains_key(&[1u8; 20]));
    assert!(cache.entries.contains_key(&[2u8; 20]));
}

#[test]
fn insert_overwrites_without_moving() {
    let mut cache = DxvkStateCache::new();
    cache.insert_entry(entry_with(1, vec![10]));
    cache.insert_entry(entry_with(2, vec![20]));
    cache.insert_entry(entry_with(1, vec![99]));
    assert_eq!(cache.len(), 2);
    let order: Vec<[u8; 20]> = cache.entries.keys().copied().collect();
    assert_eq!(order, vec![[1u8; 20], [2u8; 20]]);
    assert_eq!(cache.entries[&[1u8; 20]].data, vec![99]);
}

#[test]
fn extend_counts_new_entries() {
    let mut a = DxvkStateCache::new();
    a.insert_entry(entry_with(1, vec![1]));
    a.insert_entry(entry_with(2, vec![2]));
    let mut b = DxvkStateCache::new();
    b.insert_entry(entry_with(2, vec![22]));
    b.insert_entry(entry_with(3, vec![3]));
    let added = a.extend(b).unwrap();
    assert_eq!(added, 1);
    assert_eq!(a.len(), 3);
}

#[test]
fn extend_disjoint_sums_sizes() {
    let mut a = DxvkStateCache::new();
    a.insert_entry(entry_with(1, vec![1]));
    a.insert_entry(entry_with(2, vec![2]));
    let mut b = DxvkStateCache::new();
    b.insert_entry(entry_with(3, vec![3]));
    let added = a.extend(b).unwrap();
    assert_eq!(added, 1);
    assert_eq!(a.len(), 3);
}

#[test]
fn extend_later_entry_wins_and_keeps_position() {
    let mut a = DxvkStateCache::new();
    a.insert_entry(entry_with(1, vec![1]));
    a.insert_entry(entry_with(2, vec![2]));
    let mut b = DxvkStateCache::new();
    b.insert_entry(entry_with(1, vec![111]));
    a.extend(b).unwrap();
    let order: Vec<[u8; 20]> = a.entries.keys().copied().collect();
    assert_eq!(order, vec![[1u8; 20], [2u8; 20]]);
    assert_eq!(a.entries[&[1u8; 20]].data, vec![111]);
}

#[test]
fn extend_rejects_version_mismatch() {
    let mut a = DxvkStateCache::new();
    a.header.version = 2;
    let mut b = DxvkStateCache::new();
    b.header.version = 3;
    b.insert_entry(entry_with(1, vec![1]));
    let err = a.extend(b).unwrap_err();
    assert_eq!(err.kind(), ErrorKind::InvalidInput);
    assert_eq!(err.message(), "State cache version mismatch");
    assert_eq!(a.len(), 0);
}
