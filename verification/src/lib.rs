//! A verified engine for merging DXVK shader-pipeline state-cache files.
//!
//! The library parses the versioned binary cache format, checks each entry's
//! integrity against its stored SHA-1 digest, deduplicates entries by hash in
//! an insertion-ordered store, migrates entry payloads between adjacent format
//! versions, and serializes the merged store back out.  All I/O stays with the
//! caller: the library works on in-memory byte vectors.

pub mod codec;
pub mod digest;
pub mod entry;
pub mod error;
pub mod format;
pub mod merge;
pub mod migrate;
pub mod store;

pub use entry::{DxvkStateCacheEntry, DxvkStateCacheEntryHeader};
pub use store::{DxvkStateCache, DxvkStateCacheHeader};
pub use error::{Error, ErrorKind};
pub use merge::merge_all;
