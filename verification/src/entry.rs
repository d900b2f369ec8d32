//! The entry model: one cache record, its optional per-entry header, and the
//! integrity check that compares its stored hash against a recomputed digest.

use vstd::prelude::*;

use super::codec::{u24_of_le, u32_le_bytes};
use super::digest::{sha1_digest, sha1_of};

verus! {

/// Number of bytes in a stored content hash.
pub const HASH_SIZE: usize = 20;

/// The sentinel block: the SHA-1 digest of the empty byte sequence.  Legacy
/// entries hash it after their payload, standing in for the per-entry hash
/// field that the legacy layout lacks.
pub open spec fn spec_sha1_empty() -> Seq<u8> {
    seq![
        218u8,
        57u8,
        163u8,
        238u8,
        94u8,
        107u8,
        75u8,
        13u8,
        50u8,
        85u8,
        191u8,
        239u8,
        149u8,
        96u8,
        24u8,
        144u8,
        175u8,
        216u8,
        7u8,
        9u8,
    ]
}

/// The sentinel block as bytes.
pub fn sha1_empty() -> (r: [u8; HASH_SIZE])
    ensures
        r@ == spec_sha1_empty(),
{
    let r: [u8; HASH_SIZE] = [
        218u8,
        57u8,
        163u8,
        238u8,
        94u8,
        107u8,
        75u8,
        13u8,
        50u8,
        85u8,
        191u8,
        239u8,
        149u8,
        96u8,
        24u8,
        144u8,
        175u8,
        216u8,
        7u8,
        9u8,
    ];
    proof {
        assert(r@ =~= spec_sha1_empty());
    }
    r
}

/// A byte sequence of `n` zeroes.
pub open spec fn zero_bytes(n: nat) -> Seq<u8> {
    Seq::new(n, |i: int| 0u8)
}

/// The mathematical shape of one cache record: the optional per-entry header
/// (stage mask and the three stored size bytes), the stored hash, and the
/// payload.
#[verifier::ext_equal]
pub struct SpecEntry {
    pub header: Option<(u8, Seq<u8>)>,
    pub hash: Seq<u8>,
    pub data: Seq<u8>,
}

/// The digest an entry's stored hash must equal: the SHA-1 of its payload,
/// with the sentinel block appended when the entry has no header.
pub open spec fn spec_entry_digest(e: SpecEntry) -> Seq<u8> {
    match e.header {
        Some(_) => sha1_of(e.data),
        None => sha1_of(e.data + spec_sha1_empty()),
    }
}

/// Whether an entry's stored hash matches the recomputed digest.
pub open spec fn spec_entry_valid(e: SpecEntry) -> bool {
    e.hash == spec_entry_digest(e)
}

/// The per-entry header of modern editions: a stage mask and a 24-bit
/// payload size, packed as one plus three bytes.
#[derive(Copy, Clone, Debug)]
pub struct DxvkStateCacheEntryHeader {
    pub stage_mask: u8,
    entry_size: [u8; 3],
}

impl DxvkStateCacheEntryHeader {
    /// The three stored size bytes, in stream order.
    pub closed spec fn spec_size_bytes(self) -> Seq<u8> {
        self.entry_size@
    }

    /// The stage mask, at the specification level.
    pub closed spec fn spec_stage_mask(self) -> u8 {
        self.stage_mask
    }

    /// The payload size this header declares.
    pub open spec fn spec_entry_size(self) -> u32 {
        u24_of_le(self.spec_size_bytes())
    }

    /// Unpacks one 32-bit word of a modern entry stream: the low byte is the
    /// stage mask, the upper three bytes the payload size.
    pub fn new(n: u32) -> (h: Self)
        ensures
            h.spec_stage_mask() == (n & 0xff) as u8,
            h.spec_size_bytes() == u32_le_bytes(n).skip(1),
            h.spec_entry_size() == n >> 8,
    {
        let stage_mask = (n & 0xff) as u8;
        let mut entry_size: [u8; 3] = [0u8; 3];
        entry_size[0] = ((n >> 8) & 0xff) as u8;
        entry_size[1] = ((n >> 16) & 0xff) as u8;
        entry_size[2] = ((n >> 24) & 0xff) as u8;
        let h = DxvkStateCacheEntryHeader { stage_mask, entry_size };
        proof {
            assert(h.spec_size_bytes() =~= u32_le_bytes(n).skip(1));
            assert(((((n >> 8) & 0xff) as u8 as u32) | ((((n >> 16) & 0xff) as u8 as u32) << 8) | (
            (((n >> 24) & 0xff) as u8 as u32) << 16)) as u32 == n >> 8) by (bit_vector);
        }
        h
    }

    /// The stage mask, as a value.
    pub fn stage_mask(&self) -> (r: u8)
        ensures
            r == self.spec_stage_mask(),
    {
        self.stage_mask
    }

    /// The three stored size bytes, as a value.
    pub fn size_bytes(&self) -> (r: [u8; 3])
        ensures
            r@ == self.spec_size_bytes(),
    {
        self.entry_size
    }

    /// The payload size this header declares.
    pub fn entry_size(self) -> (r: u32)
        ensures
            r == self.spec_entry_size(),
            r < 0x1000000,
    {
        let b0 = self.entry_size[0];
        let b1 = self.entry_size[1];
        let b2 = self.entry_size[2];
        let r = (b0 as u32) | ((b1 as u32) << 8) | ((b2 as u32) << 16);
        proof {
            assert(((b0 as u32) | ((b1 as u32) << 8) | ((b2 as u32) << 16)) < 0x1000000)
                by (bit_vector);
        }
        r
    }
}

/// One cache record: optional per-entry header, stored content hash, and
/// payload bytes.
#[derive(Debug)]
pub struct DxvkStateCacheEntry {
    pub header: Option<DxvkStateCacheEntryHeader>,
    pub hash: [u8; HASH_SIZE],
    pub data: Vec<u8>,
}

impl View for DxvkStateCacheEntry {
    type V = SpecEntry;

    open spec fn view(&self) -> SpecEntry {
        SpecEntry {
            header: match self.header {
                Some(h) => Some((h.spec_stage_mask(), h.spec_size_bytes())),
                None => None,
            },
            hash: self.hash@,
            data: self.data@,
        }
    }
}

impl DxvkStateCacheEntry {
    /// A zeroed legacy entry whose payload fills a declared total entry size
    /// of `length` bytes, the trailing twenty of which are the hash.
    pub fn with_length(length: usize) -> (e: Self)
        requires
            length >= HASH_SIZE,
        ensures
            e@.header is None,
            e@.hash == zero_bytes(HASH_SIZE as nat),
            e@.data == zero_bytes((length - HASH_SIZE) as nat),
    {
        let data_len = length - HASH_SIZE;
        let e = DxvkStateCacheEntry {
            header: None,
            hash: [0u8; HASH_SIZE],
            data: vec![0u8; data_len],
        };
        proof {
            assert(e@.hash =~= zero_bytes(HASH_SIZE as nat));
            assert(e@.data =~= zero_bytes((length - HASH_SIZE) as nat));
        }
        e
    }

    /// A zeroed modern entry sized by its per-entry header.
    pub fn with_header(header: DxvkStateCacheEntryHeader) -> (e: Self)
        ensures
            e@.header == Some((header.spec_stage_mask(), header.spec_size_bytes())),
            e@.hash == zero_bytes(HASH_SIZE as nat),
            e@.data == zero_bytes(header.spec_entry_size() as nat),
    {
        let size = header.entry_size();
        let e = DxvkStateCacheEntry {
            header: Some(header),
            hash: [0u8; HASH_SIZE],
            data: vec![0u8; size as usize],
        };
        proof {
            assert(e@.hash =~= zero_bytes(HASH_SIZE as nat));
            assert(e@.data =~= zero_bytes(header.spec_entry_size() as nat));
        }
        e
    }

    /// The digest the integrity check compares against, recomputed from the
    /// payload.
    pub fn compute_hash(&self) -> (r: [u8; HASH_SIZE])
        ensures
            r@ == spec_entry_digest(self@),
    {
        let mut buf: Vec<u8> = Vec::new();
        buf.extend_from_slice(self.data.as_slice());
        if self.header.is_none() {
            let sentinel = sha1_empty();
            buf.extend_from_slice(sentinel.as_slice());
            proof {
                assert(buf@ =~= self@.data + spec_sha1_empty());
            }
        } else {
            proof {
                assert(buf@ =~= self@.data);
            }
        }
        sha1_digest(&buf)
    }

    /// The integrity check: true exactly when the stored hash equals the
    /// digest recomputed from the payload, with the sentinel block appended
    /// for entries that lack a header.
    pub fn is_valid(&self) -> (r: bool)
        ensures
            r == spec_entry_valid(self@),
    {
        let digest = self.compute_hash();
        hash_eq(&digest, &self.hash)
    }

    /// Recomputes and stores the hash, making the entry valid again after
    /// its payload was rewritten.
    pub fn refresh_hash(&mut self)
        ensures
            final(self)@.header == old(self)@.header,
            final(self)@.data == old(self)@.data,
            final(self)@.hash == spec_entry_digest(final(self)@),
    {
        let digest = self.compute_hash();
        self.hash = digest;
    }
}

/// Byte-for-byte comparison of two stored hashes.
pub fn hash_eq(a: &[u8; HASH_SIZE], b: &[u8; HASH_SIZE]) -> (r: bool)
    ensures
        r == (a@ == b@),
{
    let mut i: usize = 0;
    while i < HASH_SIZE
        invariant
            i <= HASH_SIZE,
            forall|j: int| 0 <= j < i ==> a@[j] == b@[j],
        decreases HASH_SIZE - i,
    {
        if a[i] != b[i] {
            proof {
                assert(a@[i as int] != b@[i as int]);
            }
            return false;
        }
        i = i + 1;
    }
    proof {
        assert(a@ =~= b@);
    }
    true
}

} // verus!
