//! The format reader and writer: the byte-level meaning of a cache file,
//! the verified parser that streams entries in, and the verified serializer
//! that streams the store back out.

use vstd::prelude::*;

use super::codec::{
    msg_truncated, u24_of_le, u32_le_bytes, u32_of_le, write_u32, write_u8, ByteReader,
    lemma_u32_le_split, ReadEx,
};
use super::entry::{
    spec_entry_valid, DxvkStateCacheEntry, DxvkStateCacheEntryHeader, SpecEntry, HASH_SIZE,
};
use super::error::{Error, ErrorKind};
use super::codec::{lemma_u32_le_round_trip};
use super::store::{
    hash_in, spec_magic, store_push, unique_hashes, DxvkStateCache, DxvkStateCacheHeader,
};

verus! {

/// The newest format version that uses the legacy entry layout.
pub const LEGACY_VERSION: u32 = 7;

/// Whether the version ladder recognizes `v` at all.
pub open spec fn spec_version_recognized(v: u32) -> bool {
    v >= 2
}

/// Whether entries of version `v` use the legacy layout: a payload of the
/// header-declared size followed by the hash, with no per-entry header.
pub open spec fn spec_is_legacy(v: u32) -> bool {
    v <= LEGACY_VERSION
}

/// The mathematical shape of a file header.
#[verifier::ext_equal]
pub struct SpecHeader {
    pub magic: Seq<u8>,
    pub version: u32,
    pub entry_size: u32,
}

impl View for DxvkStateCacheHeader {
    type V = SpecHeader;

    open spec fn view(&self) -> SpecHeader {
        SpecHeader { magic: self.magic@, version: self.version, entry_size: self.entry_size }
    }
}

/// The serialized bytes of a file header.
pub open spec fn spec_header_bytes(h: SpecHeader) -> Seq<u8> {
    h.magic + u32_le_bytes(h.version) + u32_le_bytes(h.entry_size)
}

/// The serialized bytes of one record, in the layout its own header
/// presence selects: modern records lead with stage mask, size and hash;
/// legacy records trail the hash after the payload.
pub open spec fn spec_entry_bytes(e: SpecEntry) -> Seq<u8> {
    match e.header {
        Some(h) => seq![h.0] + h.1 + e.hash + e.data,
        None => e.data + e.hash,
    }
}

/// The serialized bytes of a record sequence, oldest first.
pub open spec fn spec_entries_bytes(s: Seq<SpecEntry>) -> Seq<u8>
    decreases s.len(),
{
    if s.len() == 0 {
        Seq::empty()
    } else {
        spec_entry_bytes(s[0]) + spec_entries_bytes(s.drop_first())
    }
}

/// The serialized bytes of a whole cache file.
pub open spec fn spec_cache_bytes(h: SpecHeader, s: Seq<SpecEntry>) -> Seq<u8> {
    spec_header_bytes(h) + spec_entries_bytes(s)
}

/// Serializing one more record appends its bytes.
pub proof fn lemma_entries_bytes_push(s: Seq<SpecEntry>, e: SpecEntry)
    ensures
        spec_entries_bytes(s.push(e)) == spec_entries_bytes(s) + spec_entry_bytes(e),
    decreases s.len(),
{
    if s.len() == 0 {
        assert(s.push(e).drop_first() =~= s);
        assert(spec_entries_bytes(s.push(e)) =~= spec_entries_bytes(s) + spec_entry_bytes(e));
    } else {
        assert(s.push(e).drop_first() =~= s.drop_first().push(e));
        lemma_entries_bytes_push(s.drop_first(), e);
        assert(spec_entries_bytes(s.push(e)) =~= spec_entries_bytes(s) + spec_entry_bytes(e));
    }
}

/// The message a magic mismatch carries.
pub open spec fn msg_bad_magic() -> Seq<char> {
    "Magic string mismatch"@
}

/// The message an unrecognized version carries.
pub open spec fn msg_bad_version() -> Seq<char> {
    "Unsupported state cache version"@
}

/// The message a legacy header with an impossible entry size carries.
pub open spec fn msg_bad_entry_size() -> Seq<char> {
    "Invalid state cache entry size"@
}

/// Parsing the records of a stream tail: one record at a time in the layout
/// `version` selects, stopping cleanly only between records, keeping the
/// records whose integrity check passes, deduplicated by hash into `acc`.
pub open spec fn spec_parse_entries(
    rem: Seq<u8>,
    version: u32,
    esize: u32,
    acc: Seq<SpecEntry>,
) -> Result<Seq<SpecEntry>, (ErrorKind, Seq<char>)>
    decreases rem.len(),
{
    if rem.len() == 0 {
        Ok(acc)
    } else if spec_is_legacy(version) {
        if esize < 20 {
            Err((ErrorKind::InvalidData, msg_bad_entry_size()))
        } else if rem.len() < esize {
            Err((ErrorKind::IoError, msg_truncated()))
        } else {
            let e = SpecEntry {
                header: None,
                hash: rem.subrange(esize - 20, esize as int),
                data: rem.subrange(0, esize - 20),
            };
            spec_parse_entries(
                rem.skip(esize as int),
                version,
                esize,
                if spec_entry_valid(e) {
                    store_push(acc, e)
                } else {
                    acc
                },
            )
        }
    } else {
        if rem.len() < 24 {
            Err((ErrorKind::IoError, msg_truncated()))
        } else {
            let size = u24_of_le(rem.subrange(1, 4)) as int;
            if rem.len() < 24 + size {
                Err((ErrorKind::IoError, msg_truncated()))
            } else {
                let e = SpecEntry {
                    header: Some((rem[0], rem.subrange(1, 4))),
                    hash: rem.subrange(4, 24),
                    data: rem.subrange(24, 24 + size),
                };
                spec_parse_entries(
                    rem.skip(24 + size),
                    version,
                    esize,
                    if spec_entry_valid(e) {
                        store_push(acc, e)
                    } else {
                        acc
                    },
                )
            }
        }
    }
}

/// Parsing a whole file image: the twelve header bytes, their checks, then
/// the records.
pub open spec fn spec_parse(b: Seq<u8>) -> Result<
    (SpecHeader, Seq<SpecEntry>),
    (ErrorKind, Seq<char>),
> {
    if b.len() < 12 {
        Err((ErrorKind::IoError, msg_truncated()))
    } else {
        let h = SpecHeader {
            magic: b.take(4),
            version: u32_of_le(b.subrange(4, 8)),
            entry_size: u32_of_le(b.subrange(8, 12)),
        };
        if h.magic != spec_magic() {
            Err((ErrorKind::InvalidData, msg_bad_magic()))
        } else if !spec_version_recognized(h.version) {
            Err((ErrorKind::InvalidData, msg_bad_version()))
        } else if spec_is_legacy(h.version) && h.entry_size < 20 {
            Err((ErrorKind::InvalidData, msg_bad_entry_size()))
        } else {
            match spec_parse_entries(b.skip(12), h.version, h.entry_size, Seq::empty()) {
                Ok(s) => Ok((h, s)),
                Err(e) => Err(e),
            }
        }
    }
}

impl DxvkStateCache {
    /// Serializes the store: the header, then every record oldest first,
    /// each in the layout its own header presence selects.
    pub fn to_bytes(&self) -> (out: Vec<u8>)
        ensures
            out@ == spec_cache_bytes(self.header@, self.model()),
    {
        let mut out: Vec<u8> = Vec::new();
        out.extend_from_slice(self.header.magic.as_slice());
        write_u32(&mut out, self.header.version);
        write_u32(&mut out, self.header.entry_size);
        proof {
            assert(out@ =~= spec_header_bytes(self.header@));
        }
        let entries = super::store::lhm_values(&self.entries);
        let ghost model = self.model();
        proof {
            assert(entries@.map_values(|e: DxvkStateCacheEntry| e@).len() == model.len());
        }
        let mut i: usize = 0;
        while i < entries.len()
            invariant
                i <= entries.len(),
                entries@.map_values(|e: DxvkStateCacheEntry| e@) == model,
                out@ == spec_header_bytes(self.header@) + spec_entries_bytes(model.take(i as int)),
            decreases entries.len() - i,
        {
            let ghost before = out@;
            let e = &entries[i];
            proof {
                assert(entries@.map_values(|en: DxvkStateCacheEntry| en@)[i as int] == e@);
            }
            match &e.header {
                Some(h) => {
                    write_u8(&mut out, h.stage_mask());
                    let sb = h.size_bytes();
                    out.extend_from_slice(sb.as_slice());
                    out.extend_from_slice(e.hash.as_slice());
                    out.extend_from_slice(e.data.as_slice());
                },
                None => {
                    out.extend_from_slice(e.data.as_slice());
                    out.extend_from_slice(e.hash.as_slice());
                },
            }
            proof {
                assert(out@ =~= before + spec_entry_bytes(e@));
                assert(model.take(i + 1) =~= model.take(i as int).push(model[i as int]));
                lemma_entries_bytes_push(model.take(i as int), model[i as int]);
                assert(out@ =~= spec_header_bytes(self.header@) + spec_entries_bytes(
                    model.take(i + 1),
                ));
            }
            i = i + 1;
        }
        proof {
            assert(model.take(model.len() as int) =~= model);
        }
        out
    }

    /// Parses one cache file image: the header with its checks, then the
    /// records in stream order, dropping any record whose integrity check
    /// fails and deduplicating the rest by hash, the newest record winning.
    /// A stream that ends between records stops cleanly; one that ends
    /// inside a record is reported as truncated.
    pub fn from_bytes(bytes: &Vec<u8>) -> (r: Result<DxvkStateCache, Error>)
        ensures
            match (r, spec_parse(bytes@)) {
                (Ok(c), Ok(hs)) => c.header@ == hs.0 && c.wf() && c.model() == hs.1,
                (Err(e), Err(km)) => e.spec_kind() == km.0 && e.spec_message() == km.1,
                _ => false,
            },
    {
        let mut reader = ByteReader::new(bytes);
        let magic = match reader.read_bytes(4) {
            Ok(m) => m,
            Err(e) => {
                return Err(e);
            },
        };
        let version = match reader.read_u32() {
            Ok(v) => v,
            Err(e) => {
                return Err(e);
            },
        };
        let esize = match reader.read_u32() {
            Ok(v) => v,
            Err(e) => {
                return Err(e);
            },
        };
        proof {
            assert(bytes@.len() >= 12);
            assert(magic@ == bytes@.take(4));
            assert(bytes@.skip(4).take(4) =~= bytes@.subrange(4, 8));
            assert(bytes@.skip(4).skip(4) =~= bytes@.skip(8));
            assert(bytes@.skip(8).take(4) =~= bytes@.subrange(8, 12));
            assert(version == u32_of_le(bytes@.subrange(4, 8)));
            assert(esize == u32_of_le(bytes@.subrange(8, 12)));
        }
        if !(magic[0] == 0x44 && magic[1] == 0x58 && magic[2] == 0x56 && magic[3] == 0x4b) {
            proof {
                if bytes@.take(4) == spec_magic() {
                    assert(magic@[0] == 0x44 && magic@[1] == 0x58 && magic@[2] == 0x56
                        && magic@[3] == 0x4b);
                }
            }
            return Err(Error::new(ErrorKind::InvalidData, "Magic string mismatch"));
        }
        proof {
            assert(bytes@.take(4) =~= spec_magic());
        }
        if version < 2 {
            return Err(Error::new(ErrorKind::InvalidData, "Unsupported state cache version"));
        }
        if version <= LEGACY_VERSION && esize < 20 {
            return Err(Error::new(ErrorKind::InvalidData, "Invalid state cache entry size"));
        }
        let ghost sh = SpecHeader { magic: bytes@.take(4), version: version, entry_size: esize };
        let mut cache = DxvkStateCache::new();
        cache.header = DxvkStateCacheHeader {
            magic: [0x44u8, 0x58u8, 0x56u8, 0x4bu8],
            version,
            entry_size: esize,
        };
        proof {
            assert(cache.header@ =~= sh);
            assert(reader.remaining() =~= bytes@.skip(12));
            assert(cache.model() =~= Seq::<SpecEntry>::empty());
            assert(match spec_parse_entries(bytes@.skip(12), version, esize, Seq::empty()) {
                Ok(s) => spec_parse(bytes@) == Ok::<(SpecHeader, Seq<SpecEntry>), (
                    ErrorKind,
                    Seq<char>,
                )>((sh, s)),
                Err(em) => spec_parse(bytes@) == Err::<(SpecHeader, Seq<SpecEntry>), (
                    ErrorKind,
                    Seq<char>,
                )>(em),
            });
        }
        loop
            invariant
                cache.wf(),
                cache.header@ == sh,
                version >= 2,
                version <= LEGACY_VERSION ==> esize >= 20,
                (match spec_parse_entries(reader.remaining(), version, esize, cache.model()) {
                    Ok(s) => spec_parse(bytes@) == Ok::<(SpecHeader, Seq<SpecEntry>), (
                        ErrorKind,
                        Seq<char>,
                    )>((sh, s)),
                    Err(em) => spec_parse(bytes@) == Err::<(SpecHeader, Seq<SpecEntry>), (
                        ErrorKind,
                        Seq<char>,
                    )>(em),
                }),
            ensures
                cache.wf(),
                cache.header@ == sh,
                spec_parse(bytes@) == Ok::<(SpecHeader, Seq<SpecEntry>), (ErrorKind, Seq<char>)>(
                    (sh, cache.model()),
                ),
            decreases reader.remaining().len(),
        {
            let ghost rem0 = reader.remaining();
            let ghost model0 = cache.model();
            if reader.remaining_len() == 0 {
                proof {
                    assert(spec_parse_entries(rem0, version, esize, model0) == Ok::<
                        Seq<SpecEntry>,
                        (ErrorKind, Seq<char>),
                    >(model0));
                }
                break ;
            }
            if version > LEGACY_VERSION {
                let n = match reader.read_u32() {
                    Ok(n) => n,
                    Err(e) => {
                        proof {
                            assert(spec_parse_entries(rem0, version, esize, model0) == Err::<
                                Seq<SpecEntry>,
                                (ErrorKind, Seq<char>),
                            >((ErrorKind::IoError, msg_truncated())));
                        }
                        return Err(e);
                    },
                };
                let header = DxvkStateCacheEntryHeader::new(n);
                let mut entry = DxvkStateCacheEntry::with_header(header);
                let hash = match reader.read_hash() {
                    Ok(h) => h,
                    Err(e) => {
                        proof {
                            assert(rem0.len() < 24);
                            assert(spec_parse_entries(rem0, version, esize, model0) == Err::<
                                Seq<SpecEntry>,
                                (ErrorKind, Seq<char>),
                            >((ErrorKind::IoError, msg_truncated())));
                        }
                        return Err(e);
                    },
                };
                proof {
                    lemma_u32_le_split(rem0.take(4));
                    assert(rem0.take(4).subrange(1, 4) =~= rem0.subrange(1, 4));
                    assert(header.spec_entry_size() == u24_of_le(rem0.subrange(1, 4)));
                }
                let size = header.entry_size();
                let ghost ssize = u24_of_le(rem0.subrange(1, 4)) as int;
                let data = match reader.read_bytes(size as usize) {
                    Ok(d) => d,
                    Err(e) => {
                        proof {
                            assert(rem0.len() < 24 + ssize);
                            assert(spec_parse_entries(rem0, version, esize, model0) == Err::<
                                Seq<SpecEntry>,
                                (ErrorKind, Seq<char>),
                            >((ErrorKind::IoError, msg_truncated())));
                        }
                        return Err(e);
                    },
                };
                entry.hash = hash;
                entry.data = data;
                let ghost se = SpecEntry {
                    header: Some((rem0[0], rem0.subrange(1, 4))),
                    hash: rem0.subrange(4, 24),
                    data: rem0.subrange(24, 24 + ssize),
                };
                proof {
                    assert(rem0.len() >= 24 + ssize);
                    assert(rem0.take(4)[0] == rem0[0]);
                    assert(header.spec_stage_mask() == rem0[0]);
                    assert(header.spec_size_bytes() =~= rem0.subrange(1, 4));
                    assert(entry@.hash =~= rem0.subrange(4, 24));
                    assert(rem0.skip(4).skip(20) =~= rem0.skip(24));
                    assert(entry@.data =~= rem0.subrange(24, 24 + ssize));
                    assert(entry@ =~= se);
                    assert(reader.remaining() =~= rem0.skip(24 + ssize));
                }
                if entry.is_valid() {
                    cache.insert_entry(entry);
                }
                proof {
                    assert(spec_parse_entries(rem0, version, esize, model0)
                        == spec_parse_entries(reader.remaining(), version, esize, cache.model()));
                }
            } else {
                let mut entry = DxvkStateCacheEntry::with_length(esize as usize);
                let data = match reader.read_bytes((esize as usize) - HASH_SIZE) {
                    Ok(d) => d,
                    Err(e) => {
                        proof {
                            assert(rem0.len() < esize);
                            assert(spec_parse_entries(rem0, version, esize, model0) == Err::<
                                Seq<SpecEntry>,
                                (ErrorKind, Seq<char>),
                            >((ErrorKind::IoError, msg_truncated())));
                        }
                        return Err(e);
                    },
                };
                let hash = match reader.read_hash() {
                    Ok(h) => h,
                    Err(e) => {
                        proof {
                            assert(rem0.len() < esize);
                            assert(spec_parse_entries(rem0, version, esize, model0) == Err::<
                                Seq<SpecEntry>,
                                (ErrorKind, Seq<char>),
                            >((ErrorKind::IoError, msg_truncated())));
                        }
                        return Err(e);
                    },
                };
                entry.data = data;
                entry.hash = hash;
                let ghost se = SpecEntry {
                    header: None,
                    hash: rem0.subrange(esize - 20, esize as int),
                    data: rem0.subrange(0, esize - 20),
                };
                proof {
                    assert(rem0.len() >= esize);
                    assert(entry@.data =~= rem0.subrange(0, esize - 20));
                    assert(entry@.hash =~= rem0.subrange(esize - 20, esize as int));
                    assert(entry@ =~= se);
                    assert(reader.remaining() =~= rem0.skip(esize as int));
                }
                if entry.is_valid() {
                    cache.insert_entry(entry);
                }
                proof {
                    assert(spec_parse_entries(rem0, version, esize, model0)
                        == spec_parse_entries(reader.remaining(), version, esize, cache.model()));
                }
            }
        }
        Ok(cache)
    }
}

/// Layout consistency of one record with the version and advisory entry
/// size that will describe it in a file.
pub open spec fn spec_entry_fits(version: u32, esize: u32, e: SpecEntry) -> bool {
    &&& e.hash.len() == 20
    &&& if spec_is_legacy(version) {
        e.header is None && e.data.len() + 20 == esize
    } else {
        match e.header {
            Some(hd) => hd.1.len() == 3 && e.data.len() == u24_of_le(hd.1),
            None => false,
        }
    }
}

/// A header and record sequence that the writer can emit and the reader
/// must accept unchanged.
pub open spec fn spec_file_wf(h: SpecHeader, s: Seq<SpecEntry>) -> bool {
    &&& h.magic == spec_magic()
    &&& spec_version_recognized(h.version)
    &&& (spec_is_legacy(h.version) ==> h.entry_size >= 20)
    &&& unique_hashes(s)
    &&& forall|i: int| 0 <= i < s.len() ==> spec_entry_valid(#[trigger] s[i])
    &&& forall|i: int|
        0 <= i < s.len() ==> spec_entry_fits(h.version, h.entry_size, #[trigger] s[i])
}

proof fn lemma_parse_entries_round_trip(
    version: u32,
    esize: u32,
    acc: Seq<SpecEntry>,
    s: Seq<SpecEntry>,
)
    requires
        spec_version_recognized(version),
        spec_is_legacy(version) ==> esize >= 20,
        unique_hashes(acc + s),
        forall|i: int| 0 <= i < s.len() ==> spec_entry_valid(#[trigger] s[i]),
        forall|i: int| 0 <= i < s.len() ==> spec_entry_fits(version, esize, #[trigger] s[i]),
    ensures
        spec_parse_entries(spec_entries_bytes(s), version, esize, acc) == Ok::<
            Seq<SpecEntry>,
            (ErrorKind, Seq<char>),
        >(acc + s),
    decreases s.len(),
{
    if s.len() == 0 {
        assert(spec_entries_bytes(s).len() == 0);
        assert(acc + s =~= acc);
    } else {
        let e = s[0];
        let rem = spec_entries_bytes(s);
        let eb = spec_entry_bytes(e);
        let rest = spec_entries_bytes(s.drop_first());
        assert(rem == eb + rest);
        assert(spec_entry_valid(e));
        assert(spec_entry_fits(version, esize, e));
        assert(!hash_in(acc, e.hash)) by {
            assert forall|i: int| 0 <= i < acc.len() implies (#[trigger] acc[i]).hash
                != e.hash by {
                assert((acc + s)[i] == acc[i]);
                assert((acc + s)[acc.len() as int] == e);
            }
        }
        assert(store_push(acc, e) == acc.push(e));
        let acc2 = acc.push(e);
        assert(acc2 + s.drop_first() =~= acc + s);
        if spec_is_legacy(version) {
            assert(eb.len() == esize);
            assert(rem.len() >= esize);
            assert(rem.subrange(0, esize - 20) =~= e.data);
            assert(rem.subrange(esize - 20, esize as int) =~= e.hash);
            let pe = SpecEntry {
                header: None,
                hash: rem.subrange(esize - 20, esize as int),
                data: rem.subrange(0, esize - 20),
            };
            assert(pe =~= e);
            assert(rem.skip(esize as int) =~= rest);
        } else {
            let hd = e.header->0;
            assert(eb =~= seq![hd.0] + hd.1 + e.hash + e.data);
            assert(eb.len() == 24 + e.data.len() as int);
            assert(rem.len() >= 24 + e.data.len() as int);
            assert(rem[0] == hd.0);
            assert(rem.subrange(1, 4) =~= hd.1);
            assert(u24_of_le(rem.subrange(1, 4)) == e.data.len());
            assert(rem.subrange(4, 24) =~= e.hash);
            assert(rem.subrange(24, 24 + e.data.len() as int) =~= e.data);
            let pe = SpecEntry {
                header: Some((rem[0], rem.subrange(1, 4))),
                hash: rem.subrange(4, 24),
                data: rem.subrange(24, 24 + e.data.len() as int),
            };
            assert(pe =~= e);
            assert(rem.skip(24 + e.data.len() as int) =~= rest);
        }
        lemma_parse_entries_round_trip(version, esize, acc2, s.drop_first());
        assert(spec_parse_entries(rem, version, esize, acc) == spec_parse_entries(
            rest,
            version,
            esize,
            acc2,
        ));
    }
}

/// Round trip: a written store, re-read under the same version, reproduces
/// the header fields and every record, hash, payload and order included.
pub proof fn lemma_write_read_round_trip(h: SpecHeader, s: Seq<SpecEntry>)
    requires
        spec_file_wf(h, s),
    ensures
        spec_parse(spec_cache_bytes(h, s)) == Ok::<(SpecHeader, Seq<SpecEntry>), (
            ErrorKind,
            Seq<char>,
        )>((h, s)),
{
    let b = spec_cache_bytes(h, s);
    let hb = spec_header_bytes(h);
    assert(h.magic.len() == 4);
    assert(hb.len() == 12);
    assert(b.len() >= 12);
    assert(b.take(4) =~= h.magic);
    assert(b.subrange(4, 8) =~= u32_le_bytes(h.version));
    assert(b.subrange(8, 12) =~= u32_le_bytes(h.entry_size));
    lemma_u32_le_round_trip(h.version);
    lemma_u32_le_round_trip(h.entry_size);
    assert(b.skip(12) =~= spec_entries_bytes(s));
    assert(Seq::<SpecEntry>::empty() + s =~= s);
    lemma_parse_entries_round_trip(h.version, h.entry_size, Seq::empty(), s);
    let hp = SpecHeader {
        magic: b.take(4),
        version: u32_of_le(b.subrange(4, 8)),
        entry_size: u32_of_le(b.subrange(8, 12)),
    };
    assert(hp =~= h);
}

/// Every record a clean parse keeps has passed the integrity check, fits
/// the layout the stream's version declares, and carries a hash no other
/// kept record has.
proof fn lemma_parse_entries_wf(rem: Seq<u8>, version: u32, esize: u32, acc: Seq<SpecEntry>)
    requires
        spec_parse_entries(rem, version, esize, acc) is Ok,
        unique_hashes(acc),
        forall|i: int| 0 <= i < acc.len() ==> spec_entry_valid(#[trigger] acc[i]),
        forall|i: int| 0 <= i < acc.len() ==> spec_entry_fits(version, esize, #[trigger] acc[i]),
    ensures
        ({
            let s = spec_parse_entries(rem, version, esize, acc)->Ok_0;
            &&& unique_hashes(s)
            &&& forall|i: int| 0 <= i < s.len() ==> spec_entry_valid(#[trigger] s[i])
            &&& forall|i: int| 0 <= i < s.len() ==> spec_entry_fits(version, esize, #[trigger] s[i])
        }),
    decreases rem.len(),
{
    if rem.len() == 0 {
    } else if spec_is_legacy(version) {
        let e = SpecEntry {
            header: None,
            hash: rem.subrange(esize - 20, esize as int),
            data: rem.subrange(0, esize - 20),
        };
        let acc2 = if spec_entry_valid(e) {
            store_push(acc, e)
        } else {
            acc
        };
        if spec_entry_valid(e) {
            assert(spec_entry_fits(version, esize, e));
            lemma_push_keeps_wf(acc, e, version, esize);
        }
        lemma_parse_entries_wf(rem.skip(esize as int), version, esize, acc2);
    } else {
        let size = u24_of_le(rem.subrange(1, 4)) as int;
        let e = SpecEntry {
            header: Some((rem[0], rem.subrange(1, 4))),
            hash: rem.subrange(4, 24),
            data: rem.subrange(24, 24 + size),
        };
        let acc2 = if spec_entry_valid(e) {
            store_push(acc, e)
        } else {
            acc
        };
        if spec_entry_valid(e) {
            assert(spec_entry_fits(version, esize, e));
            lemma_push_keeps_wf(acc, e, version, esize);
        }
        lemma_parse_entries_wf(rem.skip(24 + size), version, esize, acc2);
    }
}

/// Inserting a valid, fitting record keeps a store valid, fitting and
/// unique throughout.
proof fn lemma_push_keeps_wf(acc: Seq<SpecEntry>, e: SpecEntry, version: u32, esize: u32)
    requires
        unique_hashes(acc),
        forall|i: int| 0 <= i < acc.len() ==> spec_entry_valid(#[trigger] acc[i]),
        forall|i: int| 0 <= i < acc.len() ==> spec_entry_fits(version, esize, #[trigger] acc[i]),
        spec_entry_valid(e),
        spec_entry_fits(version, esize, e),
    ensures
        unique_hashes(store_push(acc, e)),
        forall|i: int| 0 <= i < store_push(acc, e).len() ==> spec_entry_valid(
            #[trigger] store_push(acc, e)[i],
        ),
        forall|i: int| 0 <= i < store_push(acc, e).len() ==> spec_entry_fits(
            version,
            esize,
            #[trigger] store_push(acc, e)[i],
        ),
{
    super::store::lemma_store_push_facts(acc, e);
    let u = store_push(acc, e);
    assert forall|i: int| 0 <= i < u.len() implies spec_entry_valid(#[trigger] u[i])
        && spec_entry_fits(version, esize, u[i]) by {
        if hash_in(acc, e.hash) {
            let idx = super::store::hash_index(acc, e.hash);
            assert(u == acc.update(idx, e));
            if i != idx {
                assert(u[i] == acc[i]);
            }
        } else {
            assert(u == acc.push(e));
            if i < acc.len() {
                assert(u[i] == acc[i]);
            }
        }
    }
}

/// A file image that parses cleanly parses to a store the writer can emit
/// unchanged: the header passed its checks and every kept record is valid,
/// fits the layout, and owns its hash alone.
pub proof fn lemma_parse_result_file_wf(b: Seq<u8>)
    requires
        spec_parse(b) is Ok,
    ensures
        spec_file_wf((spec_parse(b)->Ok_0).0, (spec_parse(b)->Ok_0).1),
{
    let h = (spec_parse(b)->Ok_0).0;
    lemma_parse_entries_wf(b.skip(12), h.version, h.entry_size, Seq::empty());
}

/// Parse, write, parse is parse: a store read from a file image and
/// written back yields an image that reads to the very same store.
pub proof fn lemma_read_write_read(b: Seq<u8>)
    requires
        spec_parse(b) is Ok,
    ensures
        spec_parse(spec_cache_bytes((spec_parse(b)->Ok_0).0, (spec_parse(b)->Ok_0).1))
            == spec_parse(b),
{
    lemma_parse_result_file_wf(b);
    lemma_write_read_round_trip((spec_parse(b)->Ok_0).0, (spec_parse(b)->Ok_0).1);
}

} // verus!
