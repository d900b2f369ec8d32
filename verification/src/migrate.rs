//! The version migrator: fixed-offset byte edits that walk an entry's
//! payload between adjacent format versions, one step at a time, with the
//! hash recomputed from the rewritten payload.

use vstd::prelude::*;

use super::entry::{spec_entry_digest, DxvkStateCacheEntry, SpecEntry};
use super::error::{Error, ErrorKind};
use super::store::{store_push, DxvkStateCache, DxvkStateCacheHeader};

verus! {

/// Payload offset of the depth-clip-enable flag, whose sense changed
/// between versions two and three.
pub const OFFSET_DEPTH_CLIP: usize = 1204;

/// Payload offset of the depth-bias-enable flag.
pub const OFFSET_DEPTH_BIAS: usize = 1208;

/// Payload offset of the alpha-compare-op field, whose default changed
/// between versions three and four.
pub const OFFSET_ALPHA_COMPARE: usize = 1244;

/// The message corrupted payload bytes carry.
pub open spec fn msg_corrupt() -> Seq<char> {
    "State cache entry data corruption"@
}

/// The message an unsupported migration step carries.
pub open spec fn msg_unsupported_step() -> Seq<char> {
    "Unsupported state cache version conversion"@
}

/// Writes `v` at offset `i` when the payload reaches it; a shorter payload
/// is left alone.
pub open spec fn set_byte(d: Seq<u8>, i: int, v: u8) -> Seq<u8> {
    if i < d.len() {
        d.update(i, v)
    } else {
        d
    }
}

/// A boolean flag byte, inverted.
pub open spec fn flip01(b: u8) -> u8 {
    if b == 0 {
        1u8
    } else {
        0u8
    }
}

/// Inverts the flag byte at offset `i` when the payload reaches it.
pub open spec fn flip_byte(d: Seq<u8>, i: int) -> Seq<u8> {
    if i < d.len() {
        d.update(i, flip01(d[i]))
    } else {
        d
    }
}

/// The byte at offset `i` holds 0 or 1, if the payload reaches it.
pub open spec fn flag_ok(d: Seq<u8>, i: int) -> bool {
    i < d.len() ==> (d[i] == 0 || d[i] == 1)
}

/// The byte at offset `i` holds `v`, if the payload reaches it.
pub open spec fn byte_is(d: Seq<u8>, i: int, v: u8) -> bool {
    i < d.len() ==> d[i] == v
}

/// One upward migration step, from version `from` to `from + 1`: the fixed
/// byte edits, or the error when a touched byte does not hold what the
/// source version requires, or when the ladder has no such step.
pub open spec fn spec_step_up(from: u32, d: Seq<u8>) -> Result<Seq<u8>, (ErrorKind, Seq<char>)> {
    if from == 2 {
        if flag_ok(d, OFFSET_DEPTH_CLIP as int) && flag_ok(d, OFFSET_DEPTH_BIAS as int) {
            Ok(set_byte(flip_byte(d, OFFSET_DEPTH_CLIP as int), OFFSET_DEPTH_BIAS as int, 0))
        } else {
            Err((ErrorKind::InvalidData, msg_corrupt()))
        }
    } else if from == 3 {
        if byte_is(d, OFFSET_ALPHA_COMPARE as int, 0) {
            Ok(set_byte(d, OFFSET_ALPHA_COMPARE as int, 7))
        } else {
            Err((ErrorKind::InvalidData, msg_corrupt()))
        }
    } else {
        Err((ErrorKind::InvalidInput, msg_unsupported_step()))
    }
}

/// One downward migration step, from version `from` to `from - 1`.  The
/// step back from version three is lossy: when the inverted depth-clip flag
/// comes out set, the depth-bias flag is forced on, whatever it held.
pub open spec fn spec_step_down(from: u32, d: Seq<u8>) -> Result<Seq<u8>, (ErrorKind, Seq<char>)> {
    if from == 3 {
        if flag_ok(d, OFFSET_DEPTH_CLIP as int) {
            if OFFSET_DEPTH_CLIP < d.len() && flip01(d[OFFSET_DEPTH_CLIP as int]) == 1 {
                if flag_ok(d, OFFSET_DEPTH_BIAS as int) {
                    Ok(
                        set_byte(
                            flip_byte(d, OFFSET_DEPTH_CLIP as int),
                            OFFSET_DEPTH_BIAS as int,
                            1,
                        ),
                    )
                } else {
                    Err((ErrorKind::InvalidData, msg_corrupt()))
                }
            } else {
                Ok(flip_byte(d, OFFSET_DEPTH_CLIP as int))
            }
        } else {
            Err((ErrorKind::InvalidData, msg_corrupt()))
        }
    } else if from == 4 {
        if byte_is(d, OFFSET_ALPHA_COMPARE as int, 7) {
            Ok(set_byte(d, OFFSET_ALPHA_COMPARE as int, 0))
        } else {
            Err((ErrorKind::InvalidData, msg_corrupt()))
        }
    } else {
        Err((ErrorKind::InvalidInput, msg_unsupported_step()))
    }
}

/// Walking a payload along the version ladder, one adjacent step at a time,
/// until the target version is reached.
pub open spec fn spec_convert(d: Seq<u8>, from: u32, to: u32) -> Result<
    Seq<u8>,
    (ErrorKind, Seq<char>),
>
    decreases (if from < to { to - from } else { from - to }),
{
    if from == to {
        Ok(d)
    } else if from < to {
        match spec_step_up(from, d) {
            Ok(d2) => spec_convert(d2, (from + 1) as u32, to),
            Err(em) => Err(em),
        }
    } else {
        match spec_step_down(from, d) {
            Ok(d2) => spec_convert(d2, (from - 1) as u32, to),
            Err(em) => Err(em),
        }
    }
}

/// Reads the flag byte at `i`, failing on anything but 0 or 1 within reach.
fn check_flag(data: &Vec<u8>, i: usize) -> (r: Result<(), Error>)
    ensures
        match r {
            Ok(()) => flag_ok(data@, i as int),
            Err(e) => !flag_ok(data@, i as int) && e.spec_kind() == ErrorKind::InvalidData
                && e.spec_message() == msg_corrupt(),
        },
{
    if i < data.len() && data[i] > 1 {
        return Err(Error::new(ErrorKind::InvalidData, "State cache entry data corruption"));
    }
    Ok(())
}

/// Writes `v` at offset `i` when the payload reaches it.
fn put_byte(data: &mut Vec<u8>, i: usize, v: u8)
    ensures
        final(data)@ == set_byte(old(data)@, i as int, v),
{
    if i < data.len() {
        data.set(i, v);
    }
}

/// One upward step applied in place.
fn apply_step_up(from: u32, data: &mut Vec<u8>) -> (r: Result<(), Error>)
    ensures
        match (r, spec_step_up(from, old(data)@)) {
            (Ok(()), Ok(d2)) => final(data)@ == d2,
            (Err(e), Err(km)) => final(data)@ == old(data)@ && e.spec_kind() == km.0
                && e.spec_message() == km.1,
            _ => false,
        },
{
    if from == 2 {
        if let Err(e) = check_flag(data, OFFSET_DEPTH_CLIP) {
            return Err(e);
        }
        if let Err(e) = check_flag(data, OFFSET_DEPTH_BIAS) {
            return Err(e);
        }
        if OFFSET_DEPTH_CLIP < data.len() {
            let b = data[OFFSET_DEPTH_CLIP];
            let nb: u8 = if b == 0 {
                1
            } else {
                0
            };
            data.set(OFFSET_DEPTH_CLIP, nb);
        }
        put_byte(data, OFFSET_DEPTH_BIAS, 0);
        Ok(())
    } else if from == 3 {
        if OFFSET_ALPHA_COMPARE < data.len() && data[OFFSET_ALPHA_COMPARE] != 0 {
            return Err(Error::new(ErrorKind::InvalidData, "State cache entry data corruption"));
        }
        put_byte(data, OFFSET_ALPHA_COMPARE, 7);
        Ok(())
    } else {
        Err(Error::new(ErrorKind::InvalidInput, "Unsupported state cache version conversion"))
    }
}

/// One downward step applied in place.
fn apply_step_down(from: u32, data: &mut Vec<u8>) -> (r: Result<(), Error>)
    ensures
        match (r, spec_step_down(from, old(data)@)) {
            (Ok(()), Ok(d2)) => final(data)@ == d2,
            (Err(e), Err(km)) => final(data)@ == old(data)@ && e.spec_kind() == km.0
                && e.spec_message() == km.1,
            _ => false,
        },
{
    if from == 3 {
        if let Err(e) = check_flag(data, OFFSET_DEPTH_CLIP) {
            return Err(e);
        }
        if OFFSET_DEPTH_CLIP < data.len() {
            let b = data[OFFSET_DEPTH_CLIP];
            let nb: u8 = if b == 0 {
                1
            } else {
                0
            };
            if nb == 1 {
                if let Err(e) = check_flag(data, OFFSET_DEPTH_BIAS) {
                    return Err(e);
                }
                data.set(OFFSET_DEPTH_CLIP, nb);
                put_byte(data, OFFSET_DEPTH_BIAS, 1);
                return Ok(());
            }
            data.set(OFFSET_DEPTH_CLIP, nb);
        }
        Ok(())
    } else if from == 4 {
        if OFFSET_ALPHA_COMPARE < data.len() && data[OFFSET_ALPHA_COMPARE] != 7 {
            return Err(Error::new(ErrorKind::InvalidData, "State cache entry data corruption"));
        }
        put_byte(data, OFFSET_ALPHA_COMPARE, 0);
        Ok(())
    } else {
        Err(Error::new(ErrorKind::InvalidInput, "Unsupported state cache version conversion"))
    }
}

/// Walks an entry's payload from `from_version` to `to_version`, one
/// adjacent step at a time, and recomputes its hash from the rewritten
/// payload.  Migrating a version to itself changes nothing.  On failure the
/// entry is left as it was.
pub fn convert(entry: &mut DxvkStateCacheEntry, from_version: u32, to_version: u32) -> (r: Result<
    (),
    Error,
>)
    ensures
        match (r, spec_convert(old(entry)@.data, from_version, to_version)) {
            (Ok(()), Ok(d2)) => {
                if from_version == to_version {
                    *final(entry) == *old(entry)
                } else {
                    &&& final(entry)@.header == old(entry)@.header
                    &&& final(entry)@.data == d2
                    &&& final(entry)@.hash == spec_entry_digest(final(entry)@)
                }
            },
            (Err(e), Err(km)) => *final(entry) == *old(entry) && e.spec_kind() == km.0
                && e.spec_message() == km.1,
            _ => false,
        },
{
    if from_version == to_version {
        return Ok(());
    }
    let ghost d0 = entry.data@;
    let mut work: Vec<u8> = Vec::new();
    work.extend_from_slice(entry.data.as_slice());
    proof {
        assert(work@ =~= d0);
    }
    let mut v = from_version;
    loop
        invariant
            *entry == *old(entry),
            d0 == old(entry)@.data,
            spec_convert(work@, v, to_version) == spec_convert(d0, from_version, to_version),
        ensures
            v == to_version,
            spec_convert(d0, from_version, to_version) == Ok::<Seq<u8>, (ErrorKind, Seq<char>)>(
                work@,
            ),
        decreases (if v < to_version {
            to_version - v
        } else {
            v - to_version
        }),
    {
        if v == to_version {
            break ;
        }
        if v < to_version {
            let ghost w0 = work@;
            if let Err(e) = apply_step_up(v, &mut work) {
                proof {
                    assert(spec_step_up(v, w0) is Err);
                    assert(spec_convert(w0, v, to_version) == Err::<Seq<u8>, (ErrorKind, Seq<
                        char,
                    >)>(spec_step_up(v, w0)->Err_0));
                }
                return Err(e);
            }
            v = v + 1;
        } else {
            let ghost w0 = work@;
            if let Err(e) = apply_step_down(v, &mut work) {
                proof {
                    assert(spec_step_down(v, w0) is Err);
                    assert(spec_convert(w0, v, to_version) == Err::<Seq<u8>, (ErrorKind, Seq<
                        char,
                    >)>(spec_step_down(v, w0)->Err_0));
                }
                return Err(e);
            }
            v = v - 1;
        }
    }
    entry.data = work;
    entry.refresh_hash();
    Ok(())
}

impl DxvkStateCache {
    /// Rewrites every record's payload from this store's version to
    /// `target`, recomputing each hash and re-deduplicating by the new
    /// hashes; the header keeps its magic and advisory entry size and takes
    /// the target version.  Migrating a store to its own version returns it
    /// unchanged.
    pub fn migrate(self, target: u32) -> (r: Result<DxvkStateCache, Error>)
        requires
            self.wf(),
        ensures
            match (r, spec_migrate(self.model(), self.header@.version, target)) {
                (Ok(c), Ok(s)) => {
                    &&& c.wf()
                    &&& c.model() == s
                    &&& c.header@.magic == self.header@.magic
                    &&& c.header@.version == target
                    &&& c.header@.entry_size == self.header@.entry_size
                },
                (Err(e), Err(km)) => e.spec_kind() == km.0 && e.spec_message() == km.1,
                _ => false,
            },
    {
        if self.header.version == target {
            return Ok(self);
        }
        let from = self.header.version;
        let mut acc = DxvkStateCache::new();
        acc.header = DxvkStateCacheHeader {
            magic: self.header.magic,
            version: target,
            entry_size: self.header.entry_size,
        };
        let mut rest = self.entries;
        let ghost b0 = super::store::pair_entries(super::store::store_model(rest));
        proof {
            assert(acc.model() =~= Seq::<SpecEntry>::empty());
        }
        loop
            invariant
                acc.wf(),
                acc.header@.magic == self.header@.magic,
                acc.header@.version == target,
                acc.header@.entry_size == self.header@.entry_size,
                from == self.header@.version,
                from != target,
                super::store::pairs_wf(super::store::store_model(rest)),
                spec_migrate_loop(
                    super::store::pair_entries(super::store::store_model(rest)),
                    from,
                    target,
                    acc.model(),
                ) == spec_migrate_loop(b0, from, target, Seq::empty()),
                spec_migrate(self.model(), self.header@.version, target) == spec_migrate_loop(
                    b0,
                    from,
                    target,
                    Seq::empty(),
                ),
            ensures
                acc.wf(),
                acc.header@.magic == self.header@.magic,
                acc.header@.version == target,
                acc.header@.entry_size == self.header@.entry_size,
                spec_migrate_loop(b0, from, target, Seq::empty()) == Ok::<
                    Seq<SpecEntry>,
                    (ErrorKind, Seq<char>),
                >(acc.model()),
            decreases super::store::store_model(rest).len(),
        {
            let ghost restp0 = super::store::store_model(rest);
            let ghost restm0 = super::store::pair_entries(restp0);
            let ghost accm0 = acc.model();
            match super::store::lhm_pop_front(&mut rest) {
                Some(p) => {
                    let (_, mut e) = p;
                    proof {
                        assert(restm0[0] == restp0[0].1@);
                        assert(e@ == restm0[0]);
                        assert(super::store::pair_entries(super::store::store_model(rest))
                            =~= restm0.drop_first());
                        super::store::lemma_pairs_wf_drop_first(restp0);
                    }
                    let ghost e0 = e@;
                    match convert(&mut e, from, target) {
                        Ok(()) => {
                            proof {
                                assert(e@ =~= spec_rehashed(
                                    e0.header,
                                    (spec_convert(e0.data, from, target))->Ok_0,
                                ));
                            }
                            acc.insert_entry(e);
                            proof {
                                assert(acc.model() == store_push(
                                    accm0,
                                    spec_rehashed(
                                        e0.header,
                                        (spec_convert(e0.data, from, target))->Ok_0,
                                    ),
                                ));
                            }
                        },
                        Err(e2) => {
                            proof {
                                assert(spec_convert(e0.data, from, target) is Err);
                                assert(spec_migrate_loop(restm0, from, target, accm0) == Err::<
                                    Seq<SpecEntry>,
                                    (ErrorKind, Seq<char>),
                                >(spec_convert(e0.data, from, target)->Err_0));
                            }
                            return Err(e2);
                        },
                    }
                },
                None => {
                    proof {
                        assert(restm0.len() == 0);
                    }
                    break ;
                },
            }
        }
        Ok(acc)
    }
}

/// A record rewritten by migration: same header, migrated payload, hash
/// recomputed from the migrated payload.
pub open spec fn spec_rehashed(header: Option<(u8, Seq<u8>)>, data: Seq<u8>) -> SpecEntry {
    SpecEntry {
        header,
        data,
        hash: spec_entry_digest(SpecEntry { header, data, hash: Seq::empty() }),
    }
}

/// Migrating a record sequence, oldest first, deduplicating the rewritten
/// records by their new hashes into `acc`.
pub open spec fn spec_migrate_loop(
    s: Seq<SpecEntry>,
    from: u32,
    to: u32,
    acc: Seq<SpecEntry>,
) -> Result<Seq<SpecEntry>, (ErrorKind, Seq<char>)>
    decreases s.len(),
{
    if s.len() == 0 {
        Ok(acc)
    } else {
        match spec_convert(s[0].data, from, to) {
            Ok(d2) => spec_migrate_loop(
                s.drop_first(),
                from,
                to,
                store_push(acc, spec_rehashed(s[0].header, d2)),
            ),
            Err(em) => Err(em),
        }
    }
}

/// Migrating a store's records from `from` to `to`; a store already at the
/// target version is left untouched, hashes included.
pub open spec fn spec_migrate(s: Seq<SpecEntry>, from: u32, to: u32) -> Result<
    Seq<SpecEntry>,
    (ErrorKind, Seq<char>),
> {
    if from == to {
        Ok(s)
    } else {
        spec_migrate_loop(s, from, to, Seq::empty())
    }
}

/// Migrating a payload from a version to itself is a no-op.
pub proof fn lemma_convert_identity(d: Seq<u8>, v: u32)
    ensures
        spec_convert(d, v, v) == Ok::<Seq<u8>, (ErrorKind, Seq<char>)>(d),
{
}

/// Walking a payload up from version two and straight back down: every
/// byte returns to its old value except the depth-bias flag, which comes
/// back holding whatever the depth-clip flag held.
pub proof fn lemma_round_trip_v2_v3(d: Seq<u8>)
    requires
        flag_ok(d, OFFSET_DEPTH_CLIP as int),
        flag_ok(d, OFFSET_DEPTH_BIAS as int),
    ensures
        spec_convert(d, 2, 3) is Ok,
        spec_convert(spec_convert(d, 2, 3)->Ok_0, 3, 2) is Ok,
        ({
            let back = spec_convert(spec_convert(d, 2, 3)->Ok_0, 3, 2)->Ok_0;
            &&& back.len() == d.len()
            &&& forall|i: int| 0 <= i < d.len() && i != OFFSET_DEPTH_BIAS ==> back[i] == d[i]
            &&& ((OFFSET_DEPTH_BIAS as int) < d.len() ==> back[OFFSET_DEPTH_BIAS as int]
                == d[OFFSET_DEPTH_CLIP as int])
        }),
{
    let clip = OFFSET_DEPTH_CLIP as int;
    let bias = OFFSET_DEPTH_BIAS as int;
    let up = spec_step_up(2, d)->Ok_0;
    assert(spec_convert(up, 3, 3) == Ok::<Seq<u8>, (ErrorKind, Seq<char>)>(up));
    assert(spec_convert(d, 2, 3) == Ok::<Seq<u8>, (ErrorKind, Seq<char>)>(up));
    assert(up == set_byte(flip_byte(d, clip), bias, 0));
    assert(up.len() == d.len());
    assert(flag_ok(up, clip));
    assert(flag_ok(up, bias));
    assert(spec_step_down(3, up) is Ok);
    let back = spec_step_down(3, up)->Ok_0;
    assert(spec_convert(back, 2, 2) == Ok::<Seq<u8>, (ErrorKind, Seq<char>)>(back));
    assert(spec_convert(up, 3, 2) == Ok::<Seq<u8>, (ErrorKind, Seq<char>)>(back));
    if clip < d.len() {
        let x = d[clip];
        assert(up[clip] == flip01(x));
        assert(flip01(up[clip]) == x);
        if x == 1 {
            assert(back == set_byte(flip_byte(up, clip), bias, 1));
        } else {
            assert(back == flip_byte(up, clip));
        }
        assert(back.len() == d.len());
        assert forall|i: int| 0 <= i < d.len() && i != bias implies back[i] == d[i] by {
            if i == clip {
                assert(back[clip] == x);
            }
        }
        if bias < d.len() {
            assert(back[bias] == x);
        }
    } else {
        assert(up == d);
        assert(back == d);
    }
}

/// The documented lossy case, exactly: the up-and-back walk from version
/// two reproduces the payload iff the depth-clip and depth-bias flags
/// agreed beforehand (payloads too short to hold both always survive).
pub proof fn lemma_round_trip_v2_v3_lossy(d: Seq<u8>)
    requires
        flag_ok(d, OFFSET_DEPTH_CLIP as int),
        flag_ok(d, OFFSET_DEPTH_BIAS as int),
    ensures
        spec_convert(d, 2, 3) is Ok,
        spec_convert(spec_convert(d, 2, 3)->Ok_0, 3, 2) is Ok,
        (spec_convert(spec_convert(d, 2, 3)->Ok_0, 3, 2)->Ok_0 == d) <==> (
        (OFFSET_DEPTH_BIAS as int) < d.len() ==> d[OFFSET_DEPTH_BIAS as int]
            == d[OFFSET_DEPTH_CLIP as int]),
{
    let bias = OFFSET_DEPTH_BIAS as int;
    let clip = OFFSET_DEPTH_CLIP as int;
    lemma_round_trip_v2_v3(d);
    let back = spec_convert(spec_convert(d, 2, 3)->Ok_0, 3, 2)->Ok_0;
    if bias < d.len() {
        if d[bias] == d[clip] {
            assert(back =~= d);
        } else {
            assert(back[bias] == d[clip]);
            assert(back[bias] != d[bias]);
        }
    } else {
        assert(back =~= d);
    }
}

/// Walking a payload up from version three and straight back down is the
/// identity: the alpha-compare byte goes from zero to seven and back.
pub proof fn lemma_round_trip_v3_v4(d: Seq<u8>)
    requires
        byte_is(d, OFFSET_ALPHA_COMPARE as int, 0),
    ensures
        spec_convert(d, 3, 4) is Ok,
        spec_convert(spec_convert(d, 3, 4)->Ok_0, 4, 3) == Ok::<Seq<u8>, (ErrorKind, Seq<char>)>(
            d,
        ),
{
    let off = OFFSET_ALPHA_COMPARE as int;
    let up = spec_step_up(3, d)->Ok_0;
    assert(spec_convert(up, 4, 4) == Ok::<Seq<u8>, (ErrorKind, Seq<char>)>(up));
    assert(spec_convert(d, 3, 4) == Ok::<Seq<u8>, (ErrorKind, Seq<char>)>(up));
    assert(up == set_byte(d, off, 7));
    assert(byte_is(up, off, 7));
    let back = spec_step_down(4, up)->Ok_0;
    assert(spec_convert(back, 3, 3) == Ok::<Seq<u8>, (ErrorKind, Seq<char>)>(back));
    assert(spec_convert(up, 4, 3) == Ok::<Seq<u8>, (ErrorKind, Seq<char>)>(back));
    assert(back == set_byte(up, off, 0));
    if off < d.len() {
        assert(back =~= d);
    } else {
        assert(back == d);
    }
}

} // verus!
