//! One whole run of the merger over in-memory file images: parse each
//! input, hold every file to the first file's detected version, migrate to
//! the target version, merge newest-wins, and refuse a run that yields no
//! valid entry at all.

use vstd::prelude::*;

use super::entry::SpecEntry;
use super::error::{Error, ErrorKind};
use super::format::{spec_parse, SpecHeader};
use super::migrate::spec_migrate;
use super::store::{
    magic_bytes, msg_version_mismatch, spec_magic, spec_merge, DxvkStateCache,
    DxvkStateCacheHeader,
};

verus! {

/// The message a run without a single valid entry carries.
pub open spec fn msg_no_entries() -> Seq<char> {
    "No valid state cache entries found"@
}

/// One file folded into the run, after the first: parse, hold the detected
/// version to `v0`, migrate to `t`, merge; the count of records the file
/// added rides along.
pub open spec fn spec_merge_loop(
    inputs: Seq<Seq<u8>>,
    v0: u32,
    t: u32,
    acc: Seq<SpecEntry>,
    counts: Seq<int>,
) -> Result<(Seq<SpecEntry>, Seq<int>), (ErrorKind, Seq<char>)>
    decreases inputs.len(),
{
    if inputs.len() == 0 {
        Ok((acc, counts))
    } else {
        match spec_parse(inputs[0]) {
            Err(em) => Err(em),
            Ok(hs) => {
                if hs.0.version != v0 {
                    Err((ErrorKind::InvalidInput, msg_version_mismatch()))
                } else {
                    match spec_migrate(hs.1, hs.0.version, t) {
                        Err(em) => Err(em),
                        Ok(migrated) => {
                            let merged = spec_merge(acc, migrated);
                            spec_merge_loop(
                                inputs.drop_first(),
                                v0,
                                t,
                                merged,
                                counts.push(merged.len() - acc.len()),
                            )
                        },
                    }
                }
            },
        }
    }
}

/// A whole run: the first file's detected version becomes canonical, a
/// target of zero keeps it, and a run whose merged store holds no valid
/// entry fails without producing anything.  The run's header takes the
/// magic tag, the target version, and the first file's advisory entry size.
pub open spec fn spec_merge_all(inputs: Seq<Seq<u8>>, target: u32) -> Result<
    (SpecHeader, Seq<SpecEntry>, Seq<int>),
    (ErrorKind, Seq<char>),
> {
    if inputs.len() == 0 {
        Err((ErrorKind::InvalidData, msg_no_entries()))
    } else {
        match spec_parse(inputs[0]) {
            Err(em) => Err(em),
            Ok(hs) => {
                let t = if target == 0 {
                    hs.0.version
                } else {
                    target
                };
                match spec_merge_loop(inputs, hs.0.version, t, Seq::empty(), Seq::empty()) {
                    Err(em) => Err(em),
                    Ok(sc) => {
                        if sc.0.len() == 0 {
                            Err((ErrorKind::InvalidData, msg_no_entries()))
                        } else {
                            Ok(
                                (
                                    SpecHeader {
                                        magic: spec_magic(),
                                        version: t,
                                        entry_size: hs.0.entry_size,
                                    },
                                    sc.0,
                                    sc.1,
                                ),
                            )
                        }
                    },
                }
            },
        }
    }
}

/// Runs the merger over file images: every input must carry the version the
/// first input declares; each parsed store is migrated to the target
/// version (zero keeps the detected one) and merged in order, the newest
/// record winning per hash.  Returns the merged store and, per input, how
/// many records it added; fails with `InvalidData` when nothing valid
/// remains, writing nothing.
pub fn merge_all(inputs: &Vec<Vec<u8>>, target: u32) -> (r: Result<
    (DxvkStateCache, Vec<usize>),
    Error,
>)
    ensures
        match (r, spec_merge_all(inputs.deep_view(), target)) {
            (Ok(p), Ok(sp)) => {
                &&& p.0.header@ == sp.0
                &&& p.0.wf()
                &&& p.0.model() == sp.1
                &&& p.1@.map_values(|c: usize| c as int) == sp.2
            },
            (Err(e), Err(km)) => e.spec_kind() == km.0 && e.spec_message() == km.1,
            _ => false,
        },
{
    let ghost sinputs = inputs.deep_view();
    if inputs.len() == 0 {
        return Err(Error::new(ErrorKind::InvalidData, "No valid state cache entries found"));
    }
    proof {
        assert(sinputs[0] =~= inputs@[0]@);
    }
    let probe = match DxvkStateCache::from_bytes(&inputs[0]) {
        Ok(c) => c,
        Err(e) => {
            return Err(e);
        },
    };
    let v0 = probe.header.version;
    let esize0 = probe.header.entry_size;
    let t = if target == 0 {
        v0
    } else {
        target
    };
    let mut acc = DxvkStateCache::new();
    acc.header = DxvkStateCacheHeader { magic: magic_bytes(), version: t, entry_size: esize0 };
    let mut counts: Vec<usize> = Vec::new();
    let ghost sh_out = SpecHeader { magic: spec_magic(), version: t, entry_size: esize0 };
    proof {
        assert(acc.header@ =~= sh_out);
        assert(acc.model() =~= Seq::<SpecEntry>::empty());
        assert(counts@.map_values(|c: usize| c as int) =~= Seq::<int>::empty());
        assert(sinputs.skip(0) =~= sinputs);
    }
    let mut i: usize = 0;
    while i < inputs.len()
        invariant
            i <= inputs.len(),
            sinputs == inputs.deep_view(),
            sinputs.len() == inputs.len(),
            acc.wf(),
            acc.header@ == sh_out,
            sh_out == (SpecHeader { magic: spec_magic(), version: t, entry_size: esize0 }),
            spec_merge_loop(
                sinputs.skip(i as int),
                v0,
                t,
                acc.model(),
                counts@.map_values(|c: usize| c as int),
            ) == spec_merge_loop(sinputs, v0, t, Seq::empty(), Seq::empty()),
            (match spec_merge_loop(sinputs, v0, t, Seq::empty(), Seq::empty()) {
                Ok(sc) => spec_merge_all(sinputs, target) == (if sc.0.len() == 0 {
                    Err::<(SpecHeader, Seq<SpecEntry>, Seq<int>), (ErrorKind, Seq<char>)>(
                        (ErrorKind::InvalidData, msg_no_entries()),
                    )
                } else {
                    Ok::<(SpecHeader, Seq<SpecEntry>, Seq<int>), (ErrorKind, Seq<char>)>(
                        (sh_out, sc.0, sc.1),
                    )
                }),
                Err(em) => spec_merge_all(sinputs, target) == Err::<
                    (SpecHeader, Seq<SpecEntry>, Seq<int>),
                    (ErrorKind, Seq<char>),
                >(em),
            }),
        decreases inputs.len() - i,
    {
        let ghost rem0 = sinputs.skip(i as int);
        let ghost accm0 = acc.model();
        let ghost counts0 = counts@.map_values(|c: usize| c as int);
        proof {
            assert(rem0[0] =~= inputs@[i as int]@);
            assert(rem0.drop_first() =~= sinputs.skip(i + 1));
        }
        let file = match DxvkStateCache::from_bytes(&inputs[i]) {
            Ok(c) => c,
            Err(e) => {
                proof {
                    assert(spec_merge_loop(rem0, v0, t, accm0, counts0) is Err);
                }
                return Err(e);
            },
        };
        if file.header.version != v0 {
            return Err(Error::new(ErrorKind::InvalidInput, "State cache version mismatch"));
        }
        let migrated = match file.migrate(t) {
            Ok(m) => m,
            Err(e) => {
                return Err(e);
            },
        };
        let before = acc.len();
        let n = match acc.extend(migrated) {
            Ok(n) => n,
            Err(e) => {
                proof {
                    assert(false);
                }
                return Err(e);
            },
        };
        counts.push(n);
        proof {
            assert(counts@.map_values(|c: usize| c as int) =~= counts0.push(n as int));
        }
        i = i + 1;
    }
    proof {
        assert(sinputs.skip(i as int).len() == 0);
        assert(spec_merge_loop(sinputs.skip(i as int), v0, t, acc.model(), counts@.map_values(|c: usize| c as int))
            == Ok::<(Seq<SpecEntry>, Seq<int>), (ErrorKind, Seq<char>)>(
            (acc.model(), counts@.map_values(|c: usize| c as int)),
        ));
    }
    if acc.is_empty() {
        return Err(Error::new(ErrorKind::InvalidData, "No valid state cache entries found"));
    }
    Ok((acc, counts))
}

} // verus!
