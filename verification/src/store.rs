//! The cache store: a hash-keyed, insertion-ordered mapping from content
//! hash to entry.  The container itself comes from the `linked_hash_map`
//! crate and is reached through trusted wrappers; the deduplication and
//! merge rules on top of it are verified.

use vstd::prelude::*;

use linked_hash_map::LinkedHashMap;

use super::entry::{DxvkStateCacheEntry, SpecEntry, HASH_SIZE};
use super::error::{Error, ErrorKind};

verus! {

/// The insertion-ordered map type of the `linked_hash_map` crate, declared
/// so that values of it can stand in verified code; what a map holds is
/// named by `store_model`.
#[verifier::external_type_specification]
#[verifier::external_body]
#[verifier::reject_recursive_types(K)]
#[verifier::reject_recursive_types(V)]
#[verifier::reject_recursive_types(S)]
pub struct ExLinkedHashMap<K, V, S>(LinkedHashMap<K, V, S>);

/// What an entry store holds: its key-value pairs, oldest insertion first.
pub uninterp spec fn store_model(m: LinkedHashMap<[u8; HASH_SIZE], DxvkStateCacheEntry>) -> Seq<
    ([u8; HASH_SIZE], DxvkStateCacheEntry),
>;

/// Whether some stored pair uses the key `k`.
pub open spec fn has_pair_key(
    s: Seq<([u8; HASH_SIZE], DxvkStateCacheEntry)>,
    k: [u8; HASH_SIZE],
) -> bool {
    exists|i: int| 0 <= i < s.len() && s[i].0 == k
}

/// The records of a pair sequence, oldest first, as mathematical values.
pub open spec fn pair_entries(s: Seq<([u8; HASH_SIZE], DxvkStateCacheEntry)>) -> Seq<SpecEntry> {
    s.map_values(|p: ([u8; HASH_SIZE], DxvkStateCacheEntry)| p.1@)
}

/// A pair sequence is a well-formed store: every key is the hash of its own
/// record, and no two pairs share a key.
pub open spec fn pairs_wf(s: Seq<([u8; HASH_SIZE], DxvkStateCacheEntry)>) -> bool {
    &&& forall|i: int| 0 <= i < s.len() ==> (#[trigger] s[i]).0@ == s[i].1@.hash
    &&& forall|i: int, j: int| 0 <= i < j < s.len() ==> s[i].0 != s[j].0
}

/// Whether some record in `s` carries the hash `h`.
pub open spec fn hash_in(s: Seq<SpecEntry>, h: Seq<u8>) -> bool {
    exists|i: int| 0 <= i < s.len() && s[i].hash == h
}

/// The position of the record carrying `h`; meaningful when hashes are
/// unique and `h` occurs.
pub open spec fn hash_index(s: Seq<SpecEntry>, h: Seq<u8>) -> int {
    choose|i: int| 0 <= i < s.len() && s[i].hash == h
}

/// No two records share a hash.
pub open spec fn unique_hashes(s: Seq<SpecEntry>) -> bool {
    forall|i: int, j: int| 0 <= i < j < s.len() ==> s[i].hash != s[j].hash
}

/// Inserting one record into a store: a record with the same hash is
/// overwritten in place, keeping its position; a new hash is appended at the
/// newest end.
pub open spec fn store_push(s: Seq<SpecEntry>, e: SpecEntry) -> Seq<SpecEntry> {
    if hash_in(s, e.hash) {
        s.update(hash_index(s, e.hash), e)
    } else {
        s.push(e)
    }
}

/// Merging `b` into `a`, record by record, oldest of `b` first.
pub open spec fn spec_merge(a: Seq<SpecEntry>, b: Seq<SpecEntry>) -> Seq<SpecEntry>
    decreases b.len(),
{
    if b.len() == 0 {
        a
    } else {
        spec_merge(store_push(a, b[0]), b.drop_first())
    }
}

/// Relies on `LinkedHashMap::new`: the new map is empty.
#[verifier::external_body]
fn lhm_new() -> (m: LinkedHashMap<[u8; HASH_SIZE], DxvkStateCacheEntry>)
    ensures
        store_model(m) == Seq::<([u8; HASH_SIZE], DxvkStateCacheEntry)>::empty(),
{
    LinkedHashMap::new()
}

/// Relies on `LinkedHashMap::len`: the number of stored pairs.
#[verifier::external_body]
fn lhm_len(m: &LinkedHashMap<[u8; HASH_SIZE], DxvkStateCacheEntry>) -> (n: usize)
    ensures
        n == store_model(*m).len(),
{
    m.len()
}

/// Relies on `LinkedHashMap::contains_key`: whether a pair uses this key.
#[verifier::external_body]
fn lhm_contains_key(
    m: &LinkedHashMap<[u8; HASH_SIZE], DxvkStateCacheEntry>,
    k: &[u8; HASH_SIZE],
) -> (r: bool)
    ensures
        r == has_pair_key(store_model(*m), *k),
{
    m.contains_key(k)
}

/// Relies on `LinkedHashMap::insert`: a key that is not yet present is
/// attached at the newest end of the iteration order.
#[verifier::external_body]
fn lhm_insert_new(
    m: &mut LinkedHashMap<[u8; HASH_SIZE], DxvkStateCacheEntry>,
    k: [u8; HASH_SIZE],
    v: DxvkStateCacheEntry,
)
    requires
        !has_pair_key(store_model(*old(m)), k),
    ensures
        store_model(*final(m)) == store_model(*old(m)).push((k, v)),
{
    m.insert(k, v);
}

/// Relies on `LinkedHashMap::get_mut`: assigning through it replaces the
/// value stored for a key and leaves the iteration order untouched.
#[verifier::external_body]
fn lhm_overwrite(
    m: &mut LinkedHashMap<[u8; HASH_SIZE], DxvkStateCacheEntry>,
    k: &[u8; HASH_SIZE],
    v: DxvkStateCacheEntry,
)
    requires
        has_pair_key(store_model(*old(m)), *k),
    ensures
        exists|i: int|
            0 <= i < store_model(*old(m)).len() && (#[trigger] store_model(*old(m))[i]).0 == *k
                && store_model(*final(m)) == store_model(*old(m)).update(i, (*k, v)),
{
    if let Some(slot) = m.get_mut(k) {
        *slot = v;
    }
}

/// Relies on `LinkedHashMap::pop_front`: removes and returns the oldest
/// pair, or nothing from an empty map.
#[verifier::external_body]
pub(crate) fn lhm_pop_front(m: &mut LinkedHashMap<[u8; HASH_SIZE], DxvkStateCacheEntry>) -> (r: Option<
    ([u8; HASH_SIZE], DxvkStateCacheEntry),
>)
    ensures
        match r {
            Some(p) => store_model(*old(m)).len() > 0 && p == store_model(*old(m))[0]
                && store_model(*final(m)) == store_model(*old(m)).drop_first(),
            None => store_model(*old(m)).len() == 0 && store_model(*final(m)) == store_model(
                *old(m),
            ),
        },
{
    m.pop_front()
}

/// Relies on `LinkedHashMap::iter`: visits pairs oldest first; the wrapper
/// copies each value out into a vector, field by field.
#[verifier::external_body]
pub(crate) fn lhm_values(m: &LinkedHashMap<[u8; HASH_SIZE], DxvkStateCacheEntry>) -> (v: Vec<
    DxvkStateCacheEntry,
>)
    ensures
        v@.map_values(|e: DxvkStateCacheEntry| e@) == pair_entries(store_model(*m)),
{
    m.iter()
        .map(
            |(_, e)| DxvkStateCacheEntry { header: e.header, hash: e.hash, data: e.data.clone() },
        )
        .collect()
}

/// The file header: magic tag, format version, and the advisory entry size.
#[derive(Copy, Clone, Debug)]
pub struct DxvkStateCacheHeader {
    pub magic: [u8; 4],
    pub version: u32,
    pub entry_size: u32,
}

/// The four magic bytes every cache file starts with.
pub open spec fn spec_magic() -> Seq<u8> {
    seq![0x44u8, 0x58u8, 0x56u8, 0x4bu8]
}

/// The magic bytes as a value.
pub fn magic_bytes() -> (r: [u8; 4])
    ensures
        r@ == spec_magic(),
{
    let r: [u8; 4] = [0x44u8, 0x58u8, 0x56u8, 0x4bu8];
    proof {
        assert(r@ =~= spec_magic());
    }
    r
}

/// The deduplicating, insertion-ordered cache store.
#[derive(Debug)]
pub struct DxvkStateCache {
    pub header: DxvkStateCacheHeader,
    pub entries: LinkedHashMap<[u8; HASH_SIZE], DxvkStateCacheEntry>,
}

impl DxvkStateCache {
    /// The stored key-value pairs, oldest first.
    pub open spec fn pairs(self) -> Seq<([u8; HASH_SIZE], DxvkStateCacheEntry)> {
        store_model(self.entries)
    }

    /// The stored records, oldest first.
    pub open spec fn model(self) -> Seq<SpecEntry> {
        pair_entries(self.pairs())
    }

    /// The store is well formed: keyed by its records' own hashes, one
    /// record per hash.
    pub open spec fn wf(self) -> bool {
        pairs_wf(self.pairs())
    }

    /// An empty store under a blank header.
    pub fn new() -> (c: Self)
        ensures
            c.wf(),
            c.model() == Seq::<SpecEntry>::empty(),
            c.header.magic@ == spec_magic(),
            c.header.version == 0,
            c.header.entry_size == 0,
    {
        let c = DxvkStateCache {
            header: DxvkStateCacheHeader { magic: magic_bytes(), version: 0, entry_size: 0 },
            entries: lhm_new(),
        };
        proof {
            assert(c.model() =~= Seq::<SpecEntry>::empty());
        }
        c
    }

    /// The number of stored records.
    pub fn len(&self) -> (n: usize)
        ensures
            n == self.model().len(),
    {
        lhm_len(&self.entries)
    }

    /// Whether the store holds no records.
    pub fn is_empty(&self) -> (r: bool)
        ensures
            r == (self.model().len() == 0),
    {
        self.len() == 0
    }

    /// Inserts one record keyed by its own hash: an existing record with the
    /// same hash is overwritten in place, a new hash is appended.
    pub fn insert_entry(&mut self, entry: DxvkStateCacheEntry)
        requires
            old(self).wf(),
        ensures
            final(self).wf(),
            final(self).model() == store_push(old(self).model(), entry@),
            final(self).header == old(self).header,
    {
        store_insert(&mut self.entries, entry);
    }

    /// Merges another store's records into this one, oldest first, keeping
    /// the position of hashes already present and letting the newcomer's
    /// record win.  Fails, changing nothing, when the headers disagree on
    /// the format version.  On success returns how many records are new.
    pub fn extend(&mut self, other: Self) -> (r: Result<usize, Error>)
        requires
            old(self).wf(),
            other.wf(),
        ensures
            match r {
                Ok(n) => {
                    &&& old(self).header.version == other.header.version
                    &&& final(self).wf()
                    &&& final(self).model() == spec_merge(old(self).model(), other.model())
                    &&& final(self).header == old(self).header
                    &&& final(self).model().len() == old(self).model().len() + n
                },
                Err(e) => {
                    &&& old(self).header.version != other.header.version
                    &&& *final(self) == *old(self)
                    &&& e.spec_kind() == ErrorKind::InvalidInput
                    &&& e.spec_message() == msg_version_mismatch()
                },
            },
    {
        if self.header.version != other.header.version {
            return Err(Error::new(ErrorKind::InvalidInput, "State cache version mismatch"));
        }
        let before = self.len();
        let mut acc = lhm_new();
        core::mem::swap(&mut self.entries, &mut acc);
        let mut rest = other.entries;
        let ghost a0 = pair_entries(store_model(acc));
        let ghost b0 = pair_entries(store_model(rest));
        loop
            invariant
                pairs_wf(store_model(acc)),
                pairs_wf(store_model(rest)),
                spec_merge(pair_entries(store_model(acc)), pair_entries(store_model(rest)))
                    == spec_merge(a0, b0),
            ensures
                pairs_wf(store_model(acc)),
                pair_entries(store_model(acc)) == spec_merge(a0, b0),
            decreases store_model(rest).len(),
        {
            let ghost accm0 = pair_entries(store_model(acc));
            let ghost restp0 = store_model(rest);
            let ghost restm0 = pair_entries(restp0);
            match lhm_pop_front(&mut rest) {
                Some(p) => {
                    let (_, e) = p;
                    proof {
                        assert(restm0[0] == restp0[0].1@);
                        assert(e@ == restm0[0]);
                        assert(pair_entries(store_model(rest)) =~= restm0.drop_first());
                        lemma_pairs_wf_drop_first(restp0);
                    }
                    store_insert(&mut acc, e);
                    proof {
                        assert(spec_merge(accm0, restm0) == spec_merge(
                            store_push(accm0, restm0[0]),
                            restm0.drop_first(),
                        ));
                    }
                },
                None => {
                    proof {
                        assert(restm0.len() == 0);
                        assert(spec_merge(accm0, restm0) == accm0);
                    }
                    break ;
                },
            }
        }
        self.entries = acc;
        proof {
            assert(self.model() == spec_merge(old(self).model(), other.model()));
            lemma_merge_len_lower(old(self).model(), other.model());
        }
        let after = self.len();
        Ok(after - before)
    }
}

/// A well-formed pair sequence stays well formed when its oldest pair is
/// removed.
pub(crate) proof fn lemma_pairs_wf_drop_first(s: Seq<([u8; HASH_SIZE], DxvkStateCacheEntry)>)
    requires
        pairs_wf(s),
        s.len() > 0,
    ensures
        pairs_wf(s.drop_first()),
{
    let t = s.drop_first();
    assert forall|i: int| 0 <= i < t.len() implies (#[trigger] t[i]).0@ == t[i].1@.hash by {
        assert(t[i] == s[i + 1]);
    }
    assert forall|i: int, j: int| 0 <= i < j < t.len() implies t[i].0 != t[j].0 by {
        assert(t[i] == s[i + 1]);
        assert(t[j] == s[j + 1]);
    }
}

/// Inserts one record into a map keyed by the records' own hashes.
fn store_insert(m: &mut LinkedHashMap<[u8; HASH_SIZE], DxvkStateCacheEntry>, entry: DxvkStateCacheEntry)
    requires
        pairs_wf(store_model(*old(m))),
    ensures
        pairs_wf(store_model(*final(m))),
        pair_entries(store_model(*final(m))) == store_push(
            pair_entries(store_model(*old(m))),
            entry@,
        ),
{
    let hash = entry.hash;
    let ghost s = store_model(*m);
    let ghost es = pair_entries(s);
    proof {
        assert(entry@.hash == hash@);
        assert(forall|i: int| 0 <= i < s.len() ==> (#[trigger] es[i]).hash == s[i].0@);
        assert forall|i: int| 0 <= i < s.len() && s[i].0 == hash implies es[i].hash
            == entry@.hash by {}
        assert(has_pair_key(s, hash) ==> hash_in(es, entry@.hash));
        if hash_in(es, entry@.hash) {
            let i = choose|i: int| 0 <= i < es.len() && es[i].hash == entry@.hash;
            assert(s[i].0@ == hash@);
            assert(s[i].0 =~= hash);
            assert(has_pair_key(s, hash));
        }
    }
    if lhm_contains_key(m, &hash) {
        lhm_overwrite(m, &hash, entry);
        proof {
            let i = choose|i: int|
                0 <= i < s.len() && (#[trigger] s[i]).0 == hash && store_model(*m) == s.update(
                    i,
                    (hash, entry),
                );
            let idx = hash_index(es, entry@.hash);
            assert(es[i].hash == entry@.hash);
            assert(es[idx].hash == entry@.hash);
            assert(idx == i);
            assert(pair_entries(store_model(*m)) =~= es.update(i, entry@));
            assert(pairs_wf(store_model(*m)));
        }
    } else {
        lhm_insert_new(m, hash, entry);
        proof {
            assert(!hash_in(es, entry@.hash));
            assert(pair_entries(store_model(*m)) =~= es.push(entry@));
            assert(pairs_wf(store_model(*m)));
        }
    }
}

/// Merging can only grow a store.
pub proof fn lemma_merge_len_lower(a: Seq<SpecEntry>, b: Seq<SpecEntry>)
    ensures
        spec_merge(a, b).len() >= a.len(),
    decreases b.len(),
{
    if b.len() > 0 {
        lemma_merge_len_lower(store_push(a, b[0]), b.drop_first());
    }
}

/// The record in `s` that carries the hash `h`; meaningful when hashes are
/// unique and `h` occurs.
pub open spec fn lookup(s: Seq<SpecEntry>, h: Seq<u8>) -> SpecEntry {
    s[hash_index(s, h)]
}

/// The set of hashes a store holds.
pub open spec fn hash_set(s: Seq<SpecEntry>) -> Set<Seq<u8>> {
    s.map_values(|e: SpecEntry| e.hash).to_set()
}

/// What one insertion does to a store with unique hashes: uniqueness is
/// kept, the inserted record is found under its hash, and every other hash
/// keeps its record.
pub proof fn lemma_store_push_facts(a: Seq<SpecEntry>, e: SpecEntry)
    requires
        unique_hashes(a),
    ensures
        unique_hashes(store_push(a, e)),
        hash_in(store_push(a, e), e.hash),
        lookup(store_push(a, e), e.hash) == e,
        forall|h: Seq<u8>|
            #[trigger] hash_in(store_push(a, e), h) <==> (hash_in(a, h) || h == e.hash),
        forall|h: Seq<u8>|
            hash_in(a, h) && h != e.hash ==> #[trigger] lookup(store_push(a, e), h) == lookup(
                a,
                h,
            ),
        store_push(a, e).len() == (if hash_in(a, e.hash) {
            a.len()
        } else {
            a.len() + 1
        }),
{
    let u = store_push(a, e);
    if hash_in(a, e.hash) {
        let i = hash_index(a, e.hash);
        assert(0 <= i < a.len() && a[i].hash == e.hash);
        assert(u == a.update(i, e));
        assert(forall|j: int| 0 <= j < u.len() ==> (#[trigger] u[j]).hash == a[j].hash);
        assert forall|p: int, q: int| 0 <= p < q < u.len() implies u[p].hash != u[q].hash by {
            assert(u[p].hash == a[p].hash && u[q].hash == a[q].hash);
        }
        assert(u[i].hash == e.hash);
        assert(hash_in(u, e.hash));
        let j = hash_index(u, e.hash);
        assert(0 <= j < u.len() && u[j].hash == e.hash);
        assert(j == i);
        assert forall|h: Seq<u8>| hash_in(a, h) && h != e.hash implies #[trigger] lookup(u, h)
            == lookup(a, h) by {
            let k = hash_index(a, h);
            assert(0 <= k < a.len() && a[k].hash == h);
            assert(k != i);
            assert(u[k] == a[k]);
            let k2 = hash_index(u, h);
            assert(0 <= k2 < u.len() && u[k2].hash == h);
            assert(k2 == k);
        }
        assert forall|h: Seq<u8>| #[trigger] hash_in(u, h) implies (hash_in(a, h) || h
            == e.hash) by {
            let k = hash_index(u, h);
            assert(0 <= k < u.len() && u[k].hash == h);
            if k != i {
                assert(a[k].hash == h);
            }
        }
        assert forall|h: Seq<u8>| hash_in(a, h) implies #[trigger] hash_in(u, h) || h
            == e.hash by {
            let k = hash_index(a, h);
            if k != i {
                assert(u[k].hash == h);
            }
        }
    } else {
        assert(u == a.push(e));
        assert(forall|j: int| 0 <= j < a.len() ==> u[j] == (#[trigger] a[j]));
        assert(u[a.len() as int] == e);
        assert forall|p: int, q: int| 0 <= p < q < u.len() implies u[p].hash != u[q].hash by {
            if q < a.len() {
            } else {
                assert(u[q] == e);
                assert(u[p] == a[p]);
                assert(!hash_in(a, e.hash));
            }
        }
        assert(hash_in(u, e.hash));
        let j = hash_index(u, e.hash);
        assert(0 <= j < u.len() && u[j].hash == e.hash);
        assert(j == a.len());
        assert forall|h: Seq<u8>| hash_in(a, h) && h != e.hash implies #[trigger] lookup(u, h)
            == lookup(a, h) by {
            let k = hash_index(a, h);
            assert(0 <= k < a.len() && a[k].hash == h);
            assert(u[k].hash == h);
            let k2 = hash_index(u, h);
            assert(0 <= k2 < u.len() && u[k2].hash == h);
            assert(k2 != a.len());
            assert(a[k2].hash == h);
            assert(k2 == k);
        }
        assert forall|h: Seq<u8>| #[trigger] hash_in(u, h) implies (hash_in(a, h) || h
            == e.hash) by {
            let k = hash_index(u, h);
            if k < a.len() {
                assert(a[k].hash == h);
            } else {
                assert(u[k] == e);
            }
        }
        assert forall|h: Seq<u8>| hash_in(a, h) implies #[trigger] hash_in(u, h) by {
            let k = hash_index(a, h);
            assert(u[k].hash == h);
        }
    }
}

/// A record sequence with unique hashes keeps them unique after its first
/// record is removed, and every remaining hash keeps its record.
proof fn lemma_unique_drop_first(b: Seq<SpecEntry>)
    requires
        unique_hashes(b),
        b.len() > 0,
    ensures
        unique_hashes(b.drop_first()),
        forall|h: Seq<u8>|
            #[trigger] hash_in(b, h) <==> (h == b[0].hash || hash_in(b.drop_first(), h)),
        !hash_in(b.drop_first(), b[0].hash),
        forall|h: Seq<u8>|
            hash_in(b.drop_first(), h) ==> #[trigger] lookup(b.drop_first(), h) == lookup(b, h),
{
    let t = b.drop_first();
    assert(forall|i: int| 0 <= i < t.len() ==> (#[trigger] t[i]) == b[i + 1]);
    assert forall|p: int, q: int| 0 <= p < q < t.len() implies t[p].hash != t[q].hash by {
        assert(t[p] == b[p + 1] && t[q] == b[q + 1]);
    }
    assert forall|h: Seq<u8>| #[trigger] hash_in(b, h) implies (h == b[0].hash || hash_in(
        t,
        h,
    )) by {
        let k = hash_index(b, h);
        if k > 0 {
            assert(t[k - 1].hash == h);
        }
    }
    assert forall|h: Seq<u8>| h == b[0].hash || hash_in(t, h) implies #[trigger] hash_in(
        b,
        h,
    ) by {
        if h == b[0].hash {
            assert(b[0].hash == h);
        } else {
            let k = hash_index(t, h);
            assert(b[k + 1].hash == h);
        }
    }
    if hash_in(t, b[0].hash) {
        let k = hash_index(t, b[0].hash);
        assert(b[k + 1].hash == b[0].hash);
        assert(false);
    }
    assert forall|h: Seq<u8>| hash_in(t, h) implies #[trigger] lookup(t, h) == lookup(b, h) by {
        let k = hash_index(t, h);
        assert(0 <= k < t.len() && t[k].hash == h);
        assert(b[k + 1].hash == h);
        let k2 = hash_index(b, h);
        assert(0 <= k2 < b.len() && b[k2].hash == h);
        assert(k2 == k + 1);
        assert(lookup(t, h) == t[k] && lookup(b, h) == b[k + 1]);
    }
}

/// Merging two stores with disjoint hash sets yields a store whose size is
/// the sum of both.
pub proof fn lemma_merge_disjoint_len(a: Seq<SpecEntry>, b: Seq<SpecEntry>)
    requires
        unique_hashes(a),
        unique_hashes(b),
        forall|i: int| 0 <= i < b.len() ==> !hash_in(a, (#[trigger] b[i]).hash),
    ensures
        spec_merge(a, b).len() == a.len() + b.len(),
    decreases b.len(),
{
    if b.len() > 0 {
        let e = b[0];
        assert(!hash_in(a, e.hash));
        lemma_store_push_facts(a, e);
        let a2 = store_push(a, e);
        assert(a2.len() == a.len() + 1);
        lemma_unique_drop_first(b);
        assert forall|i: int| 0 <= i < b.drop_first().len() implies !hash_in(
            a2,
            (#[trigger] b.drop_first()[i]).hash,
        ) by {
            assert(b.drop_first()[i] == b[i + 1]);
            assert(b[i + 1].hash != b[0].hash);
            assert(!hash_in(a, b[i + 1].hash));
        }
        lemma_merge_disjoint_len(a2, b.drop_first());
    }
}

/// Merging with overlapping hashes yields the union: the merged store's
/// hash set is the union of both, its size that union's size, and for every
/// hash the incoming store holds, the incoming record wins; hashes only the
/// first store holds keep their records.
pub proof fn lemma_merge_union(a: Seq<SpecEntry>, b: Seq<SpecEntry>)
    requires
        unique_hashes(a),
        unique_hashes(b),
    ensures
        unique_hashes(spec_merge(a, b)),
        forall|h: Seq<u8>|
            #[trigger] hash_in(spec_merge(a, b), h) <==> (hash_in(a, h) || hash_in(b, h)),
        forall|h: Seq<u8>|
            hash_in(b, h) ==> #[trigger] lookup(spec_merge(a, b), h) == lookup(b, h),
        forall|h: Seq<u8>|
            hash_in(a, h) && !hash_in(b, h) ==> #[trigger] lookup(spec_merge(a, b), h) == lookup(
                a,
                h,
            ),
        hash_set(spec_merge(a, b)) == hash_set(a).union(hash_set(b)),
        spec_merge(a, b).len() == hash_set(a).union(hash_set(b)).len(),
    decreases b.len(),
{
    let m = spec_merge(a, b);
    if b.len() == 0 {
        assert(m == a);
        assert forall|h: Seq<u8>| #[trigger] hash_in(a, h) <==> (hash_in(a, h) || hash_in(
            b,
            h,
        )) by {
            if hash_in(b, h) {
                let k = hash_index(b, h);
                assert(false);
            }
        }
    } else {
        let e = b[0];
        lemma_store_push_facts(a, e);
        let a2 = store_push(a, e);
        lemma_unique_drop_first(b);
        lemma_merge_union(a2, b.drop_first());
        assert(m == spec_merge(a2, b.drop_first()));
        assert forall|h: Seq<u8>| hash_in(b, h) implies #[trigger] lookup(m, h) == lookup(
            b,
            h,
        ) by {
            if hash_in(b.drop_first(), h) {
                assert(lookup(m, h) == lookup(b.drop_first(), h));
                assert(lookup(b.drop_first(), h) == lookup(b, h));
            } else {
                assert(h == b[0].hash);
                assert(hash_in(a2, h) && lookup(a2, h) == e);
                assert(lookup(m, h) == lookup(a2, h));
                let k = hash_index(b, h);
                assert(0 <= k < b.len() && b[k].hash == h);
                if k > 0 {
                    assert(b.drop_first()[k - 1].hash == h);
                    assert(false);
                }
                assert(lookup(b, h) == b[0]);
            }
        }
        assert forall|h: Seq<u8>| hash_in(a, h) && !hash_in(b, h) implies #[trigger] lookup(m, h)
            == lookup(a, h) by {
            assert(h != e.hash);
            assert(hash_in(a2, h) && lookup(a2, h) == lookup(a, h));
            assert(!hash_in(b.drop_first(), h));
            assert(lookup(m, h) == lookup(a2, h));
        }
    }
    assert forall|h: Seq<u8>| #[trigger] hash_set(m).contains(h) <==> hash_in(m, h) by {
        lemma_hash_set_membership(m, h);
    }
    lemma_hash_set_iff(m);
    lemma_hash_set_iff(a);
    lemma_hash_set_iff(b);
    assert(hash_set(m) =~= hash_set(a).union(hash_set(b)));
    lemma_unique_hash_set_len(m);
}

/// A hash stands in a store's hash set exactly when some record carries it.
proof fn lemma_hash_set_membership(s: Seq<SpecEntry>, h: Seq<u8>)
    ensures
        hash_set(s).contains(h) <==> hash_in(s, h),
{
    let hs = s.map_values(|e: SpecEntry| e.hash);
    if hash_in(s, h) {
        let k = hash_index(s, h);
        assert(hs[k] == h);
        assert(hs.to_set().contains(h));
    }
    if hs.to_set().contains(h) {
        let k = choose|k: int| 0 <= k < hs.len() && hs[k] == h;
        assert(s[k].hash == h);
    }
}

proof fn lemma_hash_set_iff(s: Seq<SpecEntry>)
    ensures
        forall|h: Seq<u8>| #[trigger] hash_set(s).contains(h) <==> hash_in(s, h),
{
    assert forall|h: Seq<u8>| #[trigger] hash_set(s).contains(h) <==> hash_in(s, h) by {
        lemma_hash_set_membership(s, h);
    }
}

/// A store with unique hashes has as many records as hashes.
pub proof fn lemma_unique_hash_set_len(s: Seq<SpecEntry>)
    requires
        unique_hashes(s),
    ensures
        hash_set(s).len() == s.len(),
{
    let hs = s.map_values(|e: SpecEntry| e.hash);
    assert(hs.no_duplicates()) by {
        assert forall|p: int, q: int| 0 <= p < hs.len() && 0 <= q < hs.len() && p != q implies hs[p]
            != hs[q] by {
            if p < q {
                assert(s[p].hash != s[q].hash);
            } else {
                assert(s[q].hash != s[p].hash);
            }
        }
    }
    hs.unique_seq_to_set();
}

/// A well-formed store holds records with pairwise distinct hashes.
pub proof fn lemma_wf_unique_hashes(c: DxvkStateCache)
    requires
        c.wf(),
    ensures
        unique_hashes(c.model()),
{
    let ps = c.pairs();
    let m = c.model();
    assert(forall|i: int| 0 <= i < m.len() ==> (#[trigger] m[i]).hash == ps[i].1@.hash);
    assert forall|i: int, j: int| 0 <= i < j < m.len() implies m[i].hash != m[j].hash by {
        assert(ps[i].0@ == m[i].hash && ps[j].0@ == m[j].hash);
        if m[i].hash == m[j].hash {
            assert(ps[i].0@ == ps[j].0@);
            assert(ps[i].0 =~= ps[j].0);
            assert(false);
        }
    }
}

/// The message a version mismatch carries.
pub open spec fn msg_version_mismatch() -> Seq<char> {
    "State cache version mismatch"@
}

} // verus!
