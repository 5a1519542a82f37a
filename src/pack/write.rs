//! Support for writing packs: the ids of base objects, computed from what a
//! shared cache, keyed by pack offset, holds of them.
use crate::digest::{inflate_sized, zlib_inflate};
use crate::oid::ObjectId;
use crate::pack::header::ObjectKind;
use crate::pack::verify::{compute_hash, object_hash};
use std::collections::BTreeMap;
use vstd::prelude::*;

verus! {

/// What the cache holds of one entry.
pub enum Cache {
    Unset,
    /// Compressed bytes and the length they inflate to.
    Compressed(Vec<u8>, usize),
    Decompressed(Vec<u8>),
}

/// What the cache holds of one entry, and whether the bytes are only lent
/// (and are to be returned, decompressed, for reuse).
pub struct CacheEntry {
    pub cache: Cache,
    pub borrowed: bool,
}

/// A base entry about to be written: its offset in the source pack, its
/// object kind and its length there.
pub struct Entry {
    pub pack_offset: u64,
    pub kind: ObjectKind,
    pub entry_len: u64,
}

/// Why an id could not be computed.
#[derive(Clone, Copy, Debug, PartialEq, Eq)]
pub enum Error {
    /// No cache entry for this pack offset.
    MissingCacheEntry(u64),
    /// The entry for this offset holds nothing yet.
    Unresolved(u64),
    /// The compressed bytes for this offset do not inflate to their length.
    Inflate(u64),
}

/// The decompressed bytes that a cache entry stands for.
pub open spec fn cached_bytes(c: Cache) -> Option<Seq<u8>> {
    match c {
        Cache::Unset => None,
        Cache::Decompressed(b) => Some(b@),
        Cache::Compressed(b, len) => if len > crate::digest::MAX_EXPANSION * (b@.len() + 1) {
            None
        } else {
            match zlib_inflate(b@, len as nat) {
                Some((v, _)) => if v.len() == len {
                    Some(v)
                } else {
                    None
                },
                None => None,
            }
        },
    }
}

/// What the cache holds for `off`.
pub open spec fn bytes_for(m: Map<u64, CacheEntry>, off: u64) -> Option<Seq<u8>> {
    if m.contains_key(off) {
        cached_bytes(m[off].cache)
    } else {
        None
    }
}

/// `r` is the offset of `e` with the id of what the cache held for it.
pub open spec fn id_computed(r: (u64, ObjectId), e: Entry, m: Map<u64, CacheEntry>) -> bool {
    r.0 == e.pack_offset && match bytes_for(m, e.pack_offset) {
        Some(b) => r.1@ == object_hash(e.kind, b),
        None => false,
    }
}

/// The mathematical form of what an entry holds.
pub enum CacheV {
    Unset,
    Compressed(Seq<u8>, usize),
    Decompressed(Seq<u8>),
}

pub open spec fn cache_view(c: Cache) -> CacheV {
    match c {
        Cache::Unset => CacheV::Unset,
        Cache::Compressed(b, n) => CacheV::Compressed(b@, n),
        Cache::Decompressed(b) => CacheV::Decompressed(b@),
    }
}

/// One of the first `n` base entries names offset `off`.
pub open spec fn offset_used(bases: Seq<Entry>, n: int, off: u64) -> bool {
    exists|k: int| 0 <= k < n && (#[trigger] bases[k]).pack_offset == off
}

/// The entry at `off` after the first `n` base entries: a lent entry that
/// one of them used holds its bytes decompressed; every other entry is as
/// it was.
pub open spec fn entry_after(old: Map<u64, CacheEntry>, new: Map<u64, CacheEntry>, bases: Seq<Entry>, n: int, off: u64) -> bool {
    &&& new[off].borrowed == old[off].borrowed
    &&& if old[off].borrowed && offset_used(bases, n, off) {
        cached_bytes(old[off].cache) matches Some(b) && cache_view(new[off].cache) == CacheV::Decompressed(b)
    } else {
        cache_view(new[off].cache) == cache_view(old[off].cache)
    }
}

/// The cache after the first `n` base entries: the same offsets, each entry
/// as `entry_after` says.
pub open spec fn entries_after(old: Map<u64, CacheEntry>, new: Map<u64, CacheEntry>, bases: Seq<Entry>, n: int) -> bool {
    old.dom() == new.dom() && forall|off: u64| old.contains_key(off) ==> #[trigger] entry_after(old, new, bases, n, off)
}

/// The first `k` base entries all find bytes in the cache.
pub open spec fn all_found(m: Map<u64, CacheEntry>, bases: Seq<Entry>, k: int) -> bool {
    forall|j: int| 0 <= j < k ==> bytes_for(m, (#[trigger] bases[j]).pack_offset) is Some
}

/// The decompressed bytes that `entry` stands for.
fn decompressed(entry: &CacheEntry) -> (r: Option<Vec<u8>>)
    ensures
        match r {
            Some(v) => cached_bytes(entry.cache) == Some(v@),
            None => cached_bytes(entry.cache) is None,
        },
{
    match &entry.cache {
        Cache::Unset => None,
        Cache::Decompressed(b) => Some(crate::config::file::copy_vec(b)),
        Cache::Compressed(b, len) => {
            let room = b.len() as u64;
            if room < u64::MAX / crate::digest::MAX_EXPANSION && *len as u64 > crate::digest::MAX_EXPANSION * (room + 1) {
                return None;
            }
            match inflate_sized(b.as_slice(), *len) {
                Some((v, _)) => if v.len() == *len {
                    Some(v)
                } else {
                    None
                },
                None => None,
            }
        },
    }
}

/// Computes the id of each base entry from the bytes that the cache holds
/// for its offset, in order, and returns lent bytes to their entry
/// decompressed. The first base entry whose bytes are missing ends the pass
/// with its error.
pub fn apply_deltas(base_entries: &Vec<Entry>, caches: &mut BTreeMap<u64, CacheEntry>) -> (r: Result<Vec<(u64, ObjectId)>, Error>)
    ensures
        r is Ok ==> entries_after(old(caches)@, final(caches)@, base_entries@, base_entries@.len() as int),
        r is Err ==> exists|n: int| 0 <= n <= base_entries@.len() && entries_after(old(caches)@, final(caches)@, base_entries@, n),
        r matches Ok(out) ==> out@.len() == base_entries@.len() && forall|i: int|
            0 <= i < out@.len() ==> id_computed(#[trigger] out@[i], base_entries@[i], old(caches)@),
        r is Ok <==> all_found(old(caches)@, base_entries@, base_entries@.len() as int),
        r matches Err(Error::MissingCacheEntry(o)) ==> exists|k: int|
            0 <= k < base_entries@.len() && (#[trigger] base_entries@[k]).pack_offset == o && all_found(old(caches)@, base_entries@, k)
                && !old(caches)@.contains_key(o),
        r matches Err(Error::Unresolved(o)) ==> exists|k: int|
            0 <= k < base_entries@.len() && (#[trigger] base_entries@[k]).pack_offset == o && all_found(old(caches)@, base_entries@, k)
                && old(caches)@.contains_key(o) && old(caches)@[o].cache is Unset,
        r matches Err(Error::Inflate(o)) ==> exists|k: int|
            0 <= k < base_entries@.len() && (#[trigger] base_entries@[k]).pack_offset == o && all_found(old(caches)@, base_entries@, k)
                && old(caches)@.contains_key(o) && old(caches)@[o].cache is Compressed
                && cached_bytes(old(caches)@[o].cache) is None,
{
    broadcast use {vstd::std_specs::btree::group_btree_axioms, vstd::laws_cmp::group_laws_cmp};
    let mut out: Vec<(u64, ObjectId)> = Vec::new();
    let mut k: usize = 0;
    while k < base_entries.len()
        invariant
            k <= base_entries@.len(),
            entries_after(old(caches)@, caches@, base_entries@, k as int),
            out@.len() == k,
            forall|i: int| 0 <= i < k ==> id_computed(#[trigger] out@[i], base_entries@[i], old(caches)@),
            all_found(old(caches)@, base_entries@, k as int),
        decreases base_entries@.len() - k,
    {
        let e = &base_entries[k];
        let off = e.pack_offset;
        let ghost before = caches@;
        let (bytes, borrowed) = match caches.get(&off) {
            Some(entry) => {
                proof {
                    assert(entry_after(old(caches)@, before, base_entries@, k as int, off));
                }
                match decompressed(entry) {
                    Some(b) => (b, entry.borrowed),
                    None => {
                        return Err(match entry.cache {
                            Cache::Unset => Error::Unresolved(off),
                            _ => Error::Inflate(off),
                        });
                    },
                }
            },
            None => return Err(Error::MissingCacheEntry(off)),
        };
        let id = compute_hash(e.kind, bytes.as_slice());
        let ghost prev_out = out@;
        out.push((off, id));
        let ghost bv = bytes@;
        if borrowed {
            caches.insert(off, CacheEntry { cache: Cache::Decompressed(bytes), borrowed: true });
        }
        proof {
            assert(bytes_for(old(caches)@, off) == Some(bv));
            assert forall|i: int| 0 <= i < k + 1 implies id_computed(#[trigger] out@[i], base_entries@[i], old(caches)@) by {
                if i < k {
                    assert(out@[i] == prev_out[i]);
                }
            }
            assert(caches@.dom() =~= old(caches)@.dom());
            assert forall|o: u64| old(caches)@.contains_key(o) implies #[trigger] entry_after(old(caches)@, caches@, base_entries@, k + 1, o) by {
                assert(entry_after(old(caches)@, before, base_entries@, k as int, o));
                if o == off {
                    assert(base_entries@[k as int].pack_offset == o);
                    assert(offset_used(base_entries@, k + 1, o));
                } else {
                    if offset_used(base_entries@, k + 1, o) {
                        let kk = choose|kk: int| 0 <= kk < k + 1 && (#[trigger] base_entries@[kk]).pack_offset == o;
                        assert(kk != k);
                        assert(offset_used(base_entries@, k as int, o));
                    }
                    if offset_used(base_entries@, k as int, o) {
                        let kk = choose|kk: int| 0 <= kk < k && (#[trigger] base_entries@[kk]).pack_offset == o;
                        assert(offset_used(base_entries@, k + 1, o));
                    }
                }
            }
            assert forall|j: int| 0 <= j < k + 1 implies bytes_for(old(caches)@, (#[trigger] base_entries@[j]).pack_offset) is Some by {
                if j == k {
                    assert(base_entries@[j] == *e);
                }
            }
        }
        k = k + 1;
    }
    Ok(out)
}

} // verus!
