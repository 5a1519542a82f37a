//! Entry decoding: inflating payloads and resolving delta chains, through
//! the decode cache and the bases that a caller supplies.
use crate::digest::{inflate_sized, zlib_inflate};
use crate::oid::ObjectId;
use crate::pack::cache::{CachedV, DecodeCache};
use crate::pack::data::DataFile;
use crate::pack::delta::{apply_delta, apply_delta_to};
use crate::pack::header::{entry_at, EntryHeader, EntryV, HeaderV, ObjectKind};
use crate::pack::index::{IndexFile, IndexV};
use vstd::prelude::*;

verus! {

/// The longest delta chain that is followed.
pub const MAX_CHAIN: u64 = 4096;

/// Why an entry could not be decoded.
#[derive(Clone, Copy, Debug, PartialEq, Eq)]
pub enum DecodeError {
    /// No valid entry header starts at this offset.
    BadHeader(u64),
    /// The payload of the entry at this offset does not inflate to its size.
    Inflate(u64),
    /// An offset delta at this offset points at or before the pack start.
    BadBaseDistance(u64),
    /// No base for this id is in the pack or among the supplied bases.
    UnresolvedBase(ObjectId),
    /// The delta at this offset does not apply to its base.
    DeltaMismatch(u64),
    /// The delta chain is longer than it may be.
    ChainTooLong(u64),
}

/// An object that a caller supplies as the base of a ref delta, for packs
/// whose bases live elsewhere.
pub struct ExternalBase {
    pub id: ObjectId,
    pub kind: ObjectKind,
    pub data: Vec<u8>,
}

pub struct ExternalBaseV {
    pub id: Seq<u8>,
    pub kind: ObjectKind,
    pub data: Seq<u8>,
}

impl View for ExternalBase {
    type V = ExternalBaseV;

    open spec fn view(&self) -> ExternalBaseV {
        ExternalBaseV { id: self.id@, kind: self.kind, data: self.data@ }
    }
}

pub open spec fn ext_view(ext: Seq<ExternalBase>) -> Seq<ExternalBaseV> {
    ext.map_values(|e: ExternalBase| e@)
}

/// The first supplied base with this id.
pub open spec fn ext_base(ext: Seq<ExternalBaseV>, id: Seq<u8>) -> Option<(ObjectKind, Seq<u8>)>
    decreases ext.len(),
{
    if ext.len() == 0 {
        None
    } else if ext[0].id == id {
        Some((ext[0].kind, ext[0].data))
    } else {
        ext_base(ext.drop_first(), id)
    }
}

/// The payload of entry `e` inflated to its declared size, and the length of
/// its compressed form.
pub open spec fn inflated_payload(pack: Seq<u8>, e: EntryV) -> Option<(Seq<u8>, nat)> {
    if e.data_offset > pack.len() || e.decompressed_size > usize::MAX || e.decompressed_size
        > crate::digest::MAX_EXPANSION * (pack.len() - e.data_offset + 1) {
        None
    } else {
        match zlib_inflate(pack.subrange(e.data_offset, pack.len() as int), e.decompressed_size as nat) {
            Some((v, n)) => if v.len() == e.decompressed_size && n <= pack.len() - e.data_offset {
                Some((v, n))
            } else {
                None
            },
            None => None,
        }
    }
}

/// What the entry at `off` decodes to, following at most `depth` deltas: its
/// kind, its bytes and the length of its compressed payload. Ref deltas take
/// their base from the index, when one is given and holds the id, else from
/// the supplied bases.
pub open spec fn resolve(
    pack: Seq<u8>,
    off: int,
    idx: Option<IndexV>,
    ext: Seq<ExternalBaseV>,
    depth: nat,
) -> Option<(ObjectKind, Seq<u8>, nat)>
    decreases depth,
{
    match entry_at(pack, off) {
        None => None,
        Some(e) => match inflated_payload(pack, e) {
            None => None,
            Some((payload, n)) => match e.header {
                HeaderV::Base(k) => Some((k, payload, n)),
                HeaderV::OfsDelta(dist) => if depth == 0 || dist == 0 || dist > off {
                    None
                } else {
                    match resolve(pack, off - dist, idx, ext, (depth - 1) as nat) {
                        Some((k, b, _)) => match apply_delta(b, payload) {
                            Some(o) => Some((k, o, n)),
                            None => None,
                        },
                        None => None,
                    }
                },
                HeaderV::RefDelta(id) => if depth == 0 {
                    None
                } else {
                    let base = match idx {
                        Some(iv) => match iv.slot_of(id) {
                            Some(s) => match resolve(pack, iv.offsets[s] as int, idx, ext, (depth - 1) as nat) {
                                Some((k, b, _)) => Some((k, b)),
                                None => None,
                            },
                            None => ext_base(ext, id),
                        },
                        None => ext_base(ext, id),
                    };
                    match base {
                        Some((k, b)) => match apply_delta(b, payload) {
                            Some(o) => Some((k, o, n)),
                            None => None,
                        },
                        None => None,
                    }
                },
            },
        },
    }
}

/// The entry at `off` decodes to `x` through some finite chain.
pub open spec fn decodes_to(
    pack: Seq<u8>,
    off: int,
    idx: Option<IndexV>,
    ext: Seq<ExternalBaseV>,
    x: (ObjectKind, Seq<u8>, nat),
) -> bool {
    exists|d: nat| resolve(pack, off, idx, ext, d) == Some(x)
}

/// Following more deltas than needed changes nothing.
pub proof fn lemma_resolve_monotone(
    pack: Seq<u8>,
    off: int,
    idx: Option<IndexV>,
    ext: Seq<ExternalBaseV>,
    d1: nat,
    d2: nat,
)
    requires
        d1 <= d2,
        resolve(pack, off, idx, ext, d1) is Some,
    ensures
        resolve(pack, off, idx, ext, d2) == resolve(pack, off, idx, ext, d1),
    decreases d1,
{
    let e = entry_at(pack, off).unwrap();
    match e.header {
        HeaderV::OfsDelta(dist) => {
            lemma_resolve_monotone(pack, off - dist, idx, ext, (d1 - 1) as nat, (d2 - 1) as nat);
        },
        HeaderV::RefDelta(id) => {
            match idx {
                Some(iv) => match iv.slot_of(id) {
                    Some(s) => {
                        lemma_resolve_monotone(pack, iv.offsets[s] as int, idx, ext, (d1 - 1) as nat, (d2 - 1) as nat);
                    },
                    None => {},
                },
                None => {},
            }
        },
        HeaderV::Base(_) => {},
    }
}

/// An entry decodes to one object at most: decoding is deterministic, with
/// or without a cache.
pub proof fn lemma_decodes_to_unique(
    pack: Seq<u8>,
    off: int,
    idx: Option<IndexV>,
    ext: Seq<ExternalBaseV>,
    x: (ObjectKind, Seq<u8>, nat),
    y: (ObjectKind, Seq<u8>, nat),
)
    requires
        decodes_to(pack, off, idx, ext, x),
        decodes_to(pack, off, idx, ext, y),
    ensures
        x == y,
{
    let d1 = choose|d: nat| resolve(pack, off, idx, ext, d) == Some(x);
    let d2 = choose|d: nat| resolve(pack, off, idx, ext, d) == Some(y);
    if d1 <= d2 {
        lemma_resolve_monotone(pack, off, idx, ext, d1, d2);
    } else {
        lemma_resolve_monotone(pack, off, idx, ext, d2, d1);
    }
}

/// Every object in the cache is what its entry decodes to, following as many
/// deltas as the slot records.
pub open spec fn cache_sound(c: Seq<CachedV>, pack: Seq<u8>, idx: Option<IndexV>, ext: Seq<ExternalBaseV>) -> bool {
    forall|i: int|
        0 <= i < c.len() ==> resolve(pack, (#[trigger] c[i]).offset as int, idx, ext, c[i].chain as nat)
            == Some((c[i].kind, c[i].data, c[i].consumed))
}

/// The entry at `off` is a ref delta whose base is neither in the index nor
/// among the supplied bases.
pub open spec fn base_missing(pack: Seq<u8>, off: int, idx: Option<IndexV>, ext: Seq<ExternalBaseV>) -> Option<Seq<u8>> {
    match entry_at(pack, off) {
        Some(e) => match e.header {
            HeaderV::RefDelta(id) => if inflated_payload(pack, e) is Some && ext_base(ext, id) is None && match idx {
                Some(iv) => iv.slot_of(id) is None,
                None => true,
            } {
                Some(id)
            } else {
                None
            },
            _ => None,
        },
        None => None,
    }
}

pub open spec fn opt_index(index: Option<&IndexFile>) -> Option<IndexV> {
    match index {
        Some(i) => Some(i@),
        None => None,
    }
}

/// A decoded entry.
pub struct Decoded {
    pub kind: ObjectKind,
    pub data: Vec<u8>,
    /// The length of the entry's compressed payload.
    pub consumed: usize,
    /// The number of deltas followed.
    pub chain: u64,
}

fn find_external(ext: &Vec<ExternalBase>, id: &ObjectId) -> (r: Option<usize>)
    ensures
        match r {
            Some(i) => i < ext@.len() && ext_base(ext_view(ext@), id@) == Some((ext@[i as int].kind, ext@[i as int].data@)),
            None => ext_base(ext_view(ext@), id@) is None,
        },
{
    let ghost ev = ext_view(ext@);
    let mut i: usize = 0;
    assert(ev.subrange(0, ev.len() as int) =~= ev);
    while i < ext.len()
        invariant
            i <= ext@.len(),
            ev == ext_view(ext@),
            ext_base(ev, id@) == ext_base(ev.subrange(i as int, ev.len() as int), id@),
        decreases ext@.len() - i,
    {
        let ghost rest = ev.subrange(i as int, ev.len() as int);
        assert(rest[0] == ext@[i as int]@);
        if ext[i].id.same_as(id) {
            return Some(i);
        }
        assert(rest.drop_first() =~= ev.subrange(i as int + 1, ev.len() as int));
        i = i + 1;
    }
    None
}

/// Inflates the payload of `e`.
fn inflate_payload(pack: &DataFile, e: &crate::pack::header::Entry) -> (r: Option<(Vec<u8>, usize)>)
    requires
        entry_at(pack.bytes(), e@.pack_offset) == Some(e@),
    ensures
        match r {
            Some((v, n)) => inflated_payload(pack.bytes(), e@) == Some((v@, n as nat)),
            None => inflated_payload(pack.bytes(), e@) is None,
        },
{
    let d = pack.as_slice();
    if e.data_offset > d.len() as u64 {
        return None;
    }
    if e.decompressed_size > usize::MAX as u64 {
        return None;
    }
    let start = e.data_offset as usize;
    let room = (d.len() - start) as u64;
    if room < u64::MAX / crate::digest::MAX_EXPANSION && e.decompressed_size > crate::digest::MAX_EXPANSION * (room + 1) {
        return None;
    }
    let tail = &d[start..d.len()];
    assert(tail@ == pack.bytes().subrange(e@.data_offset, pack.bytes().len() as int));
    match inflate_sized(tail, e.decompressed_size as usize) {
        Some((v, n)) => {
            if v.len() as u64 == e.decompressed_size && n <= d.len() - start {
                Some((v, n))
            } else {
                None
            }
        },
        None => None,
    }
}

/// Decodes the entry at `offset`: the cache is consulted first, delta bases
/// are resolved recursively, at most `depth` deep, and each decoded entry is
/// offered to the cache. The result is what the entry decodes to within
/// `depth` deltas, whatever the cache held.
pub fn decode_at(
    pack: &DataFile,
    offset: u64,
    index: Option<&IndexFile>,
    ext: &Vec<ExternalBase>,
    cache: &mut DecodeCache,
    depth: u64,
) -> (r: Result<Decoded, DecodeError>)
    requires
        index matches Some(i) ==> i@.well_formed(),
        cache_sound(old(cache).contents(), pack.bytes(), opt_index(index), ext_view(ext@)),
    ensures
        cache_sound(final(cache).contents(), pack.bytes(), opt_index(index), ext_view(ext@)),
        final(cache).capacity() == old(cache).capacity(),
        old(cache).never_caches() ==> final(cache).never_caches(),
        r matches Ok(d) ==> d.chain <= depth && resolve(
            pack.bytes(),
            offset as int,
            opt_index(index),
            ext_view(ext@),
            d.chain as nat,
        ) == Some((d.kind, d.data@, d.consumed as nat)),
        r matches Ok(d) ==> resolve(pack.bytes(), offset as int, opt_index(index), ext_view(ext@), depth as nat)
            == Some((d.kind, d.data@, d.consumed as nat)),
        r is Err ==> resolve(pack.bytes(), offset as int, opt_index(index), ext_view(ext@), depth as nat) is None,
        depth > 0 ==> (base_missing(pack.bytes(), offset as int, opt_index(index), ext_view(ext@)) matches Some(id)
            ==> (r matches Err(DecodeError::UnresolvedBase(b)) && b@ == id)),
    decreases depth,
{
    let ghost p = pack.bytes();
    let ghost iv = opt_index(index);
    let ghost ev = ext_view(ext@);
    match cache.get(offset) {
        Some((kind, data, consumed, chain)) => {
            if chain <= depth {
                proof {
                    let i = choose|i: int|
                        0 <= i < cache.contents().len() && #[trigger] cache.contents()[i] == (CachedV {
                            offset,
                            kind,
                            data: data@,
                            consumed: consumed as nat,
                            chain,
                        });
                    assert(resolve(p, offset as int, iv, ev, chain as nat) == Some((kind, data@, consumed as nat)));
                    lemma_resolve_monotone(p, offset as int, iv, ev, chain as nat, depth as nat);
                }
                return Ok(Decoded { kind, data, consumed, chain });
            }
        },
        None => {},
    }
    let e = match pack.entry(offset) {
        Some(e) => e,
        None => return Err(DecodeError::BadHeader(offset)),
    };
    let (payload, n) = match inflate_payload(pack, &e) {
        Some(x) => x,
        None => return Err(DecodeError::Inflate(offset)),
    };
    let result = match e.header {
        EntryHeader::Base(kind) => {
            assert(resolve(p, offset as int, iv, ev, 0) == Some((kind, payload@, n as nat)));
            assert(resolve(p, offset as int, iv, ev, depth as nat) == Some((kind, payload@, n as nat)));
            Decoded { kind, data: payload, consumed: n, chain: 0 }
        },
        EntryHeader::OfsDelta { base_distance } => {
            if depth == 0 {
                return Err(DecodeError::ChainTooLong(offset));
            }
            if base_distance == 0 || base_distance > offset {
                return Err(DecodeError::BadBaseDistance(offset));
            }
            let base_off = offset - base_distance;
            let base = match decode_at(pack, base_off, index, ext, cache, depth - 1) {
                Ok(b) => b,
                Err(err) => return Err(err),
            };
            match apply_delta_to(base.data.as_slice(), payload.as_slice()) {
                Some(out) => {
                    assert(resolve(p, offset as int, iv, ev, (base.chain + 1) as nat) == Some((base.kind, out@, n as nat)));
                    assert(resolve(p, offset as int, iv, ev, depth as nat) == Some((base.kind, out@, n as nat)));
                    Decoded { kind: base.kind, data: out, consumed: n, chain: base.chain + 1 }
                },
                None => {
                    return Err(DecodeError::DeltaMismatch(offset));
                },
            }
        },
        EntryHeader::RefDelta { base_id } => {
            if depth == 0 {
                return Err(DecodeError::ChainTooLong(offset));
            }
            let ghost id = base_id@;
            let mut in_pack: Option<u64> = None;
            match index {
                Some(i) => match i.lookup(&base_id) {
                    Some(slot) => {
                        in_pack = Some(i.pack_offset_at_index(slot));
                    },
                    None => {},
                },
                None => {},
            }
            let (kind, base_data, base_chain) = match in_pack {
                Some(base_off) => {
                    let base = match decode_at(pack, base_off, index, ext, cache, depth - 1) {
                        Ok(b) => b,
                        Err(err) => return Err(err),
                    };
                    proof {
                        let iv2 = iv.unwrap();
                        let s = iv2.slot_of(id).unwrap();
                        assert(iv2.offsets[s] == base_off);
                    }
                    (base.kind, base.data, base.chain)
                },
                None => match find_external(ext, &base_id) {
                    Some(k) => (ext[k].kind, crate::config::file::copy_vec(&ext[k].data), 0),
                    None => return Err(DecodeError::UnresolvedBase(base_id)),
                },
            };
            match apply_delta_to(base_data.as_slice(), payload.as_slice()) {
                Some(out) => {
                    proof {
                        match in_pack {
                            Some(base_off) => {
                                assert(resolve(p, offset as int, iv, ev, (base_chain + 1) as nat) == Some((kind, out@, n as nat)));
                            },
                            None => {
                                assert(resolve(p, offset as int, iv, ev, 1) == Some((kind, out@, n as nat)));
                            },
                        }
                        assert(resolve(p, offset as int, iv, ev, depth as nat) == Some((kind, out@, n as nat)));
                    }
                    Decoded { kind, data: out, consumed: n, chain: base_chain + 1 }
                },
                None => return Err(DecodeError::DeltaMismatch(offset)),
            }
        },
    };
    let ghost before = cache.contents();
    cache.put(offset, result.kind, &result.data, result.consumed, result.chain);
    proof {
        assert forall|i: int| 0 <= i < cache.contents().len() implies resolve(
            p,
            (#[trigger] cache.contents()[i]).offset as int,
            iv,
            ev,
            cache.contents()[i].chain as nat,
        ) == Some((cache.contents()[i].kind, cache.contents()[i].data, cache.contents()[i].consumed)) by {
            if before.contains(cache.contents()[i]) {
                let j = choose|j: int| 0 <= j < before.len() && before[j] == cache.contents()[i];
                assert(resolve(p, before[j].offset as int, iv, ev, before[j].chain as nat) == Some((before[j].kind, before[j].data, before[j].consumed)));
            }
        }
    }
    Ok(result)
}

/// An entry with a base header decodes to its inflated payload, whether it
/// was decoded through a populated cache or not: every decoding of it gives
/// these bytes.
pub proof fn lemma_base_entry_decodes_to_payload(
    pack: Seq<u8>,
    off: int,
    idx: Option<IndexV>,
    ext: Seq<ExternalBaseV>,
    x: (ObjectKind, Seq<u8>, nat),
)
    requires
        entry_at(pack, off) matches Some(e) && e.header is Base,
        decodes_to(pack, off, idx, ext, x),
    ensures
        inflated_payload(pack, entry_at(pack, off).unwrap()) == Some((x.1, x.2)),
        entry_at(pack, off).unwrap().header == HeaderV::Base(x.0),
{
    let d = choose|d: nat| resolve(pack, off, idx, ext, d) == Some(x);
    assert(resolve(pack, off, idx, ext, d) == Some(x));
}

/// An offset delta decodes to its delta applied to what its base decodes
/// to, with the base's kind: a chain gives the bytes of applying its deltas
/// one after the other.
pub proof fn lemma_offset_delta_applies_to_base(
    pack: Seq<u8>,
    off: int,
    idx: Option<IndexV>,
    ext: Seq<ExternalBaseV>,
    x: (ObjectKind, Seq<u8>, nat),
)
    requires
        entry_at(pack, off) matches Some(e) && e.header is OfsDelta,
        decodes_to(pack, off, idx, ext, x),
    ensures
        ({
            let e = entry_at(pack, off).unwrap();
            let dist = e.header->OfsDelta_0;
            exists|b: (ObjectKind, Seq<u8>, nat)|
                decodes_to(pack, off - dist, idx, ext, b) && b.0 == x.0 && (inflated_payload(pack, e) matches Some((payload, n))
                    && n == x.2 && apply_delta(b.1, payload) == Some(x.1))
        }),
{
    let e = entry_at(pack, off).unwrap();
    let dist = e.header->OfsDelta_0;
    let d = choose|d: nat| resolve(pack, off, idx, ext, d) == Some(x);
    assert(resolve(pack, off, idx, ext, d) == Some(x));
    let b = resolve(pack, off - dist, idx, ext, (d - 1) as nat).unwrap();
    assert(decodes_to(pack, off - dist, idx, ext, b));
}

/// Applies the deltas one after the other, starting from `base`.
pub open spec fn apply_all(base: Seq<u8>, deltas: Seq<Seq<u8>>) -> Option<Seq<u8>>
    decreases deltas.len(),
{
    if deltas.len() == 0 {
        Some(base)
    } else {
        match apply_all(base, deltas.drop_last()) {
            Some(v) => apply_delta(v, deltas.last()),
            None => None,
        }
    }
}

/// The entries at `offs` form an offset-delta chain: the first is a base of
/// kind `k` whose payload is `base`, and each later one is an offset delta
/// against the one before whose payload is the matching delta.
pub open spec fn is_offset_chain(
    pack: Seq<u8>,
    offs: Seq<int>,
    k: ObjectKind,
    base: Seq<u8>,
    deltas: Seq<Seq<u8>>,
) -> bool {
    &&& offs.len() == deltas.len() + 1
    &&& offs[0] >= 0
    &&& forall|i: int| 0 <= i < offs.len() ==> #[trigger] offs[i] <= u64::MAX
    &&& entry_at(pack, offs[0]) matches Some(e) && e.header == HeaderV::Base(k) && (inflated_payload(
        pack,
        e,
    ) matches Some((p, _)) && p == base)
    &&& forall|i: int|
        1 <= i < offs.len() ==> offs[i - 1] < #[trigger] offs[i] && (entry_at(pack, offs[i]) matches Some(e)
            && e.header == HeaderV::OfsDelta((offs[i] - offs[i - 1]) as u64) && (inflated_payload(pack, e) matches Some((p, _))
            && p == deltas[i - 1]))
}

/// A delta chain decodes to its base with all its deltas applied in order,
/// whatever its length, with the kind of its base: decoding the tip gives
/// the fully applied bytes.
pub proof fn lemma_offset_chain_decodes_to_applied_deltas(
    pack: Seq<u8>,
    offs: Seq<int>,
    k: ObjectKind,
    base: Seq<u8>,
    deltas: Seq<Seq<u8>>,
    idx: Option<IndexV>,
    ext: Seq<ExternalBaseV>,
)
    requires
        is_offset_chain(pack, offs, k, base, deltas),
    ensures
        match apply_all(base, deltas) {
            Some(v) => resolve(pack, offs.last(), idx, ext, deltas.len()) matches Some(x) && x.0 == k && x.1 == v,
            None => resolve(pack, offs.last(), idx, ext, deltas.len()) is None,
        },
    decreases deltas.len(),
{
    let n = deltas.len() as int;
    if n > 0 {
        let offs2 = offs.drop_last();
        let deltas2 = deltas.drop_last();
        assert forall|i: int| 1 <= i < offs2.len() implies offs2[i - 1] < #[trigger] offs2[i] && (entry_at(pack, offs2[i]) matches Some(e)
            && e.header == HeaderV::OfsDelta((offs2[i] - offs2[i - 1]) as u64) && (inflated_payload(pack, e) matches Some((p, _))
            && p == deltas2[i - 1])) by {
            assert(offs[i - 1] < offs[i]);
        }
        lemma_offset_chain_decodes_to_applied_deltas(pack, offs2, k, base, deltas2, idx, ext);
        assert(offs[n] > offs[n - 1]);
        assert(offs2.last() == offs[n - 1]);
        assert(offs[n] <= u64::MAX);
        assert(offs[n - 1] >= 0) by {
            lemma_chain_offsets_nonneg(offs, n - 1);
        }
        assert(resolve(pack, offs.last(), idx, ext, deltas.len()) == match resolve(pack, offs[n - 1], idx, ext, (n - 1) as nat) {
            Some((kk, b, _)) => match apply_delta(b, deltas[n - 1]) {
                Some(o) => Some((kk, o, inflated_payload(pack, entry_at(pack, offs[n]).unwrap()).unwrap().1)),
                None => None,
            },
            None => None,
        });
    } else {
        assert(offs.last() == offs[0]);
    }
}

proof fn lemma_chain_offsets_nonneg(offs: Seq<int>, i: int)
    requires
        0 <= i < offs.len(),
        offs[0] >= 0,
        forall|j: int| 1 <= j < offs.len() ==> offs[j - 1] < #[trigger] offs[j],
    ensures
        offs[i] >= 0,
    decreases i,
{
    if i > 0 {
        lemma_chain_offsets_nonneg(offs, i - 1);
        assert(offs[i - 1] < offs[i]);
    }
}

} // verus!
