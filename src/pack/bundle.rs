//! A bundle: a pack index together with the pack data it describes.
use crate::oid::{ObjectId, ID_LEN};
use crate::pack::cache::DecodeCache;
use crate::pack::data::{pack_bytes_valid, DataError, DataFile};
use crate::pack::decode::{
    base_missing, cache_sound, decode_at, resolve, DecodeError, ExternalBase, ExternalBaseV,
    MAX_CHAIN,
};
use crate::pack::header::{entry_at, lemma_entry_at_bounds, ObjectKind};
use crate::pack::index::{
    has_v2_signature, index_bytes_valid, index_count, index_matches_bytes, index_offset, IndexError, IndexFile,
    IndexV,
};
use vstd::prelude::*;

verus! {

/// Why a bundle could not be opened.
#[derive(Clone, Debug, PartialEq, Eq)]
pub enum Error {
    /// A path that names neither an index (`.idx`) nor a pack (`.pack`).
    InvalidPath(String),
    Pack(DataError),
    Index(IndexError),
    /// The index describes another pack than the data file.
    ChecksumMismatch,
    /// An offset of the index lies outside the pack's entries.
    OffsetOutOfBounds(u32),
}

/// Where an object was found: the pack, its slot in the index, and the size
/// of its entry on disk.
#[derive(Clone, Copy, Debug, PartialEq, Eq, Hash)]
pub struct Location {
    pub pack_id: u32,
    pub index_file_id: u32,
    pub entry_size: usize,
}

impl Location {
    /// The byte range of the entry in its pack, given where it starts.
    pub fn entry_range(&self, pack_offset: u64) -> (r: core::ops::Range<u64>)
        requires
            pack_offset + self.entry_size <= u64::MAX,
        ensures
            r.start == pack_offset,
            r.end == pack_offset + self.entry_size,
    {
        pack_offset..pack_offset + self.entry_size as u64
    }
}

/// A decoded object and where it came from.
pub struct Object {
    pub kind: ObjectKind,
    pub data: Vec<u8>,
    pub pack_location: Option<Location>,
}

/// A pack index and the pack data it describes.
pub struct Bundle {
    /// The pack file corresponding to `index`.
    pub pack: DataFile,
    /// The index file corresponding to `pack`.
    pub index: IndexFile,
}

/// The index names the pack's checksum, and all its offsets lie before the
/// pack's trailer.
pub open spec fn parts_agree(index: IndexV, p: Seq<u8>) -> bool {
    &&& index.pack_checksum == p.subrange(p.len() - ID_LEN, p.len() as int)
    &&& forall|s: int| 0 <= s < index.offsets.len() ==> #[trigger] index.offsets[s] < p.len() - ID_LEN
}

/// The bytes of an index and of a pack that form a bundle.
pub open spec fn bundle_bytes_valid(i: Seq<u8>, p: Seq<u8>) -> bool {
    &&& index_bytes_valid(i)
    &&& pack_bytes_valid(p)
    &&& i.subrange(i.len() - 40, i.len() - 20) == p.subrange(p.len() - ID_LEN, p.len() as int)
    &&& forall|s: int| 0 <= s < index_count(i) ==> #[trigger] index_offset(i, s) < p.len() - ID_LEN
}

/// No bases besides the pack's own.
pub open spec fn no_bases() -> Seq<ExternalBaseV> {
    Seq::empty()
}

impl Bundle {
    /// The index and the pack agree on the pack's checksum, and every offset
    /// of the index lies before the pack's trailer.
    pub open spec fn well_formed(&self) -> bool {
        let p = self.pack.bytes();
        &&& self.index@.well_formed()
        &&& self.pack.well_formed()
        &&& self.index@.pack_checksum == p.subrange(p.len() - ID_LEN, p.len() as int)
        &&& forall|s: int|
            0 <= s < self.index@.offsets.len() ==> #[trigger] self.index@.offsets[s] < p.len() - ID_LEN
    }

    /// What the entry at `slot` decodes to, if anything within the longest
    /// chain.
    pub open spec fn object_at(&self, slot: int) -> Option<(ObjectKind, Seq<u8>, nat)> {
        resolve(
            self.pack.bytes(),
            self.index@.offsets[slot] as int,
            Some(self.index@),
            no_bases(),
            MAX_CHAIN as nat,
        )
    }

    /// Pairs an index with its pack, after checking that they belong together.
    pub fn from_parts(index: IndexFile, pack: DataFile) -> (r: Result<Bundle, Error>)
        requires
            index@.well_formed(),
            pack.well_formed(),
        ensures
            r matches Ok(b) ==> b.well_formed() && b.index@ == index@ && b.pack.bytes() == pack.bytes()
                && b.pack.pack_id() == pack.pack_id(),
            r is Ok <==> parts_agree(index@, pack.bytes()),
            r matches Err(Error::ChecksumMismatch) <==> index@.pack_checksum != pack.bytes().subrange(
                pack.bytes().len() - ID_LEN,
                pack.bytes().len() as int,
            ),
            r matches Err(Error::OffsetOutOfBounds(s)) ==> s < index@.offsets.len()
                && index@.offsets[s as int] >= pack.bytes().len() - ID_LEN,
            r matches Err(e) ==> e is ChecksumMismatch || e is OffsetOutOfBounds,
    {
        let checksum = pack.checksum();
        if !index.pack_checksum().same_as(&checksum) {
            return Err(Error::ChecksumMismatch);
        }
        let limit = pack.data_len() - ID_LEN as u64;
        let n = index.len();
        let mut s: usize = 0;
        while s < n
            invariant
                n == index@.ids.len(),
                index@.well_formed(),
                limit == pack.bytes().len() - ID_LEN,
                index@.pack_checksum == pack.bytes().subrange(pack.bytes().len() - ID_LEN, pack.bytes().len() as int),
                s <= n,
                forall|k: int| 0 <= k < s ==> #[trigger] index@.offsets[k] < limit,
            decreases n - s,
        {
            if index.pack_offset_at_index(s as u32) >= limit {
                return Err(Error::OffsetOutOfBounds(s as u32));
            }
            s = s + 1;
        }
        Ok(Bundle { pack, index })
    }

    /// Opens a bundle from the bytes of its index and of its pack.
    pub fn from_bytes(index_data: &[u8], pack_data: Vec<u8>, pack_id: u32) -> (r: Result<Bundle, Error>)
        ensures
            r matches Ok(b) ==> b.well_formed() && b.pack.bytes() == pack_data@ && b.pack.pack_id() == pack_id
                && index_matches_bytes(b.index@, index_data@),
            r is Ok <==> bundle_bytes_valid(index_data@, pack_data@),
            r matches Err(Error::Index(_)) <==> !index_bytes_valid(index_data@),
            r matches Err(Error::Pack(_)) <==> index_bytes_valid(index_data@) && !pack_bytes_valid(pack_data@),
            r matches Err(Error::InvalidPath(_)) ==> false,
    {
        let index = match IndexFile::from_bytes(index_data) {
            Ok(i) => i,
            Err(e) => return Err(Error::Index(e)),
        };
        let ghost pd = pack_data@;
        let pack = match DataFile::from_bytes(pack_data, pack_id) {
            Ok(p) => p,
            Err(e) => return Err(Error::Pack(e)),
        };
        proof {
            let v = index@;
            if has_v2_signature(index_data@) {
                assert forall|s: int| 0 <= s < v.offsets.len() implies v.offsets[s] == index_offset(index_data@, s) by {}
            } else {
                assert forall|s: int| 0 <= s < v.offsets.len() implies v.offsets[s] == index_offset(index_data@, s) by {}
            }
            assert(parts_agree(v, pd) == bundle_bytes_valid(index_data@, pd));
        }
        Bundle::from_parts(index, pack)
    }

    /// The slot of `id` in the index.
    pub fn internal_find_pack_index(&self, id: &ObjectId) -> (r: Option<u32>)
        requires
            self.well_formed(),
        ensures
            r matches Some(s) ==> self.index@.slot_of(id@) == Some(s as int),
            r is None ==> self.index@.slot_of(id@) is None,
    {
        self.index.lookup(id)
    }

    /// The pack offset of the object `id`, which lies within the pack.
    pub fn lookup_offset(&self, id: &ObjectId) -> (r: Option<u64>)
        requires
            self.well_formed(),
        ensures
            r matches Some(o) ==> o < self.pack.bytes().len() && (self.index@.slot_of(id@) matches Some(s)
                && o == self.index@.offsets[s]),
            r is None ==> self.index@.slot_of(id@) is None,
    {
        match self.index.lookup(id) {
            Some(s) => Some(self.index.pack_offset_at_index(s)),
            None => None,
        }
    }

    /// Where the entry at `slot` lies, given its compressed length `n`.
    pub open spec fn location_of(&self, slot: int, n: nat) -> Location {
        Location {
            pack_id: self.pack.pack_id(),
            index_file_id: slot as u32,
            entry_size: (entry_at(self.pack.bytes(), self.index@.offsets[slot] as int).unwrap().data_offset
                - self.index@.offsets[slot] + n) as usize,
        }
    }

    /// `o` is what slot `slot` decodes to, with its location.
    pub open spec fn is_object_at(&self, slot: int, o: &Object) -> bool {
        self.object_at(slot) matches Some(x) && x.0 == o.kind && x.1 == o.data@ && o.pack_location
            == Some(self.location_of(slot, x.2))
    }

    /// The entry at `slot` is a ref delta whose base this pack does not hold.
    pub open spec fn base_missing_at(&self, slot: int) -> Option<Seq<u8>> {
        base_missing(self.pack.bytes(), self.index@.offsets[slot] as int, Some(self.index@), no_bases())
    }

    /// Decodes the object at `idx`, a slot of the index; ref deltas resolve
    /// within this pack only.
    pub fn internal_get_object_by_index(&self, idx: u32, cache: &mut DecodeCache) -> (r: Result<
        Object,
        DecodeError,
    >)
        requires
            self.well_formed(),
            idx < self.index@.ids.len(),
            cache_sound(old(cache).contents(), self.pack.bytes(), Some(self.index@), no_bases()),
        ensures
            cache_sound(final(cache).contents(), self.pack.bytes(), Some(self.index@), no_bases()),
            final(cache).capacity() == old(cache).capacity(),
            r matches Ok(o) ==> self.is_object_at(idx as int, &o),
            r is Err <==> self.object_at(idx as int) is None,
            self.base_missing_at(idx as int) matches Some(id) ==> (r matches Err(DecodeError::UnresolvedBase(b))
                && b@ == id),
    {
        let ofs = self.index.pack_offset_at_index(idx);
        let no_ext: Vec<ExternalBase> = Vec::new();
        assert(crate::pack::decode::ext_view(no_ext@) =~= no_bases());
        let d = match decode_at(&self.pack, ofs, Some(&self.index), &no_ext, cache, MAX_CHAIN) {
            Ok(d) => d,
            Err(e) => return Err(e),
        };
        let e = match self.pack.entry(ofs) {
            Some(e) => e,
            None => {
                return Err(DecodeError::BadHeader(ofs));
            },
        };
        proof {
            lemma_entry_at_bounds(self.pack.bytes(), ofs as int);
            assert(d.consumed <= self.pack.bytes().len() - e@.data_offset);
        }
        let _len = self.pack.as_slice().len();
        let header_size = (e.data_offset - e.pack_offset) as usize;
        let entry_size = header_size + d.consumed;
        let loc = Location { pack_id: self.pack.id(), index_file_id: idx, entry_size };
        let o = Object { kind: d.kind, data: d.data, pack_location: Some(loc) };
        Ok(o)
    }

    /// Finds the object `id` in this pack.
    ///
    /// `Ok(None)` says that the index does not hold `id`; an error says that
    /// it does but its entry does not decode.
    pub fn find(&self, id: &ObjectId, cache: &mut DecodeCache) -> (r: Result<Option<Object>, DecodeError>)
        requires
            self.well_formed(),
            cache_sound(old(cache).contents(), self.pack.bytes(), Some(self.index@), no_bases()),
        ensures
            cache_sound(final(cache).contents(), self.pack.bytes(), Some(self.index@), no_bases()),
            final(cache).capacity() == old(cache).capacity(),
            r matches Ok(None) <==> self.index@.slot_of(id@) is None,
            r matches Ok(Some(o)) ==> (self.index@.slot_of(id@) matches Some(s) && self.is_object_at(s, &o)),
            r is Err <==> (self.index@.slot_of(id@) matches Some(s) && self.object_at(s) is None),
    {
        let idx = match self.index.lookup(id) {
            Some(idx) => idx,
            None => return Ok(None),
        };
        match self.internal_get_object_by_index(idx, cache) {
            Ok(o) => Ok(Some(o)),
            Err(e) => Err(e),
        }
    }
}

/// Every id that the index of a well-formed bundle holds leads to an offset
/// inside the pack file.
pub proof fn lemma_found_offset_within_pack(b: &Bundle, id: Seq<u8>)
    requires
        b.well_formed(),
        b.index@.slot_of(id) is Some,
    ensures
        b.index@.offsets[b.index@.slot_of(id).unwrap()] < b.pack.bytes().len(),
{
    let s = b.index@.slot_of(id).unwrap();
    assert(0 <= s < b.index@.offsets.len());
}

/// The raw bytes of an entry as they stand in its pack, for copying it into
/// another pack without decoding.
pub struct PackEntry<'a> {
    /// The entry's header followed by its compressed data.
    pub data: &'a [u8],
    /// The checksum over `data` that the index records; version 1 records none.
    pub crc32: Option<u32>,
    /// The version of the pack that holds the entry.
    pub version: u32,
}

impl Bundle {
    /// The raw entry that `location` describes, if it is a location of this
    /// bundle that lies within its pack.
    pub fn pack_entry<'a>(&'a self, location: &Location) -> (r: Option<PackEntry<'a>>)
        requires
            self.well_formed(),
        ensures
            r matches Some(e) ==> location.index_file_id < self.index@.ids.len() && ({
                let off = self.index@.offsets[location.index_file_id as int] as int;
                e.data@ == self.pack.bytes().subrange(off, off + location.entry_size)
                    && (self.index@.version == 2 ==> e.crc32 == Some(self.index@.crc32s[location.index_file_id as int]))
                    && (self.index@.version == 1 ==> e.crc32 is None)
            }),
            r is None ==> location.pack_id != self.pack.pack_id() || location.index_file_id >= self.index@.ids.len()
                || self.index@.offsets[location.index_file_id as int] + location.entry_size > self.pack.bytes().len(),
    {
        if location.pack_id != self.pack.id() || location.index_file_id as usize >= self.index.len() {
            return None;
        }
        let off = self.index.pack_offset_at_index(location.index_file_id);
        let d = self.pack.as_slice();
        if off > d.len() as u64 || location.entry_size > d.len() - off as usize {
            return None;
        }
        let start = off as usize;
        Some(PackEntry {
            data: &d[start..start + location.entry_size],
            crc32: self.index.crc32_at_index(location.index_file_id),
            version: self.pack.version(),
        })
    }
}

/// Two objects found for one slot are the same object at the same place:
/// finding twice, with fresh caches or not, gives identical results.
pub proof fn lemma_found_objects_agree(b: &Bundle, s: int, o1: &Object, o2: &Object)
    requires
        b.is_object_at(s, o1),
        b.is_object_at(s, o2),
    ensures
        o1.kind == o2.kind,
        o1.data@ == o2.data@,
        o1.pack_location == o2.pack_location,
{
}

/// Which file of a bundle a path names.
#[derive(Clone, Copy, Debug, PartialEq, Eq)]
pub enum BundleMember {
    /// The `.idx` file; the pack is its sibling.
    Index,
    /// The `.pack` file; the index is its sibling.
    Pack,
}

/// The file of a bundle that a path with extension `ext` names, if any.
pub fn member_for_extension(ext: &[u8]) -> (r: Option<BundleMember>)
    ensures
        r == Some(BundleMember::Index) <==> ext@ == seq![105u8, 100, 120],
        r == Some(BundleMember::Pack) <==> ext@ == seq![112u8, 97, 99, 107],
{
    if ext.len() == 3 && ext[0] == 105 && ext[1] == 100 && ext[2] == 120 {
        assert(ext@ =~= seq![105u8, 100, 120]);
        Some(BundleMember::Index)
    } else if ext.len() == 4 && ext[0] == 112 && ext[1] == 97 && ext[2] == 99 && ext[3] == 107 {
        assert(ext@ =~= seq![112u8, 97, 99, 107]);
        Some(BundleMember::Pack)
    } else {
        proof {
            if ext@ == seq![105u8, 100, 120] {
                assert(ext@[0] == 105 && ext@[1] == 100 && ext@[2] == 120);
            }
            if ext@ == seq![112u8, 97, 99, 107] {
                assert(ext@[0] == 112 && ext@[1] == 97 && ext@[2] == 99 && ext@[3] == 107);
            }
        }
        None
    }
}

} // verus!
