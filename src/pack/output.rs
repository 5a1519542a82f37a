//! Entries about to be written into a new pack.
use crate::digest::{deflate, zlib_deflate};
use crate::oid::ObjectId;
use crate::pack::bundle::Object;
use crate::pack::header::{EntryHeader, ObjectKind};
use vstd::prelude::*;

verus! {

/// The compression level of written entries.
pub const COMPRESSION_LEVEL: u8 = 6;

/// The kind of pack entry to be written.
#[derive(PartialEq, Eq, Debug, Hash, Clone, Copy)]
pub enum Kind {
    /// A complete base object.
    Base,
    /// A delta against the object encountered `nth_before` objects before
    /// (in this iteration); never 0, and 1 means the previous object.
    DeltaRef { nth_before: usize },
    /// A delta against the given object, for thin packs.
    DeltaOid { id: ObjectId },
}

/// Why an entry could not be made.
#[derive(Debug, Clone, Copy, PartialEq, Eq)]
pub enum Error {
    /// The compressor failed.
    ZlibDeflate,
}

/// An entry to be written: its id and kinds, and its compressed data.
pub struct Entry {
    pub id: ObjectId,
    pub object_kind: ObjectKind,
    pub entry_kind: Kind,
    pub decompressed_size: usize,
    pub compressed_data: Vec<u8>,
}

impl Entry {
    /// A base entry for the object `obj` with id `oid`.
    pub fn from_data(oid: ObjectId, obj: &Object) -> (r: Result<Entry, Error>)
        ensures
            r matches Ok(e) ==> e.id == oid && e.object_kind == obj.kind && e.entry_kind == Kind::Base
                && e.decompressed_size == obj.data@.len() && e.compressed_data@ == zlib_deflate(
                obj.data@,
                COMPRESSION_LEVEL,
            ),
            r is Ok,
    {
        Ok(Entry {
            id: oid,
            object_kind: obj.kind,
            entry_kind: Kind::Base,
            decompressed_size: obj.data.len(),
            compressed_data: deflate(obj.data.as_slice(), COMPRESSION_LEVEL),
        })
    }

    /// The pack entry header of version 2 for this entry; `index_to_pack`
    /// turns the position of a delta's base into its backward distance.
    pub fn to_entry_header(&self, version: u32, index_to_pack: impl FnOnce(usize) -> u64) -> (r: EntryHeader)
        requires
            version == 2,
            self.entry_kind matches Kind::DeltaRef { nth_before } ==> index_to_pack.requires((nth_before,)),
        ensures
            self.entry_kind == Kind::Base ==> r == EntryHeader::Base(self.object_kind),
            self.entry_kind matches Kind::DeltaOid { id } ==> r == (EntryHeader::RefDelta { base_id: id }),
            self.entry_kind matches Kind::DeltaRef { nth_before } ==> (r matches EntryHeader::OfsDelta { base_distance }
                && index_to_pack.ensures((nth_before,), base_distance)),
    {
        match self.entry_kind {
            Kind::Base => EntryHeader::Base(self.object_kind),
            Kind::DeltaOid { id } => EntryHeader::RefDelta { base_id: id },
            Kind::DeltaRef { nth_before } => EntryHeader::OfsDelta { base_distance: index_to_pack(nth_before) },
        }
    }
}

} // verus!
