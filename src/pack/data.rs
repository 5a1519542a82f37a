//! The pack data file: a header, entries one after the other, and a
//! trailing checksum.
use crate::oid::{ObjectId, ID_LEN};
use crate::pack::header::{decode_entry_header, entry_at, Entry};
use crate::pack::index::be_u32;
use vstd::prelude::*;

verus! {

/// Why a pack data file could not be read.
#[derive(Clone, Copy, Debug, PartialEq, Eq)]
pub enum DataError {
    /// The file is too short for its header and trailer.
    Truncated,
    /// The file does not start with `PACK`.
    BadSignature,
    /// The version is neither 2 nor 3.
    UnsupportedVersion(u32),
}

/// The file starts with `PACK`.
pub open spec fn has_pack_signature(d: Seq<u8>) -> bool {
    d.len() >= 4 && d[0] == 0x50 && d[1] == 0x41 && d[2] == 0x43 && d[3] == 0x4b
}

/// The bytes hold a pack header of version 2 or 3 and room for a trailer.
pub open spec fn pack_bytes_valid(d: Seq<u8>) -> bool {
    d.len() >= PACK_HEADER_LEN + ID_LEN && has_pack_signature(d) && (be_u32(d, 4) == 2 || be_u32(d, 4) == 3)
}

/// A pack data file held in memory.
pub struct DataFile {
    data: Vec<u8>,
    id: u32,
}

/// The length of the pack header: signature, version and object count.
pub const PACK_HEADER_LEN: usize = 12;

impl DataFile {
    /// The bytes of the file.
    pub closed spec fn bytes(&self) -> Seq<u8> {
        self.data@
    }

    /// The id under which the pack is known to its database.
    pub closed spec fn pack_id(&self) -> u32 {
        self.id
    }

    /// The id under which the pack is known to its database.
    pub fn id(&self) -> (r: u32)
        ensures
            r == self.pack_id(),
    {
        self.id
    }

    /// A header and a trailer fit.
    pub open spec fn well_formed(&self) -> bool {
        self.bytes().len() >= PACK_HEADER_LEN + ID_LEN
    }

    /// Reads the pack header of `data`, which becomes the pack with id `id`.
    pub fn from_bytes(data: Vec<u8>, id: u32) -> (r: Result<DataFile, DataError>)
        ensures
            r matches Ok(f) ==> f.bytes() == data@ && f.well_formed() && f.pack_id() == id,
            r is Ok <==> pack_bytes_valid(data@),
            r matches Err(DataError::Truncated) <==> data@.len() < PACK_HEADER_LEN + ID_LEN,
            r matches Err(DataError::BadSignature) <==> data@.len() >= PACK_HEADER_LEN + ID_LEN
                && !has_pack_signature(data@),
            r matches Err(DataError::UnsupportedVersion(v)) ==> data@.len() >= PACK_HEADER_LEN + ID_LEN
                && has_pack_signature(data@) && v == be_u32(data@, 4) && v != 2 && v != 3,
    {
        if data.len() < PACK_HEADER_LEN + ID_LEN {
            return Err(DataError::Truncated);
        }
        if !(data[0] == 0x50 && data[1] == 0x41 && data[2] == 0x43 && data[3] == 0x4b) {
            return Err(DataError::BadSignature);
        }
        let version = crate::pack::index::read_be_u32(data.as_slice(), 4);
        if version != 2 && version != 3 {
            return Err(DataError::UnsupportedVersion(version));
        }
        Ok(DataFile { data, id })
    }

    /// The bytes of the file.
    pub fn as_slice(&self) -> (r: &[u8])
        ensures
            r@ == self.bytes(),
    {
        self.data.as_slice()
    }

    /// The length of the file in bytes.
    pub fn data_len(&self) -> (r: u64)
        ensures
            r == self.bytes().len(),
    {
        self.data.len() as u64
    }

    /// The number of objects that the header announces.
    pub fn num_objects(&self) -> (r: u32)
        requires
            self.well_formed(),
        ensures
            r == crate::pack::index::be_u32(self.bytes(), 8),
    {
        crate::pack::index::read_be_u32(self.data.as_slice(), 8)
    }

    /// The pack version that the header gives.
    pub fn version(&self) -> (r: u32)
        requires
            self.well_formed(),
        ensures
            r == crate::pack::index::be_u32(self.bytes(), 4),
    {
        crate::pack::index::read_be_u32(self.data.as_slice(), 4)
    }

    /// The checksum in the pack's trailer.
    pub fn checksum(&self) -> (r: ObjectId)
        requires
            self.well_formed(),
        ensures
            r@ == self.bytes().subrange(self.bytes().len() - ID_LEN, self.bytes().len() as int),
    {
        ObjectId::from_slice_at(self.data.as_slice(), self.data.len() - ID_LEN)
    }

    /// The entry whose header starts at `offset`.
    pub fn entry(&self, offset: u64) -> (r: Option<Entry>)
        ensures
            match r {
                Some(e) => entry_at(self.bytes(), offset as int) == Some(e@),
                None => entry_at(self.bytes(), offset as int) is None,
            },
    {
        decode_entry_header(self.data.as_slice(), offset)
    }
}

} // verus!
