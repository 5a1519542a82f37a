//! The variable-length header in front of each pack entry.
use crate::oid::{ObjectId, ID_LEN};
use vstd::prelude::*;

verus! {

/// The kind of a complete object.
#[derive(Clone, Copy, Debug, PartialEq, Eq, Hash)]
pub enum ObjectKind {
    Commit,
    Tree,
    Blob,
    Tag,
}

/// The decoded header of a pack entry.
#[derive(Clone, Copy, Debug, PartialEq, Eq)]
pub enum EntryHeader {
    /// A complete object of this kind.
    Base(ObjectKind),
    /// A delta against the entry `base_distance` bytes before this one.
    OfsDelta { base_distance: u64 },
    /// A delta against the object with this id.
    RefDelta { base_id: ObjectId },
}

/// A decoded header: what the entry is, its decompressed size, and where its
/// compressed payload starts.
#[derive(Clone, Copy, Debug, PartialEq, Eq)]
pub struct Entry {
    pub header: EntryHeader,
    pub decompressed_size: u64,
    pub data_offset: u64,
    pub pack_offset: u64,
}

/// The most continuation bytes a size may take.
pub const MAX_SIZE_BYTES: u64 = 9;

/// The most bytes a delta distance may take.
pub const MAX_DISTANCE_BYTES: u64 = 9;

/// The continuation bytes of a size: `acc` so far, the next seven bits go
/// to `shift`.
pub open spec fn size_rest(d: Seq<u8>, p: int, acc: u64, shift: u64, fuel: nat) -> Option<(u64, int)>
    decreases fuel,
{
    if p < 0 || p >= d.len() || fuel == 0 || shift >= 64 {
        None
    } else {
        let c = d[p];
        let acc2 = acc | (((c & 0x7f) as u64) << shift);
        if c & 0x80 == 0 {
            Some((acc2, p + 1))
        } else {
            size_rest(d, p + 1, acc2, (shift + 7) as u64, (fuel - 1) as nat)
        }
    }
}

/// The type bits and the decompressed size at `p`, and where they end.
pub open spec fn type_and_size(d: Seq<u8>, p: int) -> Option<(u8, u64, int)> {
    if p < 0 || p >= d.len() {
        None
    } else {
        let c = d[p];
        let kind = (c >> 4u8) & 7u8;
        let low = (c & 15u8) as u64;
        if c & 0x80 == 0 {
            Some((kind, low, p + 1))
        } else {
            match size_rest(d, p + 1, low, 4, MAX_SIZE_BYTES as nat) {
                Some((size, q)) => Some((kind, size, q)),
                None => None,
            }
        }
    }
}

/// The continuation bytes of a delta distance.
pub open spec fn distance_rest(d: Seq<u8>, p: int, acc: u64, fuel: nat) -> Option<(u64, int)>
    decreases fuel,
{
    if p < 0 || p >= d.len() || fuel == 0 || acc >= 0x100_0000_0000_0000 {
        None
    } else {
        let c = d[p];
        let acc2 = (((acc + 1) as u64) << 7u64) | ((c & 0x7f) as u64);
        if c & 0x80 == 0 {
            Some((acc2, p + 1))
        } else {
            distance_rest(d, p + 1, acc2, (fuel - 1) as nat)
        }
    }
}

/// The delta distance at `p`, and where it ends.
pub open spec fn distance_at(d: Seq<u8>, p: int) -> Option<(u64, int)> {
    if p < 0 || p >= d.len() {
        None
    } else {
        let c = d[p];
        let acc = (c & 0x7f) as u64;
        if c & 0x80 == 0 {
            Some((acc, p + 1))
        } else {
            distance_rest(d, p + 1, acc, MAX_DISTANCE_BYTES as nat)
        }
    }
}

pub open spec fn kind_of_type(t: u8) -> Option<ObjectKind> {
    if t == 1 {
        Some(ObjectKind::Commit)
    } else if t == 2 {
        Some(ObjectKind::Tree)
    } else if t == 3 {
        Some(ObjectKind::Blob)
    } else if t == 4 {
        Some(ObjectKind::Tag)
    } else {
        None
    }
}

pub proof fn lemma_size_rest_advances(d: Seq<u8>, p: int, acc: u64, shift: u64, fuel: nat)
    ensures
        size_rest(d, p, acc, shift, fuel) matches Some((_, q)) ==> p < q <= d.len(),
    decreases fuel,
{
    if !(p < 0 || p >= d.len() || fuel == 0 || shift >= 64) {
        let c = d[p];
        let acc2 = acc | (((c & 0x7f) as u64) << shift);
        if c & 0x80 != 0 {
            lemma_size_rest_advances(d, p + 1, acc2, (shift + 7) as u64, (fuel - 1) as nat);
        }
    }
}

pub proof fn lemma_distance_rest_advances(d: Seq<u8>, p: int, acc: u64, fuel: nat)
    ensures
        distance_rest(d, p, acc, fuel) matches Some((_, q)) ==> p < q <= d.len(),
    decreases fuel,
{
    if !(p < 0 || p >= d.len() || fuel == 0 || acc >= 0x100_0000_0000_0000) {
        let c = d[p];
        let acc2 = (((acc + 1) as u64) << 7u64) | ((c & 0x7f) as u64);
        if c & 0x80 != 0 {
            lemma_distance_rest_advances(d, p + 1, acc2, (fuel - 1) as nat);
        }
    }
}

/// The payload of an entry starts after its header and within the pack.
pub proof fn lemma_entry_at_bounds(d: Seq<u8>, p: int)
    ensures
        entry_at(d, p) matches Some(e) ==> p < e.data_offset <= d.len() && e.pack_offset == p,
{
    if p >= 0 && p < d.len() {
        let c = d[p];
        let low = (c & 15u8) as u64;
        lemma_size_rest_advances(d, p + 1, low, 4, MAX_SIZE_BYTES as nat);
        if let Some((t, size, q)) = type_and_size(d, p) {
            if q < d.len() && d[q] & 0x80 != 0 {
                lemma_distance_rest_advances(d, q + 1, (d[q] & 0x7f) as u64, MAX_DISTANCE_BYTES as nat);
            }
        }
    }
}

/// The mathematical form of an entry header.
pub enum HeaderV {
    Base(ObjectKind),
    OfsDelta(u64),
    RefDelta(Seq<u8>),
}

/// The mathematical form of an entry.
pub struct EntryV {
    pub header: HeaderV,
    pub decompressed_size: u64,
    pub data_offset: int,
    pub pack_offset: int,
}

impl View for Entry {
    type V = EntryV;

    open spec fn view(&self) -> EntryV {
        EntryV {
            header: match self.header {
                EntryHeader::Base(k) => HeaderV::Base(k),
                EntryHeader::OfsDelta { base_distance } => HeaderV::OfsDelta(base_distance),
                EntryHeader::RefDelta { base_id } => HeaderV::RefDelta(base_id@),
            },
            decompressed_size: self.decompressed_size,
            data_offset: self.data_offset as int,
            pack_offset: self.pack_offset as int,
        }
    }
}

/// The entry whose header starts at `p` in the pack bytes `d`, if the bytes
/// there form one.
pub open spec fn entry_at(d: Seq<u8>, p: int) -> Option<EntryV> {
    match type_and_size(d, p) {
        None => None,
        Some((t, size, q)) => if t == 6 {
            match distance_at(d, q) {
                Some((dist, r)) => Some(
                    EntryV {
                        header: HeaderV::OfsDelta(dist),
                        decompressed_size: size,
                        data_offset: r,
                        pack_offset: p,
                    },
                ),
                None => None,
            }
        } else if t == 7 {
            if q + ID_LEN <= d.len() {
                Some(
                    EntryV {
                        header: HeaderV::RefDelta(d.subrange(q, q + ID_LEN)),
                        decompressed_size: size,
                        data_offset: q + ID_LEN,
                        pack_offset: p,
                    },
                )
            } else {
                None
            }
        } else {
            match kind_of_type(t) {
                Some(k) => Some(
                    EntryV {
                        header: HeaderV::Base(k),
                        decompressed_size: size,
                        data_offset: q,
                        pack_offset: p,
                    },
                ),
                None => None,
            }
        },
    }
}

fn read_type_and_size(d: &[u8], p: usize) -> (r: Option<(u8, u64, usize)>)
    ensures
        match r {
            Some((t, size, q)) => type_and_size(d@, p as int) == Some((t, size, q as int)),
            None => type_and_size(d@, p as int) is None,
        },
{
    let n = d.len();
    if p >= n {
        return None;
    }
    let c = d[p];
    let kind = (c >> 4u8) & 7u8;
    let low = (c & 15u8) as u64;
    if c & 0x80 == 0 {
        return Some((kind, low, p + 1));
    }
    let mut acc: u64 = low;
    let mut shift: u64 = 4;
    let mut fuel: u64 = MAX_SIZE_BYTES;
    let mut i: usize = p + 1;
    while i < n && fuel > 0 && shift < 64
        invariant
            n == d@.len(),
            p < i <= n,
            kind == (d@[p as int] >> 4u8) & 7u8,
            low == (d@[p as int] & 15u8) as u64,
            d@[p as int] & 0x80 != 0,
            size_rest(d@, p + 1, low, 4, MAX_SIZE_BYTES as nat) == size_rest(
                d@,
                i as int,
                acc,
                shift,
                fuel as nat,
            ),
        decreases fuel,
    {
        let c = d[i];
        let acc2 = acc | (((c & 0x7f) as u64) << shift);
        assert(c == d@[i as int]);
        if c & 0x80 == 0 {
            assert(size_rest(d@, i as int, acc, shift, fuel as nat) == Some((acc2, i as int + 1)));
            return Some((kind, acc2, i + 1));
        }
        acc = acc2;
        shift = shift + 7;
        fuel = fuel - 1;
        i = i + 1;
    }
    None
}

fn read_distance(d: &[u8], p: usize) -> (r: Option<(u64, usize)>)
    ensures
        match r {
            Some((dist, q)) => distance_at(d@, p as int) == Some((dist, q as int)),
            None => distance_at(d@, p as int) is None,
        },
{
    let n = d.len();
    if p >= n {
        return None;
    }
    let c = d[p];
    let first = (c & 0x7f) as u64;
    if c & 0x80 == 0 {
        return Some((first, p + 1));
    }
    let mut acc: u64 = first;
    let mut fuel: u64 = MAX_DISTANCE_BYTES;
    let mut i: usize = p + 1;
    while i < n && fuel > 0 && acc < 0x100_0000_0000_0000
        invariant
            n == d@.len(),
            p < i <= n,
            first == (d@[p as int] & 0x7f) as u64,
            d@[p as int] & 0x80 != 0,
            distance_rest(d@, p + 1, first, MAX_DISTANCE_BYTES as nat) == distance_rest(
                d@,
                i as int,
                acc,
                fuel as nat,
            ),
        decreases fuel,
    {
        let c = d[i];
        let acc2 = ((acc + 1) << 7u64) | ((c & 0x7f) as u64);
        assert(c == d@[i as int]);
        if c & 0x80 == 0 {
            assert(distance_rest(d@, i as int, acc, fuel as nat) == Some((acc2, i as int + 1)));
            return Some((acc2, i + 1));
        }
        acc = acc2;
        fuel = fuel - 1;
        i = i + 1;
    }
    None
}

/// Decodes the header of the entry at `offset` in the pack bytes `d`.
pub fn decode_entry_header(d: &[u8], offset: u64) -> (r: Option<Entry>)
    ensures
        match r {
            Some(e) => entry_at(d@, offset as int) == Some(e@),
            None => entry_at(d@, offset as int) is None,
        },
{
    if offset >= d.len() as u64 {
        return None;
    }
    let p = offset as usize;
    let (t, size, q) = match read_type_and_size(d, p) {
        Some(x) => x,
        None => return None,
    };
    if t == 6 {
        match read_distance(d, q) {
            Some((dist, r)) => Some(
                Entry {
                    header: EntryHeader::OfsDelta { base_distance: dist },
                    decompressed_size: size,
                    data_offset: r as u64,
                    pack_offset: offset,
                },
            ),
            None => None,
        }
    } else if t == 7 {
        if q <= d.len() && ID_LEN <= d.len() - q {
            let id = ObjectId::from_slice_at(d, q);
            Some(
                Entry {
                    header: EntryHeader::RefDelta { base_id: id },
                    decompressed_size: size,
                    data_offset: (q + ID_LEN) as u64,
                    pack_offset: offset,
                },
            )
        } else {
            None
        }
    } else {
        let kind = if t == 1 {
            ObjectKind::Commit
        } else if t == 2 {
            ObjectKind::Tree
        } else if t == 3 {
            ObjectKind::Blob
        } else if t == 4 {
            ObjectKind::Tag
        } else {
            return None;
        };
        Some(
            Entry {
                header: EntryHeader::Base(kind),
                decompressed_size: size,
                data_offset: q as u64,
                pack_offset: offset,
            },
        )
    }
}

} // verus!
