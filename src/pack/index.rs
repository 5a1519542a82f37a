//! The pack index: a sorted table from object id to pack offset, in either
//! of its two layouts.
use crate::oid::{lex_lt, lemma_lex_lt_transitive, lemma_lex_lt_irreflexive, ObjectId, Order, ID_LEN};
use vstd::prelude::*;

verus! {

/// Why an index file could not be read.
#[derive(Clone, Copy, Debug, PartialEq, Eq)]
pub enum IndexError {
    /// The file is shorter or longer than its tables say.
    Truncated,
    /// The version-2 signature or version number is wrong.
    UnsupportedVersion,
    /// The fan-out table does not describe the id table.
    InconsistentFanOut,
    /// The ids are not in strictly increasing order.
    Unsorted,
    /// An offset refers to a missing entry of the 64-bit offset table.
    BadLargeOffset,
}

/// A pack index held in memory.
pub struct IndexFile {
    version: u32,
    fan: Vec<u32>,
    ids: Vec<ObjectId>,
    offsets: Vec<u64>,
    crc32s: Vec<u32>,
    pack_checksum: ObjectId,
}

/// The mathematical form of a pack index.
pub struct IndexV {
    pub version: u32,
    pub fan: Seq<u32>,
    pub ids: Seq<Seq<u8>>,
    pub offsets: Seq<u64>,
    pub crc32s: Seq<u32>,
    pub pack_checksum: Seq<u8>,
}

impl View for IndexFile {
    type V = IndexV;

    closed spec fn view(&self) -> IndexV {
        IndexV {
            version: self.version,
            fan: self.fan@,
            ids: self.ids@.map_values(|o: ObjectId| o@),
            offsets: self.offsets@,
            crc32s: self.crc32s@,
            pack_checksum: self.pack_checksum@,
        }
    }
}

/// The first slot whose id may start with byte `b`.
pub open spec fn fan_low(fan: Seq<u32>, b: u8) -> int {
    if b == 0 {
        0
    } else {
        fan[b - 1] as int
    }
}

impl IndexV {
    /// The tables agree in length, the ids are strictly increasing, and the
    /// fan-out table bounds the slots of each leading byte.
    pub open spec fn well_formed(self) -> bool {
        &&& self.version == 1 || self.version == 2
        &&& self.fan.len() == 256
        &&& self.ids.len() == self.offsets.len()
        &&& self.ids.len() <= u32::MAX
        &&& self.pack_checksum.len() == ID_LEN
        &&& (self.version == 2 ==> self.crc32s.len() == self.ids.len())
        &&& (self.version == 1 ==> self.crc32s.len() == 0)
        &&& forall|k: int| 0 <= k < self.ids.len() ==> (#[trigger] self.ids[k]).len() == ID_LEN
        &&& forall|a: int, b: int|
            0 <= a < b < self.ids.len() ==> lex_lt(#[trigger] self.ids[a], #[trigger] self.ids[b])
        &&& forall|k: int|
            0 <= k < self.ids.len() ==> fan_low(self.fan, (#[trigger] self.ids[k])[0]) <= k
                < self.fan[self.ids[k][0] as int]
        &&& forall|b: int| 0 <= b < 256 ==> (#[trigger] self.fan[b]) <= self.ids.len()
        &&& forall|b: int| 0 < b < 256 ==> self.fan[b - 1] <= #[trigger] self.fan[b]
    }

    /// The slot that holds `id`, if any.
    pub open spec fn slot_of(self, id: Seq<u8>) -> Option<int> {
        if exists|k: int| 0 <= k < self.ids.len() && self.ids[k] == id {
            Some(choose|k: int| 0 <= k < self.ids.len() && self.ids[k] == id)
        } else {
            None
        }
    }
}

#[verifier::opaque]
pub open spec fn be_u32(d: Seq<u8>, p: int) -> u32 {
    ((d[p] as u32) << 24u32) | ((d[p + 1] as u32) << 16u32) | ((d[p + 2] as u32) << 8u32) | (d[p
        + 3] as u32)
}

#[verifier::opaque]
pub open spec fn be_u64(d: Seq<u8>, p: int) -> u64 {
    ((be_u32(d, p) as u64) << 32u64) | (be_u32(d, p + 4) as u64)
}

/// Reads a big-endian `u32` at `p`.
pub fn read_be_u32(d: &[u8], p: usize) -> (r: u32)
    requires
        p + 4 <= d@.len(),
    ensures
        r == be_u32(d@, p as int),
{
    reveal(be_u32);
    ((d[p] as u32) << 24u32) | ((d[p + 1] as u32) << 16u32) | ((d[p + 2] as u32) << 8u32) | (d[p
        + 3] as u32)
}

/// Reads a big-endian `u64` at `p`.
pub fn read_be_u64(d: &[u8], p: usize) -> (r: u64)
    requires
        p + 8 <= d@.len(),
    ensures
        r == be_u64(d@, p as int),
{
    reveal(be_u64);
    let _n = d.len();
    ((read_be_u32(d, p) as u64) << 32u64) | (read_be_u32(d, p + 4) as u64)
}

/// Ids that increase from each slot to the next increase from any slot to
/// any later one.
pub proof fn lemma_sorted_pairwise(ids: Seq<Seq<u8>>)
    requires
        forall|k: int| 0 <= k < ids.len() - 1 ==> lex_lt(#[trigger] ids[k], ids[k + 1]),
    ensures
        forall|a: int, b: int| 0 <= a < b < ids.len() ==> lex_lt(#[trigger] ids[a], #[trigger] ids[b]),
    decreases ids.len(),
{
    if ids.len() > 1 {
        let init = ids.drop_last();
        assert forall|k: int| 0 <= k < init.len() - 1 implies lex_lt(#[trigger] init[k], init[k + 1]) by {
            assert(init[k] == ids[k] && init[k + 1] == ids[k + 1]);
        }
        lemma_sorted_pairwise(init);
        assert forall|a: int, b: int| 0 <= a < b < ids.len() implies lex_lt(
            #[trigger] ids[a],
            #[trigger] ids[b],
        ) by {
            if b < ids.len() - 1 {
                assert(init[a] == ids[a] && init[b] == ids[b]);
            } else if a < b - 1 {
                assert(init[a] == ids[a] && init[b - 1] == ids[b - 1]);
                assert(lex_lt(ids[a], ids[b - 1]));
                assert(lex_lt(ids[b - 1], ids[b]));
                lemma_lex_lt_transitive(ids[a], ids[b - 1], ids[b]);
            }
        }
    }
}

impl IndexFile {
    /// The number of objects in the index.
    pub fn len(&self) -> (r: usize)
        ensures
            r == self@.ids.len(),
    {
        self.ids.len()
    }

    /// The layout version, 1 or 2.
    pub fn version(&self) -> (r: u32)
        ensures
            r == self@.version,
    {
        self.version
    }

    /// The checksum of the pack that the index describes.
    pub fn pack_checksum(&self) -> (r: ObjectId)
        ensures
            r@ == self@.pack_checksum,
    {
        self.pack_checksum
    }

    /// The id at `slot`.
    pub fn id_at_index(&self, slot: u32) -> (r: ObjectId)
        requires
            slot < self@.ids.len(),
        ensures
            r@ == self@.ids[slot as int],
    {
        self.ids[slot as usize]
    }

    /// The pack offset of the entry at `slot`.
    pub fn pack_offset_at_index(&self, slot: u32) -> (r: u64)
        requires
            slot < self@.ids.len(),
            self@.well_formed(),
        ensures
            r == self@.offsets[slot as int],
    {
        self.offsets[slot as usize]
    }

    /// The checksum of the compressed entry at `slot`; version 1 records none.
    pub fn crc32_at_index(&self, slot: u32) -> (r: Option<u32>)
        requires
            slot < self@.ids.len(),
            self@.well_formed(),
        ensures
            self@.version == 1 ==> r is None,
            self@.version == 2 ==> r == Some(self@.crc32s[slot as int]),
    {
        if self.version == 2 {
            Some(self.crc32s[slot as usize])
        } else {
            None
        }
    }

    /// Every id with its pack offset, in slot order.
    pub fn entries(&self) -> (r: Vec<(ObjectId, u64)>)
        requires
            self@.well_formed(),
        ensures
            r@.len() == self@.ids.len(),
            forall|i: int|
                0 <= i < r@.len() ==> (#[trigger] r@[i]).0@ == self@.ids[i] && r@[i].1 == self@.offsets[i],
    {
        let mut r: Vec<(ObjectId, u64)> = Vec::new();
        let mut i: usize = 0;
        while i < self.ids.len()
            invariant
                self@.well_formed(),
                i <= self@.ids.len(),
                r@.len() == i,
                forall|k: int|
                    0 <= k < i ==> (#[trigger] r@[k]).0@ == self@.ids[k] && r@[k].1 == self@.offsets[k],
            decreases self@.ids.len() - i,
        {
            assert(self.ids@[i as int]@ == self@.ids[i as int]);
            r.push((self.ids[i], self.offsets[i]));
            i = i + 1;
        }
        r
    }

    /// The slot that holds `id`: a binary search within the range that the
    /// fan-out table gives for its first byte.
    pub fn lookup(&self, id: &ObjectId) -> (r: Option<u32>)
        requires
            self@.well_formed(),
        ensures
            r matches Some(k) ==> k < self@.ids.len() && self@.ids[k as int] == id@,
            r is None ==> forall|k: int| 0 <= k < self@.ids.len() ==> self@.ids[k] != id@,
            r matches Some(k) ==> self@.slot_of(id@) == Some(k as int),
            r is None ==> self@.slot_of(id@) is None,
    {
        let ghost v = self@;
        let first = id.bytes[0];
        let mut lo: usize = if first == 0 { 0 } else { self.fan[first as usize - 1] as usize };
        let mut hi: usize = self.fan[first as usize] as usize;
        proof {
            assert forall|k: int| 0 <= k < v.ids.len() && v.ids[k] == id@ implies lo <= k < hi by {
                assert(v.ids[k][0] == first);
            }
        }
        while lo < hi
            invariant
                v == self@,
                v.well_formed(),
                hi <= v.ids.len(),
                first == id@[0],
                forall|k: int| 0 <= k < v.ids.len() && v.ids[k] == id@ ==> lo <= k < hi,
            decreases hi - lo,
        {
            let mid = lo + (hi - lo) / 2;
            assert(self.ids@[mid as int]@ == v.ids[mid as int]);
            match self.ids[mid].compare(id) {
                Order::Equal => {
                    proof {
                        assert forall|k: int| 0 <= k < v.ids.len() && v.ids[k] == id@ implies k == mid by {
                            if k < mid {
                                assert(lex_lt(v.ids[k], v.ids[mid as int]));
                            } else if k > mid {
                                assert(lex_lt(v.ids[mid as int], v.ids[k]));
                            }
                            lemma_lex_lt_irreflexive(id@);
                        }
                    }
                    return Some(mid as u32);
                },
                Order::Less => {
                    proof {
                        assert forall|k: int| 0 <= k < v.ids.len() && v.ids[k] == id@ implies mid < k by {
                            if k < mid {
                                lemma_lex_lt_transitive(v.ids[k], v.ids[mid as int], id@);
                            }
                            lemma_lex_lt_irreflexive(id@);
                        }
                    }
                    lo = mid + 1;
                },
                Order::Greater => {
                    proof {
                        assert forall|k: int| 0 <= k < v.ids.len() && v.ids[k] == id@ implies k < mid by {
                            if k > mid {
                                lemma_lex_lt_transitive(id@, v.ids[mid as int], v.ids[k]);
                            }
                            lemma_lex_lt_irreflexive(id@);
                        }
                    }
                    hi = mid;
                },
            }
        }
        None
    }
}

/// The signature that opens a version-2 index.
pub open spec fn has_v2_signature(d: Seq<u8>) -> bool {
    d.len() >= 8 && d[0] == 0xff && d[1] == 0x74 && d[2] == 0x4f && d[3] == 0x63
}

/// The pack offset of slot `i` in a version-2 index of `n` objects.
pub open spec fn v2_offset(d: Seq<u8>, n: int, i: int) -> u64 {
    let o = be_u32(d, 1032 + 24 * n + 4 * i);
    if o & 0x8000_0000 != 0 {
        be_u64(d, 1032 + 28 * n + 8 * ((o & 0x7fff_ffff) as int))
    } else {
        o as u64
    }
}

/// What an index read from `d` holds, table by table.
pub open spec fn index_matches_bytes(v: IndexV, d: Seq<u8>) -> bool {
    let n = v.ids.len() as int;
    &&& n == index_count(d)
    &&& if has_v2_signature(d) {
        &&& v.version == 2
        &&& forall|b: int| 0 <= b < 256 ==> #[trigger] v.fan[b] == be_u32(d, 8 + 4 * b)
        &&& forall|i: int| 0 <= i < n ==> #[trigger] v.ids[i] == d.subrange(1032 + 20 * i, 1032 + 20 * i + 20)
        &&& forall|i: int| 0 <= i < n ==> #[trigger] v.crc32s[i] == be_u32(d, 1032 + 20 * n + 4 * i)
        &&& forall|i: int| 0 <= i < n ==> #[trigger] v.offsets[i] == v2_offset(d, n, i)
        &&& v.pack_checksum == d.subrange(d.len() - 40, d.len() - 20)
    } else {
        &&& v.version == 1
        &&& forall|b: int| 0 <= b < 256 ==> #[trigger] v.fan[b] == be_u32(d, 4 * b)
        &&& forall|i: int| 0 <= i < n ==> #[trigger] v.ids[i] == d.subrange(1028 + 24 * i, 1028 + 24 * i + 20)
        &&& forall|i: int| 0 <= i < n ==> #[trigger] v.offsets[i] == be_u32(d, 1024 + 24 * i) as u64
        &&& v.pack_checksum == d.subrange(d.len() - 40, d.len() - 20)
    }
}

/// The number of objects that the fan-out table announces.
pub open spec fn index_count(d: Seq<u8>) -> int {
    if has_v2_signature(d) {
        be_u32(d, 1028) as int
    } else {
        be_u32(d, 1020) as int
    }
}

/// The pack offset of slot `s` in the index bytes `d`.
pub open spec fn index_offset(d: Seq<u8>, s: int) -> u64 {
    if has_v2_signature(d) {
        v2_offset(d, index_count(d), s)
    } else {
        be_u32(d, 1024 + 24 * s) as u64
    }
}

/// A table that never decreases holds nothing above its last entry.
pub proof fn lemma_monotone_below_last(fan: Seq<u32>, x: int)
    requires
        fan.len() == 256,
        0 <= x < 256,
        forall|y: int| 0 < y < 256 ==> fan[y - 1] <= #[trigger] fan[y],
    ensures
        fan[x] <= fan[255],
    decreases 255 - x,
{
    if x < 255 {
        assert(fan[x] <= fan[x + 1]);
        lemma_monotone_below_last(fan, x + 1);
    }
}

/// The fan-out table at `fan_at` never decreases.
pub open spec fn fan_monotone(d: Seq<u8>, fan_at: int) -> bool {
    forall|b: int| 0 < b < 256 ==> be_u32(d, fan_at + 4 * (b - 1)) <= #[trigger] be_u32(d, fan_at + 4 * b)
}

/// The id in slot `k` of a table at `ids_at` whose rows are `stride` bytes.
pub open spec fn id_bytes(d: Seq<u8>, ids_at: int, stride: int, k: int) -> Seq<u8> {
    d.subrange(ids_at + stride * k, ids_at + stride * k + 20)
}

/// The first slot for ids that start with byte `b`, by the table at `fan_at`.
pub open spec fn fan_low_at(d: Seq<u8>, fan_at: int, b: u8) -> int {
    if b == 0 {
        0
    } else {
        be_u32(d, fan_at + 4 * (b - 1)) as int
    }
}

/// The `n` ids are strictly increasing and each lies in the slot range that
/// the fan-out table gives its first byte.
pub open spec fn ids_valid(d: Seq<u8>, fan_at: int, ids_at: int, stride: int, n: int) -> bool {
    &&& forall|k: int| 0 <= k < n - 1 ==> lex_lt(#[trigger] id_bytes(d, ids_at, stride, k), id_bytes(d, ids_at, stride, k + 1))
    &&& forall|k: int|
        0 <= k < n ==> fan_low_at(d, fan_at, (#[trigger] id_bytes(d, ids_at, stride, k))[0]) <= k < be_u32(
            d,
            fan_at + 4 * id_bytes(d, ids_at, stride, k)[0],
        )
}

/// Every 31-bit offset entry that points into the 64-bit table points at one
/// of its `large_count` entries.
pub open spec fn large_offsets_valid(d: Seq<u8>, n: int, large_count: int) -> bool {
    forall|j: int|
        0 <= j < n ==> (#[trigger] be_u32(d, 1032 + 24 * n + 4 * j)) & 0x8000_0000 != 0 ==> (be_u32(
            d,
            1032 + 24 * n + 4 * j,
        ) & 0x7fff_ffff) < large_count
}

/// The bytes form an index: for version 2, the signature and version, then
/// the fan-out, id, checksum and offset tables, the 64-bit offsets and the
/// trailer, filling the file; for version 1, the fan-out table, the rows of
/// offset and id, and the trailer, filling the file.
pub open spec fn index_bytes_valid(d: Seq<u8>) -> bool {
    if has_v2_signature(d) {
        let n = be_u32(d, 1028) as int;
        &&& be_u32(d, 4) == 2
        &&& d.len() >= 1072
        &&& fan_monotone(d, 8)
        &&& 1072 + 28 * n <= d.len()
        &&& (d.len() - 1072 - 28 * n) % 8 == 0
        &&& ids_valid(d, 8, 1032, 20, n)
        &&& large_offsets_valid(d, n, (d.len() - 1072 - 28 * n) / 8)
    } else {
        let n = be_u32(d, 1020) as int;
        &&& d.len() >= 1064
        &&& fan_monotone(d, 0)
        &&& 1064 + 24 * n == d.len()
        &&& ids_valid(d, 0, 1028, 24, n)
    }
}

fn read_fan(d: &[u8], fan_at: usize) -> (r: Result<Vec<u32>, IndexError>)
    requires
        fan_at + 1024 <= d@.len(),
    ensures
        r matches Ok(fan) ==> fan@.len() == 256 && (forall|x: int|
            0 <= x < 256 ==> #[trigger] fan@[x] == be_u32(d@, fan_at + 4 * x)) && (forall|x: int|
            0 < x < 256 ==> fan@[x - 1] <= #[trigger] fan@[x]) && (forall|x: int|
            0 <= x < 256 ==> (#[trigger] fan@[x]) <= fan@[255]),
        r is Ok <==> fan_monotone(d@, fan_at as int),
{
    let _len = d.len();
    let mut fan: Vec<u32> = Vec::new();
    let mut b: usize = 0;
    while b < 256
        invariant
            fan_at + 1024 <= d@.len(),
            d@.len() <= usize::MAX,
            b <= 256,
            fan@.len() == b,
            forall|x: int| 0 <= x < b ==> #[trigger] fan@[x] == be_u32(d@, fan_at + 4 * x),
            forall|x: int| 0 < x < b ==> fan@[x - 1] <= #[trigger] fan@[x],
        decreases 256 - b,
    {
        let f = read_be_u32(d, fan_at + 4 * b);
        if b > 0 && f < fan[b - 1] {
            assert(be_u32(d@, fan_at + 4 * (b - 1)) > be_u32(d@, fan_at + 4 * b));
            return Err(IndexError::InconsistentFanOut);
        }
        fan.push(f);
        b = b + 1;
    }
    proof {
        assert forall|x: int| 0 <= x < 256 implies (#[trigger] fan@[x]) <= fan@[255] by {
            lemma_monotone_below_last(fan@, x);
        }
        assert forall|x: int| 0 < x < 256 implies be_u32(d@, fan_at + 4 * (x - 1)) <= #[trigger] be_u32(d@, fan_at + 4 * x) by {
            assert(fan@[x - 1] <= fan@[x]);
        }
    }
    Ok(fan)
}

fn read_ids(d: &[u8], fan: &Vec<u32>, fan_at: usize, n: usize, ids_at: usize, stride: usize) -> (r: Result<
    Vec<ObjectId>,
    IndexError,
>)
    requires
        fan@.len() == 256,
        n == fan@[255],
        forall|x: int| 0 <= x < 256 ==> (#[trigger] fan@[x]) <= fan@[255],
        forall|x: int| 0 <= x < 256 ==> #[trigger] fan@[x] == be_u32(d@, fan_at + 4 * x),
        stride >= 20,
        ids_at + stride * n <= d@.len(),
    ensures
        r matches Ok(ids) ==> ids@.len() == n && (forall|k: int|
            0 <= k < n ==> (#[trigger] ids@[k])@ == id_bytes(d@, ids_at as int, stride as int, k))
            && (forall|k: int| 0 <= k < n - 1 ==> lex_lt((#[trigger] ids@[k])@, ids@[k + 1]@))
            && (forall|k: int|
            0 <= k < n ==> fan_low(fan@, (#[trigger] ids@[k])@[0]) <= k < fan@[ids@[k]@[0] as int]),
        r is Ok <==> ids_valid(d@, fan_at as int, ids_at as int, stride as int, n as int),
{
    let _len = d.len();
    let ghost dv = d@;
    let mut ids: Vec<ObjectId> = Vec::new();
    let mut i: usize = 0;
    while i < n
        invariant
            d@.len() <= usize::MAX,
            dv == d@,
            fan@.len() == 256,
            forall|x: int| 0 <= x < 256 ==> #[trigger] fan@[x] == be_u32(d@, fan_at + 4 * x),
            stride >= 20,
            ids_at + stride * n <= d@.len(),
            i <= n,
            ids@.len() == i,
            forall|k: int| 0 <= k < i ==> (#[trigger] ids@[k])@ == id_bytes(d@, ids_at as int, stride as int, k),
            forall|k: int| 0 <= k < i - 1 ==> lex_lt((#[trigger] ids@[k])@, ids@[k + 1]@),
            forall|k: int|
                0 <= k < i ==> fan_low(fan@, (#[trigger] ids@[k])@[0]) <= k < fan@[ids@[k]@[0] as int],
        decreases n - i,
    {
        proof {
            assert(stride * i + stride <= stride * n) by (nonlinear_arith)
                requires i < n;
            assert(stride * i >= 0) by (nonlinear_arith)
                requires i >= 0, stride >= 0;
        }
        let at = ids_at + stride * i;
        let id = ObjectId::from_slice_at(d, at);
        assert(id@ == id_bytes(d@, ids_at as int, stride as int, i as int));
        let first = id.bytes[0];
        let low = if first == 0 { 0 } else { fan[first as usize - 1] };
        assert(low == fan_low_at(d@, fan_at as int, first));
        if (i as u64) < low as u64 || (i as u64) >= fan[first as usize] as u64 {
            assert(!ids_valid(d@, fan_at as int, ids_at as int, stride as int, n as int)) by {
                assert(id_bytes(d@, ids_at as int, stride as int, i as int)[0] == first);
            }
            return Err(IndexError::InconsistentFanOut);
        }
        if i > 0 {
            match ids[i - 1].compare(&id) {
                Order::Less => {},
                _ => {
                    assert(!ids_valid(d@, fan_at as int, ids_at as int, stride as int, n as int)) by {
                        assert(ids@[i - 1]@ == id_bytes(d@, ids_at as int, stride as int, i - 1));
                        assert(!lex_lt(id_bytes(d@, ids_at as int, stride as int, i - 1), id_bytes(d@, ids_at as int, stride as int, (i - 1) + 1)));
                    }
                    return Err(IndexError::Unsorted);
                },
            }
        }
        ids.push(id);
        i = i + 1;
    }
    proof {
        assert forall|k: int| 0 <= k < n - 1 implies lex_lt(#[trigger] id_bytes(d@, ids_at as int, stride as int, k), id_bytes(d@, ids_at as int, stride as int, k + 1)) by {
            assert(ids@[k]@ == id_bytes(d@, ids_at as int, stride as int, k));
            assert(ids@[k + 1]@ == id_bytes(d@, ids_at as int, stride as int, k + 1));
        }
        assert forall|k: int| 0 <= k < n implies fan_low_at(d@, fan_at as int, (#[trigger] id_bytes(d@, ids_at as int, stride as int, k))[0]) <= k < be_u32(
            d@,
            fan_at + 4 * id_bytes(d@, ids_at as int, stride as int, k)[0],
        ) by {
            assert(ids@[k]@ == id_bytes(d@, ids_at as int, stride as int, k));
        }
    }
    Ok(ids)
}

fn read_offsets_v2(d: &[u8], n: usize, tables_end: usize, large_count: usize) -> (r: Result<
    (Vec<u64>, Vec<u32>),
    IndexError,
>)
    requires
        tables_end == 1032 + 28 * n,
        tables_end + 8 * large_count <= d@.len(),
    ensures
        r matches Ok((offsets, crcs)) ==> offsets@.len() == n && crcs@.len() == n && (forall|k: int|
            0 <= k < n ==> #[trigger] offsets@[k] == v2_offset(d@, n as int, k)) && (forall|k: int|
            0 <= k < n ==> #[trigger] crcs@[k] == be_u32(d@, 1032 + 20 * n + 4 * k)),
        r is Ok <==> large_offsets_valid(d@, n as int, large_count as int),
{
    let _len = d.len();
    let mut offsets: Vec<u64> = Vec::new();
    let mut crcs: Vec<u32> = Vec::new();
    let mut j: usize = 0;
    while j < n
        invariant
            d@.len() <= usize::MAX,
            tables_end == 1032 + 28 * n,
            tables_end + 8 * large_count <= d@.len(),
            j <= n,
            offsets@.len() == j,
            crcs@.len() == j,
            forall|k: int| 0 <= k < j ==> #[trigger] offsets@[k] == v2_offset(d@, n as int, k),
            forall|k: int| 0 <= k < j ==> #[trigger] crcs@[k] == be_u32(d@, 1032 + 20 * n + 4 * k),
            forall|k: int|
                0 <= k < j ==> (#[trigger] be_u32(d@, 1032 + 24 * n + 4 * k)) & 0x8000_0000 != 0 ==> (be_u32(
                    d@,
                    1032 + 24 * n + 4 * k,
                ) & 0x7fff_ffff) < large_count,
        decreases n - j,
    {
        let o = read_be_u32(d, 1032 + 24 * n + 4 * j);
        let off = if o & 0x8000_0000 != 0 {
            let li = (o & 0x7fff_ffff) as usize;
            if li >= large_count {
                assert(!large_offsets_valid(d@, n as int, large_count as int)) by {
                    assert(be_u32(d@, 1032 + 24 * n + 4 * j) == o);
                }
                return Err(IndexError::BadLargeOffset);
            }
            read_be_u64(d, tables_end + 8 * li)
        } else {
            o as u64
        };
        offsets.push(off);
        crcs.push(read_be_u32(d, 1032 + 20 * n + 4 * j));
        j = j + 1;
    }
    Ok((offsets, crcs))
}

fn read_offsets_v1(d: &[u8], n: usize) -> (r: Vec<u64>)
    requires
        1024 + 24 * n <= d@.len(),
    ensures
        r@.len() == n,
        forall|k: int| 0 <= k < n ==> #[trigger] r@[k] == be_u32(d@, 1024 + 24 * k) as u64,
{
    let _len = d.len();
    let mut offsets: Vec<u64> = Vec::new();
    let mut j: usize = 0;
    while j < n
        invariant
            d@.len() <= usize::MAX,
            1024 + 24 * n <= d@.len(),
            j <= n,
            offsets@.len() == j,
            forall|k: int| 0 <= k < j ==> #[trigger] offsets@[k] == be_u32(d@, 1024 + 24 * k) as u64,
        decreases n - j,
    {
        offsets.push(read_be_u32(d, 1024 + 24 * j) as u64);
        j = j + 1;
    }
    offsets
}

/// The views of a vector of ids.
pub open spec fn ids_view(ids: Seq<ObjectId>) -> Seq<Seq<u8>> {
    ids.map_values(|o: ObjectId| o@)
}

impl IndexFile {
    /// Puts checked tables together.
    fn assemble(
        version: u32,
        fan: Vec<u32>,
        ids: Vec<ObjectId>,
        offsets: Vec<u64>,
        crc32s: Vec<u32>,
        pack_checksum: ObjectId,
    ) -> (r: IndexFile)
        requires
            version == 1 || version == 2,
            fan@.len() == 256,
            forall|x: int| 0 < x < 256 ==> fan@[x - 1] <= #[trigger] fan@[x],
            forall|x: int| 0 <= x < 256 ==> (#[trigger] fan@[x]) <= fan@[255],
            ids@.len() == fan@[255],
            offsets@.len() == ids@.len(),
            version == 2 ==> crc32s@.len() == ids@.len(),
            version == 1 ==> crc32s@.len() == 0,
            forall|k: int| 0 <= k < ids@.len() - 1 ==> lex_lt((#[trigger] ids@[k])@, ids@[k + 1]@),
            forall|k: int|
                0 <= k < ids@.len() ==> fan_low(fan@, (#[trigger] ids@[k])@[0]) <= k < fan@[ids@[k]@[0] as int],
        ensures
            r@.well_formed(),
            r@.version == version,
            r@.fan == fan@,
            r@.ids == ids_view(ids@),
            r@.offsets == offsets@,
            r@.crc32s == crc32s@,
            r@.pack_checksum == pack_checksum@,
    {
        let idx = IndexFile { version, fan, ids, offsets, crc32s, pack_checksum };
        proof {
            let v = idx@;
            assert(v.ids =~= ids_view(idx.ids@));
            assert forall|k: int| 0 <= k < v.ids.len() - 1 implies lex_lt(#[trigger] v.ids[k], v.ids[k + 1]) by {
                assert(v.ids[k] == idx.ids@[k]@);
                assert(v.ids[k + 1] == idx.ids@[k + 1]@);
            }
            lemma_sorted_pairwise(v.ids);
            assert forall|k: int| 0 <= k < v.ids.len() implies fan_low(v.fan, (#[trigger] v.ids[k])[0]) <= k
                < v.fan[v.ids[k][0] as int] by {
                assert(v.ids[k] == idx.ids@[k]@);
            }
            assert forall|k: int| 0 <= k < v.ids.len() implies (#[trigger] v.ids[k]).len() == ID_LEN by {
                assert(v.ids[k] == idx.ids@[k]@);
            }
        }
        idx
    }

    fn from_bytes_v2(d: &[u8]) -> (r: Result<IndexFile, IndexError>)
        requires
            has_v2_signature(d@),
        ensures
            r matches Ok(idx) ==> idx@.well_formed() && index_matches_bytes(idx@, d@),
            r is Ok <==> index_bytes_valid(d@),
    {
        let len = d.len();
        if read_be_u32(d, 4) != 2 {
            return Err(IndexError::UnsupportedVersion);
        }
        if len < 8 + 1024 + 40 {
            return Err(IndexError::Truncated);
        }
        let fan = match read_fan(d, 8) {
            Ok(f) => f,
            Err(e) => return Err(e),
        };
        let n64 = fan[255] as u64;
        if 1032 + 28 * n64 + 40 > len as u64 {
            return Err(IndexError::Truncated);
        }
        let n = n64 as usize;
        let tables_end = 1032 + 28 * n;
        let rest = len - 40 - tables_end;
        if rest % 8 != 0 {
            return Err(IndexError::Truncated);
        }
        let ids = match read_ids(d, &fan, 8, n, 1032, 20) {
            Ok(ids) => ids,
            Err(e) => return Err(e),
        };
        let (offsets, crc32s) = match read_offsets_v2(d, n, tables_end, rest / 8) {
            Ok(x) => x,
            Err(e) => return Err(e),
        };
        let pack_checksum = ObjectId::from_slice_at(d, len - 40);
        let idx = IndexFile::assemble(2, fan, ids, offsets, crc32s, pack_checksum);
        proof {
            let v = idx@;
            assert forall|i: int| 0 <= i < n implies #[trigger] v.ids[i] == d@.subrange(
                1032 + 20 * i,
                1032 + 20 * i + 20,
            ) by {
                assert(v.ids[i] == ids@[i]@);
            }
        }
        Ok(idx)
    }

    fn from_bytes_v1(d: &[u8]) -> (r: Result<IndexFile, IndexError>)
        requires
            !has_v2_signature(d@),
        ensures
            r matches Ok(idx) ==> idx@.well_formed() && index_matches_bytes(idx@, d@),
            r is Ok <==> index_bytes_valid(d@),
    {
        let len = d.len();
        if len < 1024 + 40 {
            return Err(IndexError::Truncated);
        }
        let fan = match read_fan(d, 0) {
            Ok(f) => f,
            Err(e) => return Err(e),
        };
        let n64 = fan[255] as u64;
        if 1024 + 24 * n64 + 40 != len as u64 {
            return Err(IndexError::Truncated);
        }
        let n = n64 as usize;
        let ids = match read_ids(d, &fan, 0, n, 1028, 24) {
            Ok(ids) => ids,
            Err(e) => return Err(e),
        };
        let offsets = read_offsets_v1(d, n);
        let pack_checksum = ObjectId::from_slice_at(d, len - 40);
        let idx = IndexFile::assemble(1, fan, ids, offsets, Vec::new(), pack_checksum);
        proof {
            let v = idx@;
            assert forall|i: int| 0 <= i < n implies #[trigger] v.ids[i] == d@.subrange(
                1028 + 24 * i,
                1028 + 24 * i + 20,
            ) by {
                assert(v.ids[i] == ids@[i]@);
            }
        }
        Ok(idx)
    }

    /// Reads an index from the bytes of its file, in either layout.
    pub fn from_bytes(d: &[u8]) -> (r: Result<IndexFile, IndexError>)
        ensures
            r matches Ok(idx) ==> idx@.well_formed() && index_matches_bytes(idx@, d@),
            r is Ok <==> index_bytes_valid(d@),
    {
        let len = d.len();
        if len >= 8 && d[0] == 0xff && d[1] == 0x74 && d[2] == 0x4f && d[3] == 0x63 {
            IndexFile::from_bytes_v2(d)
        } else {
            IndexFile::from_bytes_v1(d)
        }
    }
}

} // verus!
