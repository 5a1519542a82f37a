//! Integrity verification: every object of a bundle must decode, hash to
//! the id its index records and, where asked, match its recorded CRC-32.
use crate::digest::{crc32, crc32_of, sha1_digest, sha1_of};
use crate::oid::ObjectId;
use crate::pack::bundle::Bundle;
use crate::pack::bundle::no_bases;
use crate::pack::cache::DecodeCache;
use crate::pack::decode::cache_sound;
use crate::pack::decode::DecodeError;
use crate::pack::header::{entry_at, ObjectKind};
use vstd::prelude::*;

verus! {

/// What verification checks besides the hashes.
#[derive(Clone, Copy, Debug, PartialEq, Eq)]
pub enum Mode {
    /// Object hashes only.
    HashOnly,
    /// Object hashes, and the CRC-32 of each compressed entry where the
    /// index records one.
    HashAndCrc32,
}

/// Why one object failed verification.
#[derive(Clone, Copy, Debug, PartialEq, Eq)]
pub enum VerifyFailure {
    Decode(DecodeError),
    HashMismatch { expected: ObjectId, actual: ObjectId },
    Crc32Mismatch { expected: u32, actual: u32 },
}

/// The result of a verification pass: each failing slot with its failure,
/// in slot order, the number of objects checked, and the decompressed bytes
/// seen (saturating).
pub struct Outcome {
    pub failures: Vec<(u32, VerifyFailure)>,
    pub objects_checked: u32,
    pub decompressed_bytes: u64,
}

pub open spec fn kind_name(k: ObjectKind) -> Seq<u8> {
    match k {
        ObjectKind::Commit => seq![99u8, 111, 109, 109, 105, 116],
        ObjectKind::Tree => seq![116u8, 114, 101, 101],
        ObjectKind::Blob => seq![98u8, 108, 111, 98],
        ObjectKind::Tag => seq![116u8, 97, 103],
    }
}

/// The decimal digits of `n`.
pub open spec fn decimal(n: nat) -> Seq<u8>
    decreases n,
{
    if n < 10 {
        seq![(48 + n) as u8]
    } else {
        decimal(n / 10).push((48 + n % 10) as u8)
    }
}

/// The header that a loose object starts with: kind, a space, the size in
/// decimal, and a zero byte.
pub open spec fn loose_header(k: ObjectKind, size: nat) -> Seq<u8> {
    kind_name(k) + seq![32u8] + decimal(size) + seq![0u8]
}

/// The id of an object: the digest of its loose header and its bytes.
pub open spec fn object_hash(k: ObjectKind, data: Seq<u8>) -> Seq<u8> {
    sha1_of(loose_header(k, data.len()) + data)
}

fn write_decimal(n: u64, out: &mut Vec<u8>)
    ensures
        final(out)@ == old(out)@ + decimal(n as nat),
    decreases n,
{
    if n >= 10 {
        write_decimal(n / 10, out);
    }
    out.push((48 + n % 10) as u8);
    proof {
        if n < 10 {
            assert(n % 10 == n);
        }
    }
    assert(final(out)@ =~= old(out)@ + decimal(n as nat)) by {
        if n >= 10 {
            assert(decimal(n as nat) == decimal((n / 10) as nat).push((48 + n % 10) as u8));
        }
    }
}

/// Appends the loose header of an object of kind `k` and `size` bytes.
pub fn write_loose_header(k: ObjectKind, size: u64, out: &mut Vec<u8>)
    ensures
        final(out)@ == old(out)@ + loose_header(k, size as nat),
{
    let ghost start = out@;
    match k {
        ObjectKind::Commit => {
            out.push(99);
            out.push(111);
            out.push(109);
            out.push(109);
            out.push(105);
            out.push(116);
        },
        ObjectKind::Tree => {
            out.push(116);
            out.push(114);
            out.push(101);
            out.push(101);
        },
        ObjectKind::Blob => {
            out.push(98);
            out.push(108);
            out.push(111);
            out.push(98);
        },
        ObjectKind::Tag => {
            out.push(116);
            out.push(97);
            out.push(103);
        },
    }
    assert(out@ =~= start + kind_name(k));
    out.push(32);
    write_decimal(size, out);
    out.push(0);
    assert(out@ =~= start + loose_header(k, size as nat));
}

/// Computes the id of an object from its kind and bytes.
pub fn compute_hash(k: ObjectKind, data: &[u8]) -> (r: ObjectId)
    ensures
        r@ == object_hash(k, data@),
{
    let mut buf: Vec<u8> = Vec::new();
    write_loose_header(k, data.len() as u64, &mut buf);
    crate::bytes::extend_bytes(&mut buf, data);
    sha1_digest(buf.as_slice())
}

/// What verifying slot `s` of `b` finds wrong, if anything: no decoding, a
/// hash that is not the recorded id, or, where asked and recorded, a CRC-32
/// of the entry's bytes that is not the recorded one.
pub open spec fn slot_fails(b: &Bundle, mode: Mode, s: int) -> bool {
    match b.object_at(s) {
        None => true,
        Some((k, data, n)) => {
            let off = b.index@.offsets[s] as int;
            let size = entry_at(b.pack.bytes(), off).unwrap().data_offset - off + n;
            object_hash(k, data) != b.index@.ids[s] || (mode == Mode::HashAndCrc32 && b.index@.version == 2
                && crc32_of(b.pack.bytes().subrange(off, off + size)) != b.index@.crc32s[s])
        },
    }
}

/// The decompressed size of the object at slot `s`, or 0 where it does
/// not decode.
pub open spec fn decoded_size(b: &Bundle, s: int) -> int {
    match b.object_at(s) {
        Some(x) => x.1.len() as int,
        None => 0,
    }
}

/// The decompressed sizes of the objects in slots `[start, end)`, summed.
pub open spec fn decoded_total(b: &Bundle, start: int, end: int) -> int
    decreases end - start,
{
    if end <= start {
        0
    } else {
        decoded_total(b, start, end - 1) + decoded_size(b, end - 1)
    }
}

pub proof fn lemma_decoded_total_nonneg(b: &Bundle, start: int, end: int)
    ensures
        decoded_total(b, start, end) >= 0,
    decreases end - start,
{
    if end > start {
        lemma_decoded_total_nonneg(b, start, end - 1);
    }
}

pub open spec fn saturate(x: int) -> u64 {
    if x >= u64::MAX {
        u64::MAX
    } else {
        x as u64
    }
}

impl Bundle {
    /// Checks the slots in `[start, end)` one by one, decoding through
    /// `cache`; the failures come in slot order.
    pub fn verify_range(&self, mode: Mode, start: u32, end: u32, cache: &mut DecodeCache) -> (r: Outcome)
        requires
            self.well_formed(),
            start <= end <= self.index@.ids.len(),
            cache_sound(old(cache).contents(), self.pack.bytes(), Some(self.index@), no_bases()),
        ensures
            cache_sound(final(cache).contents(), self.pack.bytes(), Some(self.index@), no_bases()),
            r.decompressed_bytes == saturate(decoded_total(self, start as int, end as int)),
            forall|i: int|
                0 <= i < r.failures@.len() ==> start <= (#[trigger] r.failures@[i]).0 < end
                    && slot_fails(self, mode, r.failures@[i].0 as int),
            forall|i: int, j: int| 0 <= i < j < r.failures@.len() ==> (#[trigger] r.failures@[i]).0 < (#[trigger] r.failures@[j]).0,
            forall|s: int| start <= s < end && #[trigger] slot_fails(self, mode, s) ==> exists|i: int|
                0 <= i < r.failures@.len() && (#[trigger] r.failures@[i]).0 == s,
            r.objects_checked == end - start,
    {
        let mut failures: Vec<(u32, VerifyFailure)> = Vec::new();
        let mut bytes: u64 = 0;
        let mut s: u32 = start;
        while s < end
            invariant
                self.well_formed(),
                start <= s <= end <= self.index@.ids.len(),
                forall|i: int|
                    0 <= i < failures@.len() ==> start <= (#[trigger] failures@[i]).0 < s
                        && slot_fails(self, mode, failures@[i].0 as int),
                forall|i: int, j: int| 0 <= i < j < failures@.len() ==> (#[trigger] failures@[i]).0 < (#[trigger] failures@[j]).0,
                forall|t: int| start <= t < s && slot_fails(self, mode, t) ==> exists|i: int|
                    0 <= i < failures@.len() && (#[trigger] failures@[i]).0 == t,
                cache_sound(cache.contents(), self.pack.bytes(), Some(self.index@), no_bases()),
                bytes == saturate(decoded_total(self, start as int, s as int)),
            decreases end - s,
        {
            let (failure, size) = self.verify_slot(mode, s, cache);
            match failure {
                Some(f) => {
                    let ghost before = failures@;
                    failures.push((s, f));
                    proof {
                        assert forall|t: int| start <= t < s + 1 && slot_fails(self, mode, t) implies exists|i: int|
                            0 <= i < failures@.len() && (#[trigger] failures@[i]).0 == t by {
                            if t < s {
                                let i = choose|i: int| 0 <= i < before.len() && (#[trigger] before[i]).0 == t;
                                assert(failures@[i] == before[i]);
                            } else {
                                assert(failures@[failures@.len() - 1].0 == t);
                            }
                        }
                    }
                },
                None => {},
            }
            let ghost old_bytes = bytes;
            bytes = if size <= u64::MAX - bytes { bytes + size } else { u64::MAX };
            proof {
                let t = decoded_total(self, start as int, s as int);
                lemma_decoded_total_nonneg(self, start as int, s as int);
                assert(decoded_total(self, start as int, s + 1) == t + decoded_size(self, s as int));
                assert(decoded_size(self, s as int) >= 0);
                if t >= u64::MAX {
                    assert(old_bytes == u64::MAX);
                } else {
                    assert(old_bytes == t);
                }
            }
            s = s + 1;
        }
        Outcome { failures, objects_checked: end - start, decompressed_bytes: bytes }
    }

    /// Checks one slot.
    pub fn verify_slot(&self, mode: Mode, s: u32, cache: &mut DecodeCache) -> (r: (Option<VerifyFailure>, u64))
        requires
            self.well_formed(),
            s < self.index@.ids.len(),
            cache_sound(old(cache).contents(), self.pack.bytes(), Some(self.index@), no_bases()),
        ensures
            cache_sound(final(cache).contents(), self.pack.bytes(), Some(self.index@), no_bases()),
            r.0 is Some <==> slot_fails(self, mode, s as int),
            r.1 == decoded_size(self, s as int),
    {
        let o = match self.internal_get_object_by_index(s, cache) {
            Ok(o) => o,
            Err(e) => return (Some(VerifyFailure::Decode(e)), 0),
        };
        let len = o.data.len() as u64;
        let expected = self.index.id_at_index(s);
        let actual = compute_hash(o.kind, o.data.as_slice());
        if !actual.same_as(&expected) {
            return (Some(VerifyFailure::HashMismatch { expected, actual }), len);
        }
        if let Mode::HashAndCrc32 = mode {
            match self.index.crc32_at_index(s) {
                Some(recorded) => {
                    let off = self.index.pack_offset_at_index(s);
                    let size = match o.pack_location {
                        Some(l) => l.entry_size,
                        None => 0,
                    };
                    let d = self.pack.as_slice();
                    proof {
                        crate::pack::header::lemma_entry_at_bounds(self.pack.bytes(), off as int);
                    }
                    if off as usize > d.len() || size > d.len() - off as usize {
                        return (Some(VerifyFailure::Crc32Mismatch { expected: recorded, actual: 0 }), len);
                    }
                    let actual_crc = crc32(&d[off as usize..off as usize + size]);
                    if actual_crc != recorded {
                        return (Some(VerifyFailure::Crc32Mismatch { expected: recorded, actual: actual_crc }), len);
                    }
                },
                None => {},
            }
        }
        (None, len)
    }

    /// Verifies every object of the bundle, decoding through `cache`, and
    /// returns the pack's checksum with the outcome.
    pub fn verify_integrity(&self, mode: Mode, cache: &mut DecodeCache) -> (r: (ObjectId, Outcome))
        requires
            self.well_formed(),
            cache_sound(old(cache).contents(), self.pack.bytes(), Some(self.index@), no_bases()),
        ensures
            cache_sound(final(cache).contents(), self.pack.bytes(), Some(self.index@), no_bases()),
            r.0@ == self.index@.pack_checksum,
            r.1.objects_checked == self.index@.ids.len(),
            r.1.decompressed_bytes == saturate(decoded_total(self, 0, self.index@.ids.len() as int)),
            forall|i: int| 0 <= i < r.1.failures@.len() ==> (#[trigger] r.1.failures@[i]).0 < self.index@.ids.len(),
            forall|i: int, j: int| 0 <= i < j < r.1.failures@.len() ==> (#[trigger] r.1.failures@[i]).0 < (#[trigger] r.1.failures@[j]).0,
            forall|s: int| 0 <= s < self.index@.ids.len() ==> (slot_fails(self, mode, s) <==> exists|i: int|
                0 <= i < r.1.failures@.len() && (#[trigger] r.1.failures@[i]).0 == s),
    {
        let n = self.index.len() as u32;
        assert(n == self.index@.ids.len());
        let outcome = self.verify_range(mode, 0, n, cache);
        let ghost fs = outcome.failures@;
        proof {
            assert forall|s: int| 0 <= s < self.index@.ids.len() && slot_fails(self, mode, s) implies exists|i: int|
                0 <= i < fs.len() && (#[trigger] fs[i]).0 == s by {
                assert(0 <= s < n);
            }
        }
        let r = (self.index.pack_checksum(), outcome);
        assert(r.1.failures@ == fs);
        proof {
            assert forall|s: int, i: int| 0 <= s < self.index@.ids.len() && 0 <= i < r.1.failures@.len() && (#[trigger] r.1.failures@[i]).0 == s implies #[trigger] slot_fails(self, mode, s) by {
                assert(slot_fails(self, mode, r.1.failures@[i].0 as int));
            }
        }
        r
    }
}

/// In a bundle where no slot fails, every entry decodes to bytes whose hash
/// is the id the index records for it.
pub proof fn lemma_verified_objects_hash_to_ids(b: &Bundle, mode: Mode, s: int)
    requires
        0 <= s < b.index@.ids.len(),
        !slot_fails(b, mode, s),
    ensures
        b.object_at(s) matches Some((k, data, n)) && object_hash(k, data) == b.index@.ids[s],
{
}

/// In a version-2 bundle that passes verification with checksums, the CRC-32
/// of every entry's bytes is the one its index records.
pub proof fn lemma_verified_entries_match_crc32(b: &Bundle, s: int)
    requires
        0 <= s < b.index@.ids.len(),
        b.index@.version == 2,
        !slot_fails(b, Mode::HashAndCrc32, s),
    ensures
        b.object_at(s) matches Some((k, data, n)) && ({
            let off = b.index@.offsets[s] as int;
            let size = entry_at(b.pack.bytes(), off).unwrap().data_offset - off + n;
            crc32_of(b.pack.bytes().subrange(off, off + size)) == b.index@.crc32s[s]
        }),
{
}

} // verus!
