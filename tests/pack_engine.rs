use git_odb::oid::ObjectId;
use git_odb::pack::bundle::Bundle;
use git_odb::pack::cache::DecodeCache;
use git_odb::pack::data::DataFile;
use git_odb::pack::db::{CompoundDb, Db};
use git_odb::pack::decode::{decode_at, DecodeError, ExternalBase, MAX_CHAIN};
use git_odb::pack::delta::apply_delta_to;
use git_odb::pack::header::{decode_entry_header, EntryHeader, ObjectKind};
use git_odb::pack::index::IndexFile;
use git_odb::pack::output::{Entry as OutEntry, Kind};
use git_odb::pack::verify::{compute_hash, Mode, VerifyFailure};
use git_odb::pack::write::{apply_deltas, Cache, CacheEntry, Entry, Error as WriteError};

fn deflate(data: &[u8]) -> Vec<u8> {
    miniz_oxide::deflate::compress_to_vec_zlib(data, 6)
}

fn sha1(data: &[u8]) -> [u8; 20] {
    sha1_smol::Sha1::from(data).digest().bytes()
}

fn entry_header(kind: u8, size: usize) -> Vec<u8> {
    let mut out = Vec::new();
    let mut c = (kind << 4) | (size & 15) as u8;
    let mut rest = size >> 4;
    while rest > 0 {
        out.push(c | 0x80);
        c = (rest & 0x7f) as u8;
        rest >>= 7;
    }
    out.push(c);
    out
}

fn ofs_distance(mut dist: u64) -> Vec<u8> {
    let mut buf = vec![(dist & 0x7f) as u8];
    dist >>= 7;
    while dist > 0 {
        dist -= 1;
        buf.push(0x80 | (dist & 0x7f) as u8);
        dist >>= 7;
    }
    buf.reverse();
    buf
}

fn base_entry(kind: u8, data: &[u8]) -> Vec<u8> {
    let mut e = entry_header(kind, data.len());
    e.extend(deflate(data));
    e
}

fn ofs_delta_entry(distance: u64, delta: &[u8]) -> Vec<u8> {
    let mut e = entry_header(6, delta.len());
    e.extend(ofs_distance(distance));
    e.extend(deflate(delta));
    e
}

fn ref_delta_entry(base: &[u8; 20], delta: &[u8]) -> Vec<u8> {
    let mut e = entry_header(7, delta.len());
    e.extend_from_slice(base);
    e.extend(deflate(delta));
    e
}

fn loose_id(kind: &str, data: &[u8]) -> [u8; 20] {
    let mut buf = format!("{} {}\0", kind, data.len()).into_bytes();
    buf.extend_from_slice(data);
    sha1(&buf)
}

/// A pack from entries, each placed at the given offset (zero padding in
/// between), with a trailing checksum.
fn pack_with(entries: &[(usize, Vec<u8>)]) -> Vec<u8> {
    let mut p = b"PACK".to_vec();
    p.extend_from_slice(&2u32.to_be_bytes());
    p.extend_from_slice(&(entries.len() as u32).to_be_bytes());
    for (offset, e) in entries {
        assert!(p.len() <= *offset);
        p.resize(*offset, 0);
        p.extend_from_slice(e);
    }
    let sum = sha1(&p);
    p.extend_from_slice(&sum);
    p
}

/// A version-2 index of `(id, offset, crc32)` rows for `pack`.
fn index_v2(rows: &[([u8; 20], u64, u32)], pack: &[u8]) -> Vec<u8> {
    let mut rows = rows.to_vec();
    rows.sort_by(|a, b| a.0.cmp(&b.0));
    let mut d = vec![0xff, 0x74, 0x4f, 0x63, 0, 0, 0, 2];
    for b in 0..256usize {
        let n = rows.iter().filter(|r| (r.0[0] as usize) <= b).count() as u32;
        d.extend_from_slice(&n.to_be_bytes());
    }
    for r in &rows {
        d.extend_from_slice(&r.0);
    }
    for r in &rows {
        d.extend_from_slice(&r.2.to_be_bytes());
    }
    for r in &rows {
        d.extend_from_slice(&(r.1 as u32).to_be_bytes());
    }
    d.extend_from_slice(&pack[pack.len() - 20..]);
    let sum = sha1(&d);
    d.extend_from_slice(&sum);
    d
}

/// A version-1 index of `(id, offset)` rows for `pack`.
fn index_v1(rows: &[([u8; 20], u64)], pack: &[u8]) -> Vec<u8> {
    let mut rows = rows.to_vec();
    rows.sort_by(|a, b| a.0.cmp(&b.0));
    let mut d = Vec::new();
    for b in 0..256usize {
        let n = rows.iter().filter(|r| (r.0[0] as usize) <= b).count() as u32;
        d.extend_from_slice(&n.to_be_bytes());
    }
    for r in &rows {
        d.extend_from_slice(&(r.1 as u32).to_be_bytes());
        d.extend_from_slice(&r.0);
    }
    d.extend_from_slice(&pack[pack.len() - 20..]);
    let sum = sha1(&d);
    d.extend_from_slice(&sum);
    d
}

/// A bundle of blobs laid out one after the other, with a version-2 index.
fn blob_bundle(blobs: &[&[u8]], pack_id: u32) -> (Vec<u8>, Vec<u8>, Vec<[u8; 20]>) {
    let mut entries = Vec::new();
    let mut offset = 12;
    for b in blobs {
        let e = base_entry(3, b);
        let len = e.len();
        entries.push((offset, e));
        offset += len;
    }
    let pack = pack_with(&entries);
    let rows: Vec<_> = blobs
        .iter()
        .zip(&entries)
        .map(|(b, (o, e))| (loose_id("blob", b), *o as u64, crc32fast::hash(e)))
        .collect();
    let ids = rows.iter().map(|r| r.0).collect();
    let idx = index_v2(&rows, &pack);
    let _ = pack_id;
    (idx, pack, ids)
}

const COPY_ONE_TWICE: [u8; 6] = [1, 2, 0x90, 1, 0x90, 1];

#[test]
fn three_entry_scenario() {
    let base = base_entry(3, b"b");
    let delta = ofs_delta_entry(28, &COPY_ONE_TWICE);
    let missing = [0x42u8; 20];
    let thin = ref_delta_entry(&missing, &COPY_ONE_TWICE);
    let pack = pack_with(&[(12, base), (40, delta.clone()), (40 + delta.len(), thin)]);
    let data = DataFile::from_bytes(pack, 0).unwrap();
    let no_bases: Vec<ExternalBase> = Vec::new();

    let mut cache = DecodeCache::never();
    let first = decode_at(&data, 12, None, &no_bases, &mut cache, MAX_CHAIN).ok().unwrap();
    assert_eq!(first.kind, ObjectKind::Blob);
    assert_eq!(first.data, b"b".to_vec());

    let second = decode_at(&data, 40, None, &no_bases, &mut cache, MAX_CHAIN).ok().unwrap();
    assert_eq!(second.kind, ObjectKind::Blob);
    assert_eq!(second.data, b"bb".to_vec());

    let third_offset = 40 + delta.len() as u64;
    match decode_at(&data, third_offset, None, &no_bases, &mut cache, MAX_CHAIN) {
        Err(DecodeError::UnresolvedBase(id)) => assert_eq!(id.bytes, missing),
        _ => panic!("a ref delta without a base must not decode"),
    }
    let bases = vec![ExternalBase { id: ObjectId { bytes: missing }, kind: ObjectKind::Blob, data: b"b".to_vec() }];
    let third = decode_at(&data, third_offset, None, &bases, &mut cache, MAX_CHAIN).ok().unwrap();
    assert_eq!(third.data, b"bb".to_vec());
}

#[test]
fn corrupted_crc_is_reported_for_that_object_only() {
    let (mut idx, pack, ids) = blob_bundle(&[b"one", b"two", b"three"], 1);
    let bundle = Bundle::from_bytes(&idx, pack.clone(), 1).ok().unwrap();
    let (_, clean) = bundle.verify_integrity(Mode::HashAndCrc32, &mut DecodeCache::with_capacity(16));
    assert!(clean.failures.is_empty());

    let target = bundle.internal_find_pack_index(&ObjectId { bytes: ids[1] }).unwrap() as usize;
    let n = ids.len();
    let crc_at = 1032 + 20 * n + 4 * target;
    idx[crc_at + 3] ^= 1;
    let corrupted = Bundle::from_bytes(&idx, pack, 1).ok().unwrap();
    let (checksum, outcome) = corrupted.verify_integrity(Mode::HashAndCrc32, &mut DecodeCache::with_capacity(16));
    assert_eq!(outcome.failures.len(), 1);
    assert_eq!(outcome.failures[0].0 as usize, target);
    assert!(matches!(outcome.failures[0].1, VerifyFailure::Crc32Mismatch { .. }));
    assert_eq!(outcome.objects_checked, 3);
    assert_eq!(checksum.bytes[..], corrupted.pack.as_slice()[corrupted.pack.as_slice().len() - 20..]);

    let (_, hash_only) = corrupted.verify_integrity(Mode::HashOnly, &mut DecodeCache::with_capacity(16));
    assert!(hash_only.failures.is_empty());
}

#[test]
fn lookup_offsets_lie_within_pack() {
    let (idx, pack, ids) = blob_bundle(&[b"alpha", b"beta", b"gamma", b"delta"], 2);
    let len = pack.len() as u64;
    let bundle = Bundle::from_bytes(&idx, pack, 2).ok().unwrap();
    for id in &ids {
        let offset = bundle.lookup_offset(&ObjectId { bytes: *id }).unwrap();
        assert!(offset < len);
    }
    assert!(bundle.lookup_offset(&ObjectId { bytes: [7u8; 20] }).is_none());
}

#[test]
fn base_decodes_the_same_with_and_without_cache() {
    let (idx, pack, ids) = blob_bundle(&[b"cached content"], 3);
    let bundle = Bundle::from_bytes(&idx, pack, 3).ok().unwrap();
    let id = ObjectId { bytes: ids[0] };
    let mut never = DecodeCache::never();
    let plain = bundle.find(&id, &mut never).ok().unwrap().unwrap();
    let mut cache = DecodeCache::with_capacity(8);
    let first = bundle.find(&id, &mut cache).ok().unwrap().unwrap();
    let again = bundle.find(&id, &mut cache).ok().unwrap().unwrap();
    assert_eq!(plain.data, b"cached content".to_vec());
    assert_eq!(first.data, plain.data);
    assert_eq!(again.data, plain.data);
    assert_eq!(again.pack_location, plain.pack_location);
}

#[test]
fn delta_chain_gives_golden_bytes() {
    let base = base_entry(3, b"hello");
    // "hello" -> "hello world": copy 5, insert " world"
    let d1 = [5u8, 11, 0x90, 5, 6, b' ', b'w', b'o', b'r', b'l', b'd'];
    // "hello world" -> "hello world!": copy 11, insert "!"
    let d2 = [11u8, 12, 0x90, 11, 1, b'!'];
    let e1 = ofs_delta_entry(100 - 12, &d1);
    let e2 = ofs_delta_entry(200 - 100, &d2);
    let pack = pack_with(&[(12, base), (100, e1), (200, e2)]);
    let data = DataFile::from_bytes(pack, 0).unwrap();
    let no_bases: Vec<ExternalBase> = Vec::new();
    let mut cache = DecodeCache::with_capacity(4);
    let out = decode_at(&data, 200, None, &no_bases, &mut cache, MAX_CHAIN).ok().unwrap();
    assert_eq!(out.data, b"hello world!".to_vec());
    let mut never = DecodeCache::never();
    let direct = decode_at(&data, 200, None, &no_bases, &mut never, MAX_CHAIN).ok().unwrap();
    assert_eq!(direct.data, out.data);
    let short = decode_at(&data, 200, None, &no_bases, &mut never, 1);
    assert!(matches!(short, Err(DecodeError::ChainTooLong(12)) | Err(DecodeError::ChainTooLong(_))));
}

#[test]
fn verified_bundle_hashes_match_ids() {
    let (idx, pack, ids) = blob_bundle(&[b"x", b"y"], 4);
    let bundle = Bundle::from_bytes(&idx, pack, 4).ok().unwrap();
    let (_, outcome) = bundle.verify_integrity(Mode::HashOnly, &mut DecodeCache::with_capacity(16));
    assert!(outcome.failures.is_empty());
    let mut cache = DecodeCache::never();
    for id in &ids {
        let o = bundle.find(&ObjectId { bytes: *id }, &mut cache).ok().unwrap().unwrap();
        assert_eq!(compute_hash(o.kind, &o.data).bytes, *id);
    }
}

#[test]
fn crc32_of_entries_matches_index() {
    let (idx, pack, _) = blob_bundle(&[b"first", b"second"], 5);
    let bundle = Bundle::from_bytes(&idx, pack, 5).ok().unwrap();
    let (_, outcome) = bundle.verify_integrity(Mode::HashAndCrc32, &mut DecodeCache::with_capacity(16));
    assert!(outcome.failures.is_empty());
    assert_eq!(bundle.index.crc32_at_index(0).is_some(), true);
}

#[test]
fn compound_lookup_prefers_first_inserted_bundle() {
    let (idx1, pack1, ids1) = blob_bundle(&[b"shared", b"only in one"], 10);
    let (idx2, pack2, _) = blob_bundle(&[b"shared"], 20);
    let shared = ObjectId { bytes: ids1[0] };
    let b1 = Bundle::from_bytes(&idx1, pack1.clone(), 10).ok().unwrap();
    let b2 = Bundle::from_bytes(&idx2, pack2.clone(), 20).ok().unwrap();
    let db = CompoundDb { bundles: vec![b1, b2] };
    let found = db.find(&shared).ok().unwrap().unwrap();
    assert_eq!(found.pack_location.unwrap().pack_id, 10);
    assert_eq!(found.data, b"shared".to_vec());

    let b1 = Bundle::from_bytes(&idx1, pack1, 10).ok().unwrap();
    let b2 = Bundle::from_bytes(&idx2, pack2, 20).ok().unwrap();
    let reversed = CompoundDb { bundles: vec![b2, b1] };
    assert_eq!(reversed.find(&shared).ok().unwrap().unwrap().pack_location.unwrap().pack_id, 20);
    assert!(reversed.find(&ObjectId { bytes: [1u8; 20] }).ok().unwrap().is_none());

    let linked = Db { dbs: vec![CompoundDb { bundles: vec![] }, reversed] };
    assert_eq!(linked.find(&shared).ok().unwrap().unwrap().pack_location.unwrap().pack_id, 20);
}

#[test]
fn find_twice_with_fresh_caches_is_identical() {
    let (idx, pack, ids) = blob_bundle(&[b"same every time"], 6);
    let bundle = Bundle::from_bytes(&idx, pack, 6).ok().unwrap();
    let id = ObjectId { bytes: ids[0] };
    let a = bundle.find(&id, &mut DecodeCache::with_capacity(2)).ok().unwrap().unwrap();
    let b = bundle.find(&id, &mut DecodeCache::with_capacity(2)).ok().unwrap().unwrap();
    assert_eq!(a.kind, b.kind);
    assert_eq!(a.data, b.data);
    assert_eq!(a.pack_location, b.pack_location);
    assert!(bundle.find(&ObjectId { bytes: [9u8; 20] }, &mut DecodeCache::never()).ok().unwrap().is_none());
}

#[test]
fn known_blob_hash() {
    let id = compute_hash(ObjectKind::Blob, b"hello\n");
    let expected: [u8; 20] = [
        0xce, 0x01, 0x36, 0x25, 0x03, 0x0b, 0xa8, 0xdb, 0xa9, 0x06, 0xf7, 0x56, 0x96, 0x7f, 0x9e, 0x9c, 0xa3,
        0x94, 0x46, 0x4a,
    ];
    assert_eq!(id.bytes, expected);
}

#[test]
fn entry_headers_decode() {
    let mut d = vec![0u8; 3];
    d.extend(entry_header(3, 1000));
    let e = decode_entry_header(&d, 3).unwrap();
    assert_eq!(e.header, EntryHeader::Base(ObjectKind::Blob));
    assert_eq!(e.decompressed_size, 1000);
    assert_eq!(e.data_offset, 5);
    let mut d = entry_header(6, 7);
    d.extend(ofs_distance(300));
    let e = decode_entry_header(&d, 0).unwrap();
    assert_eq!(e.header, EntryHeader::OfsDelta { base_distance: 300 });
    assert!(decode_entry_header(&[0x50], 0).is_none());
    assert!(decode_entry_header(&[0x90], 0).is_none());
}

#[test]
fn deltas_apply_and_reject() {
    assert_eq!(apply_delta_to(b"b", &COPY_ONE_TWICE), Some(b"bb".to_vec()));
    assert_eq!(apply_delta_to(b"bc", &COPY_ONE_TWICE), None);
    assert_eq!(apply_delta_to(b"b", &[1, 2, 0x90, 2]), None);
    assert_eq!(apply_delta_to(b"b", &[1, 1, 0]), None);
    assert_eq!(apply_delta_to(b"", &[0, 3, 3, b'a', b'b', b'c']), Some(b"abc".to_vec()));
}

#[test]
fn index_version_one_reads() {
    let blobs: [&[u8]; 2] = [b"v1 a", b"v1 b"];
    let mut entries = Vec::new();
    let mut offset = 12;
    for b in &blobs {
        let e = base_entry(3, b);
        let len = e.len();
        entries.push((offset, e));
        offset += len;
    }
    let pack = pack_with(&entries);
    let rows: Vec<_> = blobs.iter().zip(&entries).map(|(b, (o, _))| (loose_id("blob", b), *o as u64)).collect();
    let idx = index_v1(&rows, &pack);
    let file = IndexFile::from_bytes(&idx).ok().unwrap();
    assert_eq!(file.version(), 1);
    assert_eq!(file.len(), 2);
    assert_eq!(file.crc32_at_index(0), None);
    let bundle = Bundle::from_bytes(&idx, pack, 7).ok().unwrap();
    let mut cache = DecodeCache::never();
    let o = bundle.find(&ObjectId { bytes: rows[1].0 }, &mut cache).ok().unwrap().unwrap();
    assert_eq!(o.data, b"v1 b".to_vec());
    let (_, outcome) = bundle.verify_integrity(Mode::HashAndCrc32, &mut DecodeCache::with_capacity(16));
    assert!(outcome.failures.is_empty());
}

#[test]
fn mismatched_index_and_pack_are_refused() {
    let (idx, _, _) = blob_bundle(&[b"left"], 1);
    let (_, other_pack, _) = blob_bundle(&[b"right"], 1);
    assert!(matches!(Bundle::from_bytes(&idx, other_pack, 1), Err(git_odb::pack::bundle::Error::ChecksumMismatch)));
    assert!(IndexFile::from_bytes(&idx[..100]).is_err());
    assert!(DataFile::from_bytes(b"PACX\0\0\0\x02\0\0\0\0aaaaaaaaaaaaaaaaaaaa".to_vec(), 0).is_err());
}

#[test]
fn base_hashes_for_pack_writing() {
    let compressed = deflate(b"from cache");
    let mut caches = std::collections::BTreeMap::new();
    caches.insert(12u64, CacheEntry { cache: Cache::Decompressed(b"plain".to_vec()), borrowed: false });
    caches.insert(40u64, CacheEntry { cache: Cache::Compressed(compressed.clone(), 10), borrowed: true });
    caches.insert(70u64, CacheEntry { cache: Cache::Compressed(compressed, 10), borrowed: false });
    caches.insert(90u64, CacheEntry { cache: Cache::Unset, borrowed: true });
    let bases = vec![
        Entry { pack_offset: 40, kind: ObjectKind::Blob, entry_len: 20 },
        Entry { pack_offset: 12, kind: ObjectKind::Blob, entry_len: 20 },
        Entry { pack_offset: 70, kind: ObjectKind::Blob, entry_len: 20 },
    ];
    let out = apply_deltas(&bases, &mut caches).ok().unwrap();
    assert_eq!(out[0].0, 40);
    assert_eq!(out[0].1.bytes, loose_id("blob", b"from cache"));
    assert_eq!(out[1].1.bytes, loose_id("blob", b"plain"));
    assert_eq!(out[2].1.bytes, loose_id("blob", b"from cache"));
    assert!(matches!(&caches[&40].cache, Cache::Decompressed(b) if b.as_slice() == b"from cache"));
    assert!(matches!(&caches[&70].cache, Cache::Compressed(_, 10)));

    let missing = vec![Entry { pack_offset: 99, kind: ObjectKind::Blob, entry_len: 1 }];
    assert!(matches!(apply_deltas(&missing, &mut caches), Err(WriteError::MissingCacheEntry(99))));
    let unset = vec![Entry { pack_offset: 90, kind: ObjectKind::Blob, entry_len: 1 }];
    assert!(matches!(apply_deltas(&unset, &mut caches), Err(WriteError::Unresolved(90))));
    caches.insert(91u64, CacheEntry { cache: Cache::Compressed(b"not zlib".to_vec(), 3), borrowed: false });
    let broken = vec![Entry { pack_offset: 91, kind: ObjectKind::Blob, entry_len: 1 }];
    assert!(matches!(apply_deltas(&broken, &mut caches), Err(WriteError::Inflate(91))));
}

#[test]
fn raw_pack_entries_copy_out() {
    let (idx, pack, ids) = blob_bundle(&[b"raw entry", b"other"], 8);
    let bundle = Bundle::from_bytes(&idx, pack, 8).ok().unwrap();
    let mut cache = DecodeCache::never();
    let o = bundle.find(&ObjectId { bytes: ids[0] }, &mut cache).ok().unwrap().unwrap();
    let loc = o.pack_location.unwrap();
    let raw = bundle.pack_entry(&loc).unwrap();
    assert_eq!(raw.data, &base_entry(3, b"raw entry")[..]);
    assert_eq!(raw.crc32, Some(crc32fast::hash(raw.data)));
    assert_eq!(raw.version, 2);
    let range = loc.entry_range(12);
    assert_eq!(range.end - range.start, raw.data.len() as u64);
    let foreign = git_odb::pack::bundle::Location { pack_id: 99, ..loc };
    assert!(bundle.pack_entry(&foreign).is_none());
}

#[test]
fn output_entries_compress_and_name_headers() {
    let (idx, pack, ids) = blob_bundle(&[b"to be written"], 9);
    let bundle = Bundle::from_bytes(&idx, pack, 9).ok().unwrap();
    let id = ObjectId { bytes: ids[0] };
    let o = bundle.find(&id, &mut DecodeCache::never()).ok().unwrap().unwrap();
    let mut e = OutEntry::from_data(id, &o).ok().unwrap();
    assert_eq!(e.decompressed_size, 13);
    assert_eq!(miniz_oxide::inflate::decompress_to_vec_zlib(&e.compressed_data).unwrap(), b"to be written".to_vec());
    assert_eq!(e.to_entry_header(2, |_| 0), EntryHeader::Base(ObjectKind::Blob));
    e.entry_kind = Kind::DeltaRef { nth_before: 3 };
    assert_eq!(e.to_entry_header(2, |n| n as u64 * 10), EntryHeader::OfsDelta { base_distance: 30 });
    e.entry_kind = Kind::DeltaOid { id };
    assert_eq!(e.to_entry_header(2, |_| 0), EntryHeader::RefDelta { base_id: id });
}

#[test]
fn index_entries_in_slot_order() {
    let (idx, _, ids) = blob_bundle(&[b"p", b"q", b"r"], 0);
    let file = IndexFile::from_bytes(&idx).ok().unwrap();
    let entries = file.entries();
    assert_eq!(entries.len(), 3);
    let mut sorted = ids.clone();
    sorted.sort();
    for (k, (id, offset)) in entries.iter().enumerate() {
        assert_eq!(id.bytes, sorted[k]);
        assert_eq!(*offset, file.pack_offset_at_index(k as u32));
        assert_eq!(file.lookup(id), Some(k as u32));
    }
}

#[test]
fn bundle_members_by_extension() {
    use_member_check();
}

fn use_member_check() {
    use_member(b"idx", Some(git_odb::pack::bundle::BundleMember::Index));
    use_member(b"pack", Some(git_odb::pack::bundle::BundleMember::Pack));
    use_member(b"txt", None);
    use_member(b"", None);
}

fn use_member(ext: &[u8], expected: Option<git_odb::pack::bundle::BundleMember>) {
    assert_eq!(git_odb::pack::bundle::member_for_extension(ext), expected);
}

#[test]
fn verification_totals() {
    let (idx, pack, _) = blob_bundle(&[b"abc", b"defgh"], 11);
    let bundle = Bundle::from_bytes(&idx, pack, 11).ok().unwrap();
    let (_, outcome) = bundle.verify_integrity(Mode::HashOnly, &mut DecodeCache::never());
    assert_eq!(outcome.objects_checked, 2);
    assert_eq!(outcome.decompressed_bytes, 8);
}

#[test]
fn unresolved_base_in_bundle_is_reported() {
    let missing = [0x42u8; 20];
    let thin = ref_delta_entry(&missing, &COPY_ONE_TWICE);
    let pack = pack_with(&[(12, thin.clone())]);
    let id = [0x10u8; 20];
    let idx = index_v2(&[(id, 12, crc32fast::hash(&thin))], &pack);
    let bundle = Bundle::from_bytes(&idx, pack, 12).ok().unwrap();
    match bundle.find(&ObjectId { bytes: id }, &mut DecodeCache::never()) {
        Err(DecodeError::UnresolvedBase(b)) => assert_eq!(b.bytes, missing),
        _ => panic!("the base is not in this pack"),
    }
}
