//! The hashing, checksum and decompression primitives that the pack engine
//! consumes, with names for what they compute.
use crate::oid::ObjectId;
use vstd::prelude::*;

verus! {

/// The SHA-1 digest of `data`.
pub uninterp spec fn sha1_of(data: Seq<u8>) -> Seq<u8>;

/// The CRC-32 (IEEE) checksum of `data`.
pub uninterp spec fn crc32_of(data: Seq<u8>) -> u32;

/// What one zlib decompression of `data` into a buffer of `size` bytes
/// yields: the bytes written and the number of input bytes read, or nothing
/// when the stream is invalid or does not end within the buffer.
pub uninterp spec fn zlib_inflate(data: Seq<u8>, size: nat) -> Option<(Seq<u8>, nat)>;

/// What zlib compression of `data` at `level` yields.
pub uninterp spec fn zlib_deflate(data: Seq<u8>, level: u8) -> Seq<u8>;

/// Relies on `miniz_oxide::deflate::compress_to_vec_zlib`: the zlib stream of
/// the data at the given level.
#[verifier::external_body]
pub(crate) fn deflate(data: &[u8], level: u8) -> (r: Vec<u8>)
    ensures
        r@ == zlib_deflate(data@, level),
{
    miniz_oxide::deflate::compress_to_vec_zlib(data, level)
}

/// Relies on `sha1_smol::Sha1::from(..).digest().bytes()`: the SHA-1 digest
/// of the data.
#[verifier::external_body]
pub(crate) fn sha1_digest(data: &[u8]) -> (r: ObjectId)
    ensures
        r@ == sha1_of(data@),
{
    ObjectId { bytes: sha1_smol::Sha1::from(data).digest().bytes() }
}

/// Relies on `crc32fast::hash`: the CRC-32 checksum of the data.
#[verifier::external_body]
pub(crate) fn crc32(data: &[u8]) -> (r: u32)
    ensures
        r == crc32_of(data@),
{
    crc32fast::hash(data)
}

/// No deflate stream expands its input by more than this factor; a larger
/// declared size cannot be right, and no buffer is made for it.
pub const MAX_EXPANSION: u64 = 1032;

/// Relies on `miniz_oxide::inflate::core::decompress`: one call that reads a
/// zlib stream into a buffer of `size` bytes; on `Done`, the bytes written
/// and the input bytes read.
#[verifier::external_body]
pub(crate) fn inflate_sized(data: &[u8], size: usize) -> (r: Option<(Vec<u8>, usize)>)
    requires
        size <= MAX_EXPANSION * (data@.len() + 1),
    ensures
        r matches Some((v, n)) ==> zlib_inflate(data@, size as nat) == Some((v@, n as nat)),
        r is None ==> zlib_inflate(data@, size as nat) is None,
{
    let mut state = miniz_oxide::inflate::core::DecompressorOxide::new();
    let mut out: Vec<u8> = vec![0u8; size];
    let flags = miniz_oxide::inflate::core::inflate_flags::TINFL_FLAG_PARSE_ZLIB_HEADER
        | miniz_oxide::inflate::core::inflate_flags::TINFL_FLAG_USING_NON_WRAPPING_OUTPUT_BUF;
    let (status, read, written) = miniz_oxide::inflate::core::decompress(&mut state, data, &mut out, 0, flags);
    match status {
        miniz_oxide::inflate::TINFLStatus::Done => {
            out.truncate(written);
            Some((out, read))
        },
        _ => None,
    }
}

} // verus!
