//! The compression adapter: a reversible zlib transform applied to the full
//! encoded object before persistence and undone after retrieval.

use vstd::prelude::*;
use std::io::Read;
use std::io::Write;
use crate::errors::GitError;

verus! {

/// The zlib stream that compressing a byte sequence produces; a function of
/// the input bytes alone, named but not written out here.
pub uninterp spec fn deflate_of(bytes: Seq<u8>) -> Seq<u8>;

/// What inflating a byte sequence yields: the decompressed bytes, or `None`
/// when the input is not a valid zlib stream.
pub uninterp spec fn inflate_of(bytes: Seq<u8>) -> Option<Seq<u8>>;

/// Relies on `flate2::write::ZlibEncoder`: compression is deterministic in
/// the input bytes, and inflating the produced stream gives the input back,
/// for the empty input too.
#[verifier::external_body]
pub(crate) fn zlib_compress(bytes: &Vec<u8>) -> (r: Vec<u8>)
    ensures
        r@ == deflate_of(bytes@),
        inflate_of(r@) == Some(bytes@),
{
    let mut encoder = flate2::write::ZlibEncoder::new(Vec::new(), flate2::Compression::default());
    encoder.write_all(bytes).unwrap();
    encoder.finish().unwrap()
}

/// Relies on `flate2::read::ZlibDecoder`: decompression is deterministic in
/// the input bytes and fails on inputs that are not a complete, valid zlib
/// stream (truncated input, wrong magic bytes, checksum mismatch).
#[verifier::external_body]
pub(crate) fn zlib_decompress(bytes: &[u8]) -> (r: Result<Vec<u8>, GitError>)
    ensures
        match r {
            Ok(v) => inflate_of(bytes@) == Some(v@),
            Err(e) => e == GitError::CorruptStream && inflate_of(bytes@) is None,
        },
{
    let mut decoder = flate2::read::ZlibDecoder::new(bytes);
    let mut out = Vec::new();
    match decoder.read_to_end(&mut out) {
        Ok(_) => Ok(out),
        Err(_) => Err(GitError::CorruptStream),
    }
}

} // verus!
