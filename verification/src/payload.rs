//! Decoding of compressed raw payloads: the two stream formats a flash
//! directive can select besides the sparse format. The decompressors
//! are outside code; their results are named, and everything around
//! them is verified.

use vstd::prelude::*;

use crate::errors::UpdateError;

verus! {

#[verifier::external_type_specification]
#[verifier::external_body]
pub struct ExIoError(std::io::Error);

/// The plain bytes a zstd stream decodes to. Decompression is a
/// function of the compressed bytes alone.
pub uninterp spec fn zstd_plain_of(data: Seq<u8>) -> Seq<u8>;

/// The plain bytes a gzip stream decodes to. Decompression is a
/// function of the compressed bytes alone.
pub uninterp spec fn gzip_plain_of(data: Seq<u8>) -> Seq<u8>;

/// Relies on zstd::stream::decode_all: on success the result is the
/// decompressed content of the input, a function of those bytes alone.
#[verifier::external_body]
fn zstd_decode_all(data: &[u8]) -> (r: Result<Vec<u8>, std::io::Error>)
    ensures
        r matches Ok(v) ==> v@ == zstd_plain_of(data@),
{
    zstd::stream::decode_all(data)
}

/// Relies on flate2::read::GzDecoder and std::io::Read::read_to_end:
/// on success the buffer holds the decompressed content of the input,
/// a function of those bytes alone.
#[verifier::external_body]
fn gzip_decode_all(data: &[u8]) -> (r: Result<Vec<u8>, std::io::Error>)
    ensures
        r matches Ok(v) ==> v@ == gzip_plain_of(data@),
{
    let mut decoder = flate2::read::GzDecoder::new(data);
    let mut out = Vec::new();
    match std::io::Read::read_to_end(&mut decoder, &mut out) {
        Ok(_) => Ok(out),
        Err(e) => Err(e),
    }
}

/// Decompresses a zstd payload. On success the result is the named
/// decompressed content; any decoder failure is `PayloadDecode`.
pub fn decompress_zstd(data: &[u8]) -> (r: Result<Vec<u8>, UpdateError>)
    ensures
        r matches Ok(v) ==> v@ == zstd_plain_of(data@),
        r matches Err(e) ==> e == UpdateError::PayloadDecode,
{
    match zstd_decode_all(data) {
        Ok(v) => Ok(v),
        Err(_) => Err(UpdateError::PayloadDecode),
    }
}

/// Decompresses a gzip payload. On success the result is the named
/// decompressed content; any decoder failure is `PayloadDecode`.
pub fn decompress_gzip(data: &[u8]) -> (r: Result<Vec<u8>, UpdateError>)
    ensures
        r matches Ok(v) ==> v@ == gzip_plain_of(data@),
        r matches Err(e) ==> e == UpdateError::PayloadDecode,
{
    match gzip_decode_all(data) {
        Ok(v) => Ok(v),
        Err(_) => Err(UpdateError::PayloadDecode),
    }
}

} // verus!
