//! Trusted bridges to the compression, encoding and hashing crates, and the
//! names under which their results enter contracts.

use crate::errors::SyncError;
use crate::nums::B256;
use base64::Engine;
use sha3::Digest;
use vstd::prelude::*;

verus! {

/// What gzip decompression yields on a byte sequence: the decompressed
/// bytes, or nothing when the sequence is not a gzip stream.
pub uninterp spec fn gunzip_of(z: Seq<u8>) -> Option<Seq<u8>>;

/// What standard-alphabet, padded base64 decoding yields on a character
/// sequence: the decoded bytes, or nothing when the characters are not a
/// base64 encoding.
pub uninterp spec fn b64_decode_of(s: Seq<char>) -> Option<Seq<u8>>;

/// The keccak-256 digest of a byte sequence.
pub uninterp spec fn keccak_of(b: Seq<u8>) -> B256;

/// Relies on flate2's `GzEncoder`: its output is a gzip stream that
/// decompresses back to the input, and with an in-memory sink — the only
/// error source is the underlying writer — compression cannot fail.
#[verifier::external_body]
pub(crate) fn gzip_compress(b: &Vec<u8>) -> (r: Result<Vec<u8>, SyncError>)
    ensures
        r is Ok,
        r matches Ok(z) ==> gunzip_of(z@) == Some(b@),
{
    let mut enc = flate2::write::GzEncoder::new(Vec::new(), flate2::Compression::default());
    match std::io::Write::write_all(&mut enc, b.as_slice()) {
        Ok(()) => match enc.finish() {
            Ok(z) => Ok(z),
            Err(_) => Err(SyncError::CompressionFailed),
        },
        Err(_) => Err(SyncError::CompressionFailed),
    }
}

/// Relies on flate2's `GzDecoder`: it returns the decompression of a gzip
/// stream and rejects anything else; decompression is a function of the
/// bytes alone.
#[verifier::external_body]
pub(crate) fn gzip_decompress(z: &Vec<u8>) -> (r: Result<Vec<u8>, SyncError>)
    ensures
        match r {
            Ok(d) => gunzip_of(z@) == Some(d@),
            Err(_) => gunzip_of(z@) is None,
        },
{
    let mut dec = flate2::write::GzDecoder::new(Vec::new());
    match std::io::Write::write_all(&mut dec, z.as_slice()) {
        Ok(()) => match dec.finish() {
            Ok(d) => Ok(d),
            Err(_) => Err(SyncError::CompressionFailed),
        },
        Err(_) => Err(SyncError::CompressionFailed),
    }
}

/// Relies on base64's standard engine: encoding yields the unique base64
/// text that decodes back to the input.
#[verifier::external_body]
pub(crate) fn b64_encode(b: &Vec<u8>) -> (r: String)
    ensures
        b64_decode_of(r@) == Some(b@),
{
    base64::engine::general_purpose::STANDARD.encode(b.as_slice())
}

/// Relies on base64's standard engine: decoding is a function of the text
/// alone and rejects text that no byte sequence encodes to.
#[verifier::external_body]
pub(crate) fn b64_decode(s: &str) -> (r: Result<Vec<u8>, SyncError>)
    ensures
        match r {
            Ok(d) => b64_decode_of(s@) == Some(d@),
            Err(_) => b64_decode_of(s@) is None,
        },
{
    match base64::engine::general_purpose::STANDARD.decode(s.as_bytes()) {
        Ok(d) => Ok(d),
        Err(_) => Err(SyncError::EncodingInvalid),
    }
}

/// Relies on sha3's `Keccak256`: the digest depends on the bytes alone.
#[verifier::external_body]
pub(crate) fn keccak256(b: &Vec<u8>) -> (r: B256)
    ensures
        r == keccak_of(b@),
{
    let d = sha3::Keccak256::digest(b.as_slice());
    B256 {
        c0: u64::from_be_bytes(d[0..8].try_into().unwrap()),
        c1: u64::from_be_bytes(d[8..16].try_into().unwrap()),
        c2: u64::from_be_bytes(d[16..24].try_into().unwrap()),
        c3: u64::from_be_bytes(d[24..32].try_into().unwrap()),
    }
}

} // verus!
