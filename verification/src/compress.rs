//! Gzip and zstd codecs over in-memory byte streams.
//!
//! Compression output is not pinned down: it may differ between builds of
//! the codec libraries. What every caller needs — and what is promised — is
//! that decompressing the output yields the input again.

use vstd::prelude::*;
use std::io::Read;
use std::io::Write;
use crate::errors::BuildError;

verus! {

/// What gzip decompression yields on a byte stream: a function of the input
/// bytes alone.
pub uninterp spec fn gunzip_of(data: Seq<u8>) -> Seq<u8>;

/// What zstd decompression yields on a byte stream: a function of the input
/// bytes alone.
pub uninterp spec fn unzstd_of(data: Seq<u8>) -> Seq<u8>;

/// Relies on flate2::read::GzDecoder: reads one gzip member and yields the
/// decompressed bytes, a function of the input bytes alone; errors on
/// malformed input.
#[verifier::external_body]
pub fn gzip_decompress(data: &[u8]) -> (r: Result<Vec<u8>, BuildError>)
    ensures
        r is Ok ==> r->Ok_0@ == gunzip_of(data@),
{
    let mut out = Vec::new();
    let mut dec = flate2::read::GzDecoder::new(data);
    match dec.read_to_end(&mut out) {
        Ok(_) => Ok(out),
        Err(_) => Err(BuildError::Codec),
    }
}

/// Relies on zstd::stream::read::Decoder: decodes the zstd frames of the
/// input, a function of the input bytes alone; errors on malformed input.
#[verifier::external_body]
pub fn zstd_decompress(data: &[u8]) -> (r: Result<Vec<u8>, BuildError>)
    ensures
        r is Ok ==> r->Ok_0@ == unzstd_of(data@),
{
    let mut out = Vec::new();
    let dec = zstd::stream::read::Decoder::new(data);
    match dec.and_then(|mut d| d.read_to_end(&mut out)) {
        Ok(_) => Ok(out),
        Err(_) => Err(BuildError::Codec),
    }
}

/// Relies on flate2::write::GzEncoder: compresses to a gzip stream that
/// gzip decompression takes back to the input. Levels 0 to 9 are the
/// documented range.
#[verifier::external_body]
pub fn gzip_compress(data: &[u8], level: u32) -> (r: Result<Vec<u8>, BuildError>)
    requires
        level <= 9,
    ensures
        r is Ok ==> gunzip_of(r->Ok_0@) == data@,
{
    let mut enc = flate2::write::GzEncoder::new(
        Vec::new(),
        flate2::Compression::new(level),
    );
    match enc.write_all(data).and_then(|_| enc.finish()) {
        Ok(out) => Ok(out),
        Err(_) => Err(BuildError::Codec),
    }
}

/// Relies on zstd::stream::write::Encoder with multithreaded workers:
/// compresses to zstd frames that zstd decompression takes back to the
/// input, whatever the worker count; errors on an unsupported level.
#[verifier::external_body]
pub fn zstd_compress(data: &[u8], level: i32, workers: u32) -> (r: Result<
    Vec<u8>,
    BuildError,
>)
    ensures
        r is Ok ==> unzstd_of(r->Ok_0@) == data@,
{
    let enc = zstd::stream::write::Encoder::new(Vec::new(), level);
    let out = enc.and_then(|mut e| {
        e.multithread(workers)?;
        e.write_all(data)?;
        e.finish()
    });
    match out {
        Ok(out) => Ok(out),
        Err(_) => Err(BuildError::Codec),
    }
}

} // verus!
