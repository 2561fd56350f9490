//! Gzip helpers for shipping journals. A fjall journal is a ~64 MiB preallocated file that is
//! mostly zeros after a force-flush, so it compresses to a few KB: without this, every captured
//! version would ship the full 64 MiB.

use vstd::prelude::*;
use vstd::string::*;
use std::io::{Read, Write};
use crate::error::Error;

verus! {

/// The gzip stream that the encoder makes of `bytes` at its fast level, if it makes one.
pub uninterp spec fn gzip_stream(bytes: Seq<u8>) -> Option<Seq<u8>>;

/// What the first gzip member of `stream` decodes to, if it is a complete and intact one.
pub uninterp spec fn gunzip_stream(stream: Seq<u8>) -> Option<Seq<u8>>;

/// The bytes begin with a gzip header: the two identification bytes, and the method, deflate. A
/// header has ten bytes at least.
pub open spec fn has_gzip_header(bytes: Seq<u8>) -> bool {
    bytes.len() >= 10 && bytes[0] == 0x1f && bytes[1] == 0x8b && bytes[2] == 8
}

/// No part of the stream that lacks its end decodes to anything.
pub open spec fn decodes_only_whole(stream: Seq<u8>) -> bool {
    forall|n: int| 0 <= n < stream.len() ==> gunzip_stream(#[trigger] stream.take(n)) is None
}

/// `flate2::write::GzEncoder` over a `Vec<u8>`, at `Compression::fast()`: all of `bytes` written,
/// then finished. The stream, or the failure, depends on `bytes` alone. A finished stream decodes to
/// `bytes` again; cut short, it decodes to nothing, since the decoder asks for the whole header, the
/// end of the deflate stream, and the eight bytes of the trailer.
#[verifier::external_body]
fn gz_encode(bytes: &[u8]) -> (r: Result<Vec<u8>, std::io::Error>)
    ensures
        match r {
            Ok(z) => gzip_stream(bytes@) == Some(z@) && gunzip_stream(z@) == Some(bytes@)
                && decodes_only_whole(z@),
            Err(_) => gzip_stream(bytes@) is None,
        },
{
    let mut enc = flate2::write::GzEncoder::new(Vec::new(), flate2::Compression::fast());
    enc.write_all(bytes)?;
    enc.finish()
}

/// `flate2::read::GzDecoder` over `bytes`, read to its end. The outcome depends on `bytes` alone.
/// Bytes without a gzip header are refused.
#[verifier::external_body]
fn gz_decode(bytes: &[u8]) -> (r: Result<Vec<u8>, std::io::Error>)
    ensures
        match r {
            Ok(b) => gunzip_stream(bytes@) == Some(b@) && has_gzip_header(bytes@),
            Err(_) => gunzip_stream(bytes@) is None,
        },
{
    let mut out = Vec::new();
    flate2::read::GzDecoder::new(bytes).read_to_end(&mut out)?;
    Ok(out)
}

fn io_err(what: &str, source: std::io::Error) -> (r: Error)
    ensures
        r matches Error::Io { path, source: s } && path@ == what@ && s == source,
{
    Error::Io { path: what.to_owned(), source }
}

/// Compress `bytes` into a gzip stream. It decompresses to `bytes`, and only as a whole.
pub fn gzip(bytes: &[u8]) -> (r: Result<Vec<u8>, Error>)
    ensures
        match r {
            Ok(z) => gzip_stream(bytes@) == Some(z@) && gunzip_stream(z@) == Some(bytes@)
                && decodes_only_whole(z@),
            Err(e) => gzip_stream(bytes@) is None && (e matches Error::Io { path, .. } && path@
                == "<gzip>"@),
        },
{
    match gz_encode(bytes) {
        Ok(z) => Ok(z),
        Err(e) => Err(io_err("<gzip>", e)),
    }
}

/// Decompress a gzip stream. Bytes without a gzip header are refused, and so is a stream that was
/// cut short.
pub fn gunzip(bytes: &[u8]) -> (r: Result<Vec<u8>, Error>)
    ensures
        match r {
            Ok(b) => gunzip_stream(bytes@) == Some(b@) && has_gzip_header(bytes@),
            Err(e) => gunzip_stream(bytes@) is None && (e matches Error::Io { path, .. } && path@
                == "<gunzip>"@),
        },
{
    match gz_decode(bytes) {
        Ok(b) => Ok(b),
        Err(e) => Err(io_err("<gunzip>", e)),
    }
}

} // verus!
