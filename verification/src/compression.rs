//! zlib and gzip, as the formats use them.

use std::io::{Read, Write};
use vstd::prelude::*;

verus! {

/// The bytes that zlib inflates `data` to, if `data` is a valid zlib stream.
pub uninterp spec fn zlib_inflate(data: Seq<u8>) -> Option<Seq<u8>>;

/// The zlib stream (default level) that `flate2` deflates `data` to.
pub uninterp spec fn zlib_deflate(data: Seq<u8>) -> Seq<u8>;

/// Whether inflating the stream `data` deflates to gives `data` back (what
/// [`zlib_compress`] states of each input it is given).
pub open spec fn deflate_undone(data: Seq<u8>) -> bool {
    zlib_inflate(zlib_deflate(data)) == Some(data)
}

/// The bytes a gzip (or dictzip) file decompresses to, if it is valid.
pub uninterp spec fn gzip_inflate(data: Seq<u8>) -> Option<Seq<u8>>;

/// Calls `flate2::read::ZlibDecoder::read_to_end`; the result is named.
#[verifier::external_body]
pub(crate) fn zlib_decompress(data: &[u8]) -> (r: Option<Vec<u8>>)
    ensures
        match r {
            Some(v) => zlib_inflate(data@) == Some(v@),
            None => zlib_inflate(data@) is None,
        },
{
    let mut out = Vec::new();
    match flate2::read::ZlibDecoder::new(data).read_to_end(&mut out) {
        Ok(_) => Some(out),
        Err(_) => None,
    }
}

/// Calls `flate2::write::ZlibEncoder` at the default level: the result is
/// named, and inflating it gives `data` back (zlib is lossless). Writing into a
/// `Vec` does not fail.
#[verifier::external_body]
pub(crate) fn zlib_compress(data: &[u8]) -> (r: Vec<u8>)
    ensures
        r@ == zlib_deflate(data@),
        zlib_inflate(r@) == Some(data@),
{
    let mut encoder = flate2::write::ZlibEncoder::new(Vec::new(), flate2::Compression::default());
    encoder.write_all(data).unwrap();
    encoder.finish().unwrap()
}

/// Calls `flate2::read::GzDecoder::read_to_end`; the result is named.
#[verifier::external_body]
pub(crate) fn gzip_decompress(data: &[u8]) -> (r: Option<Vec<u8>>)
    ensures
        match r {
            Some(v) => gzip_inflate(data@) == Some(v@),
            None => gzip_inflate(data@) is None,
        },
{
    let mut out = Vec::new();
    match flate2::read::GzDecoder::new(data).read_to_end(&mut out) {
        Ok(_) => Some(out),
        Err(_) => None,
    }
}

} // verus!
