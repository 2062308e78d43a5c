//! Zlib streams, as pack files and loose objects store object data.

use std::io::Read;
use std::io::Write;

use deflate::write::ZlibEncoder;
use deflate::Compression;
use flate2::read::ZlibDecoder;
use vstd::prelude::*;

verus! {

/// The zlib stream that the `deflate` crate writes for `data` at its default
/// level.
pub uninterp spec fn zlib_deflate(data: Seq<u8>) -> Seq<u8>;

/// What the `flate2` crate reads from the zlib stream at the start of
/// `data`: the decompressed bytes and the number of bytes of `data` the stream
/// took; `None` when `data` does not start with a complete zlib stream.
pub uninterp spec fn zlib_inflate(data: Seq<u8>) -> Option<(Seq<u8>, nat)>;

/// The zlib stream written for `d` reads back as `d`, whatever bytes follow
/// it, and the reader takes exactly the stream.
pub open spec fn inflates_back(d: Seq<u8>) -> bool {
    forall|rest: Seq<u8>| #[trigger] zlib_inflate(zlib_deflate(d) + rest) == Some((d, zlib_deflate(d).len()))
}

/// Compresses `data` into a zlib stream.
///
/// Trusted: writes `data` into a `deflate::write::ZlibEncoder` over a `Vec`
/// at `Compression::Default` and takes what `finish` returns (writing into a
/// `Vec` does not fail); the contract names that stream, and says that the
/// `flate2` reader of `zlib_decompress` gives `data` back from it and takes
/// exactly its bytes, whatever follows them: a zlib stream is self-delimiting
/// and ends with its checksum, after which the reader stops.
#[verifier::external_body]
pub(crate) fn zlib_compress(data: &[u8]) -> (res: Vec<u8>)
    ensures
        res@ == zlib_deflate(data@),
        forall|rest: Seq<u8>| #[trigger] zlib_inflate(res@ + rest) == Some((data@, res@.len())),
{
    let mut encoder = ZlibEncoder::new(Vec::new(), Compression::Default);
    let _ = encoder.write_all(data);
    match encoder.finish() {
        Ok(v) => v,
        Err(_) => Vec::new(),
    }
}

/// Decompresses the zlib stream at the start of `data`.
///
/// Trusted: reads a `flate2::read::ZlibDecoder` over `data` to its end and
/// returns the output with `total_in`, the number of input bytes the
/// decompressor consumed, which cannot exceed the input; the contract names
/// both.
#[verifier::external_body]
pub(crate) fn zlib_decompress(data: &[u8]) -> (res: Option<(Vec<u8>, usize)>)
    ensures
        match zlib_inflate(data@) {
            Some((out, n)) => res matches Some(r) && r.0@ == out && r.1 == n,
            None => res is None,
        },
        res matches Some(r) ==> r.1 <= data@.len(),
{
    let mut decoder = ZlibDecoder::new(data);
    let mut out = Vec::new();
    match decoder.read_to_end(&mut out) {
        Ok(_) => Some((out, decoder.total_in() as usize)),
        Err(_) => None,
    }
}

} // verus!
