//! The digest and compression primitives.  Both are outside computations:
//! their results are named by uninterpreted functions, and only what their
//! documentation plainly promises is assumed of them.

use vstd::prelude::*;

use flate2::Compression;
use flate2::read::ZlibDecoder;
use flate2::write::ZlibEncoder;
use sha1::{Digest, Sha1};
use std::io::Read;
use std::io::Write;

verus! {

/// The 20-byte SHA-1 digest of a byte string: a fixed pure function of the
/// bytes alone, the same in every process and on every machine.
pub uninterp spec fn sha1_of(data: Seq<u8>) -> Seq<u8>;

/// Relies on sha1::Sha1 through the digest trait: `Sha1::digest` hashes the
/// input in one call, and SHA-1 output is always 20 bytes, a pure function
/// of the input bytes.
#[verifier::external_body]
pub fn sha1_digest(data: &Vec<u8>) -> (r: Vec<u8>)
    ensures
        r@ == sha1_of(data@),
        r@.len() == 20,
{
    Sha1::digest(data.as_slice()).to_vec()
}

/// The zlib stream the compressor emits for a byte string at the default
/// level: a pure function of the input bytes for a fixed library version.
pub uninterp spec fn zlib_of(data: Seq<u8>) -> Seq<u8>;

/// Relies on flate2's write::ZlibEncoder: compressing into a `Vec` sink
/// cannot fail (`Write` for `Vec<u8>` never errors), and the emitted
/// stream depends on the input bytes alone at a fixed compression level.
#[verifier::external_body]
pub fn zlib_compress(data: &Vec<u8>) -> (r: Vec<u8>)
    ensures
        r@ == zlib_of(data@),
{
    let mut enc = ZlibEncoder::new(Vec::new(), Compression::default());
    enc.write_all(data.as_slice()).expect("writing to a Vec cannot fail");
    enc.finish().expect("writing to a Vec cannot fail")
}

/// What the decompressor reads out of a byte string, or nothing for a
/// corrupt stream: a pure function of the bytes for a fixed library
/// version.
pub uninterp spec fn zlib_reading(data: Seq<u8>) -> Option<Seq<u8>>;

/// Relies on flate2's read::ZlibDecoder: decompression is deterministic,
/// zlib compression is lossless — so a stream the encoder produced reads
/// back as exactly the bytes it was given — and corrupt input surfaces as
/// an error, reported here as `None`.
#[verifier::external_body]
pub fn zlib_decompress(data: &Vec<u8>) -> (r: Option<Vec<u8>>)
    ensures
        r is Some ==> zlib_reading(data@) == Some(r->0@),
        r is None ==> zlib_reading(data@) is None,
        forall|x: Seq<u8>| data@ == zlib_of(x) ==> r is Some && r->0@ == x,
{
    let mut dec = ZlibDecoder::new(data.as_slice());
    let mut out = Vec::new();
    match dec.read_to_end(&mut out) {
        Ok(_) => Some(out),
        Err(_) => None,
    }
}

} // verus!
