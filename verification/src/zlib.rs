//! zlib streams, as GRF archives store their file tables and entries, through
//! the `flate2` crate.
use std::io::{Read, Write};
use vstd::prelude::*;

verus! {

/// `std::io::Error`, the error the decoder reports; carried, never looked into.
#[verifier::external_type_specification]
#[verifier::external_body]
pub struct ExIoError(std::io::Error);

/// What reading a `flate2::bufread::ZlibDecoder` over `stream` to its end
/// yields: the inflated bytes, or `None` when the decoder reports an error.
pub uninterp spec fn zlib_inflated(stream: Seq<u8>) -> Option<Seq<u8>>;

/// What a `flate2::write::ZlibEncoder` at compression level 9 writes for
/// `plain` once finished.
pub uninterp spec fn zlib_deflated_best(plain: Seq<u8>) -> Seq<u8>;

/// Inflates with `flate2::bufread::ZlibDecoder::new` and
/// `std::io::Read::read_to_end`. The contract claims that the outcome is a
/// function of the input bytes alone, named `zlib_inflated`: the bytes read
/// on success, `None` when the call returns an error.
#[verifier::external_body]
pub(crate) fn zlib_inflate(stream: &[u8]) -> (r: Result<Vec<u8>, std::io::Error>)
    ensures
        match r {
            Ok(v) => zlib_inflated(stream@) == Some(v@),
            Err(_) => zlib_inflated(stream@) is None,
        },
{
    let mut out = Vec::new();
    match flate2::bufread::ZlibDecoder::new(stream).read_to_end(&mut out) {
        Ok(_) => Ok(out),
        Err(e) => Err(e),
    }
}

/// Deflates with `flate2::write::ZlibEncoder::new` over a `Vec<u8>` at
/// `flate2::Compression::new(9)`, then `write_all` and `finish`. The contract
/// claims that the calls succeed: the encoder's errors come only from the
/// writer it wraps, and writing into a `Vec` never fails. It claims that the
/// stream is a function of the input bytes alone, named `zlib_deflated_best`,
/// and that it is a zlib stream of those bytes: inflating it gives them back.
#[verifier::external_body]
pub(crate) fn zlib_deflate_best(plain: &[u8]) -> (r: Option<Vec<u8>>)
    ensures
        r is Some,
        r matches Some(v) ==> v@ == zlib_deflated_best(plain@),
        r matches Some(v) ==> zlib_inflated(v@) == Some(plain@),
{
    let mut encoder = flate2::write::ZlibEncoder::new(Vec::new(), flate2::Compression::new(9));
    match encoder.write_all(plain) {
        Ok(()) => {},
        Err(_) => return None,
    }
    match encoder.finish() {
        Ok(v) => Some(v),
        Err(_) => None,
    }
}

} // verus!
