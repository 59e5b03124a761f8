use vstd::prelude::*;
use std::io::Read;

verus! {

/// The zlib stream that flate2's encoder emits for `s` at the default
/// compression level.
pub uninterp spec fn deflate_of(s: Seq<u8>) -> Seq<u8>;

/// What flate2's decoder makes of `s`: the inflated bytes, or nothing when
/// `s` does not begin with a valid zlib stream.
pub uninterp spec fn inflate_of(s: Seq<u8>) -> Option<Seq<u8>>;

/// Relies on flate2's bufread::ZlibEncoder at the default level: deflation
/// is a deterministic function of the input bytes alone, and zlib is
/// lossless, so inflating the emitted stream gives the input back.
#[verifier::external_body]
pub(crate) fn zlib_compress(data: &Vec<u8>) -> (r: Result<Vec<u8>, ()>)
    ensures
        r matches Ok(c) ==> c@ == deflate_of(data@),
        r matches Ok(c) ==> inflate_of(c@) == Some(data@),
{
    let mut encoder = flate2::bufread::ZlibEncoder::new(&data[..], flate2::Compression::default());
    let mut out = Vec::new();
    match encoder.read_to_end(&mut out) {
        Ok(_) => Ok(out),
        Err(_) => Err(()),
    }
}

/// Relies on flate2's bufread::ZlibDecoder: inflation is a deterministic
/// function of the input bytes alone, and fails exactly on inputs that do
/// not begin with a valid zlib stream.
#[verifier::external_body]
pub(crate) fn zlib_decompress(data: &Vec<u8>) -> (r: Option<Vec<u8>>)
    ensures
        r matches Some(p) ==> inflate_of(data@) == Some(p@),
        r is None ==> inflate_of(data@) is None,
{
    let mut decoder = flate2::bufread::ZlibDecoder::new(&data[..]);
    let mut out = Vec::new();
    match decoder.read_to_end(&mut out) {
        Ok(_) => Some(out),
        Err(_) => None,
    }
}

} // verus!
