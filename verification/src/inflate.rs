//! Inflation of the aggregated image data, through the outside flate2
//! crate's zlib decoder.

use vstd::prelude::*;
use std::io::Read;
use crate::error::PngError;

verus! {

/// What the inflate service yields for a compressed stream: `None` when
/// the stream is rejected as malformed, the inflated bytes otherwise.
/// Zlib decompression of an in-memory buffer is a function of the input
/// bytes alone.
pub uninterp spec fn inflate_of(data: Seq<u8>) -> Option<Seq<u8>>;

/// Decompress a zlib stream.
///
/// Relies on flate2's `read::ZlibDecoder` driven by
/// `std::io::Read::read_to_end`: reading the whole decoder inflates the
/// buffer's zlib stream, deterministically in the input bytes, and
/// reports an error exactly when the stream is malformed.
#[verifier::external_body]
pub(crate) fn decompress(data: &Vec<u8>) -> (r: Result<Vec<u8>, PngError>)
    ensures
        match r {
            Ok(v) => inflate_of(data@) == Some(v@),
            Err(e) => inflate_of(data@) is None && e == PngError::DecompressionFailed,
        },
{
    let mut decompressed: Vec<u8> = Vec::new();
    match flate2::read::ZlibDecoder::new(data.as_slice()).read_to_end(&mut decompressed) {
        Ok(_) => Ok(decompressed),
        Err(_) => Err(PngError::DecompressionFailed),
    }
}

} // verus!
