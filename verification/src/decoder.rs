//! The file decoder: from the bytes of a gzip file to its content.
//!
//! A file is decoded whole, in memory, before it is split into lines; the
//! lines keep their terminators.

use flate2::bufread::GzDecoder;
use std::io::Read;
use vstd::prelude::*;

verus! {

/// Why a file could not be processed.
#[derive(Clone, Copy, Debug, PartialEq, Eq)]
pub enum FilterError {
    /// The bytes are not a valid gzip stream: the header is wrong, the
    /// stream is cut short, or it is corrupt.
    Decompression,
}

/// What the gzip decoder makes of `compressed`: the content of the gzip
/// member that it starts with, or `None` where it does not start with a
/// complete and sound member.
pub uninterp spec fn gzip_payload(compressed: Seq<u8>) -> Option<Seq<u8>>;

/// Makes a `flate2::bufread::GzDecoder` over `compressed` with
/// `GzDecoder::new` and reads it to the end with `read_to_end`. What comes
/// out depends on the bytes alone, and `gzip_payload` is its name: the bytes
/// read where the read succeeds, `None` where it fails with any error
/// (a wrong header, a stream cut short, a corrupt stream, a wrong checksum).
/// Nothing more is claimed of it.
#[verifier::external_body]
fn gunzip(compressed: &[u8]) -> (decoded: Option<Vec<u8>>)
    ensures
        match decoded {
            Some(data) => gzip_payload(compressed@) == Some(data@),
            None => gzip_payload(compressed@) is None,
        },
{
    let mut data = Vec::new();
    match GzDecoder::new(compressed).read_to_end(&mut data) {
        Ok(_) => Some(data),
        Err(_) => None,
    }
}

/// Decodes a gzip file held in memory.
pub fn decode(compressed: &[u8]) -> (decoded: Result<Vec<u8>, FilterError>)
    ensures
        match decoded {
            Ok(data) => gzip_payload(compressed@) == Some(data@),
            Err(e) => gzip_payload(compressed@) is None && e == FilterError::Decompression,
        },
{
    match gunzip(compressed) {
        Some(data) => Ok(data),
        None => Err(FilterError::Decompression),
    }
}

} // verus!
