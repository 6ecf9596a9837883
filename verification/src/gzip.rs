//! Unpacking gzip data.

use crate::tar::opt_view;
use vstd::prelude::*;

verus! {

/// What a gzip file unpacks to: the data of all its members, one after
/// another; `None` for bytes that are not a gzip file.
pub uninterp spec fn gzip_decoded(input: Seq<u8>) -> Option<Seq<u8>>;

/// Unpacks a gzip file with `flate2::read::MultiGzDecoder`, read to its
/// end through `std::io::Read::read_to_end`.
///
/// Nothing is proved of the decoder.  The contract only names its result:
/// what comes out depends on the input bytes alone, and a decoder that
/// reports an error has produced nothing that is used.
#[verifier::external_body]
pub(crate) fn gunzip(input: &Vec<u8>) -> (r: Option<Vec<u8>>)
    ensures
        opt_view(r) == gzip_decoded(input@),
{
    let mut output: Vec<u8> = Vec::new();
    let mut decoder = flate2::read::MultiGzDecoder::new(&input[..]);
    match std::io::Read::read_to_end(&mut decoder, &mut output) {
        Ok(_) => Some(output),
        Err(_) => None,
    }
}

} // verus!
