//! The decompression boundary of the pipeline: standalone bzip2 streams.

use vstd::prelude::*;
use std::io::Read;

verus! {

/// The plain bytes that bzip2 decompression assigns to the compressed
/// stream `c`: a function of those bytes alone.
pub uninterp spec fn bz_plain_of(c: Seq<u8>) -> Seq<u8>;

/// Whether bzip2 decompression of `c` succeeds: like its result, a
/// function of those bytes alone.
pub uninterp spec fn bz_ok_of(c: Seq<u8>) -> bool;

/// Relies on bzip2's `read::BzDecoder`: reading it to the end either
/// decodes the whole stream or reports an error, and both the outcome and
/// the decoded bytes are pure functions of the input bytes, here named
/// `bz_ok_of` and `bz_plain_of`.
#[verifier::external_body]
pub(crate) fn bz_decompress(c: &[u8]) -> (r: Option<Vec<u8>>)
    ensures
        r is Some <==> bz_ok_of(c@),
        r matches Some(p) ==> p@ == bz_plain_of(c@),
{
    let mut decoder = bzip2::read::BzDecoder::new(c);
    let mut out: Vec<u8> = Vec::new();
    match decoder.read_to_end(&mut out) {
        Ok(_) => Some(out),
        Err(_) => None,
    }
}

} // verus!
