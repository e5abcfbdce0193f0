//! Detecting and undoing BGZF compression on a buffered input: the first two
//! bytes decide, and a compressed stream is decoded by the BGZF codec.

use crate::errors::SplitError;
use vstd::prelude::*;

verus! {

/// Does the byte stream begin with the gzip magic pair?
pub open spec fn spec_is_bgzf(b: Seq<u8>) -> bool {
    b.len() >= 2 && b[0] == 0x1f && b[1] == 0x8b
}

/// The plain bytes a BGZF-compressed stream decodes to: a function of the
/// compressed bytes alone.
pub uninterp spec fn bgzf_decoded(b: Seq<u8>) -> Seq<u8>;

/// Relies on noodles_bgzf's MultithreadedReader: decoding a BGZF stream
/// yields plain bytes determined by the compressed bytes alone; the worker
/// count affects only scheduling. Malformed compressed input fails.
#[verifier::external_body]
fn bgzf_decode_call(bytes: &Vec<u8>, worker_count: usize) -> (r: Result<Vec<u8>, SplitError>)
    requires
        worker_count >= 1,
    ensures
        r matches Ok(v) ==> v@ == bgzf_decoded(bytes@),
{
    let count = match std::num::NonZero::new(worker_count) {
        Some(c) => c,
        None => return Err(SplitError::Codec),
    };
    let cursor = std::io::Cursor::new(bytes.clone());
    let mut reader = noodles_bgzf::io::MultithreadedReader::with_worker_count(count, cursor);
    let mut out: Vec<u8> = Vec::new();
    match std::io::Read::read_to_end(&mut reader, &mut out) {
        Ok(_) => Ok(out),
        Err(_) => Err(SplitError::Codec),
    }
}

/// Undo compression where the magic pair announces it: a stream starting
/// with the gzip magic is decoded as BGZF; any other stream passes through
/// unchanged.
pub fn decode_if_compressed(bytes: Vec<u8>, worker_count: usize) -> (r: Result<
    Vec<u8>,
    SplitError,
>)
    requires
        worker_count >= 1,
    ensures
        !spec_is_bgzf(bytes@) ==> (r matches Ok(v) && v@ == bytes@),
        spec_is_bgzf(bytes@) ==> (r matches Ok(v) ==> v@ == bgzf_decoded(bytes@)),
{
    if bytes.len() >= 2 && bytes[0] == 0x1f && bytes[1] == 0x8b {
        bgzf_decode_call(&bytes, worker_count)
    } else {
        Ok(bytes)
    }
}

} // verus!
