//! Split-index construction and chunk extraction for query-grouped record
//! streams.
//!
//! A split index is a compact sidecar that lets independent workers seek
//! directly to near-equal shares of a large record file without scanning the
//! prefix, while guaranteeing that runs of adjacent records sharing a query
//! name (query groups) are never split across shares.

pub mod byte_stream;
pub mod chunkable;
pub mod errors;
pub mod fastq;
pub mod groups;
pub mod maybe_compressed;
pub mod memory;
pub mod path_type;
pub mod sam_writer_spec;
pub mod seekable_chain;
pub mod seekable_split;
pub mod split_index;
pub mod tell;
pub mod util;

use vstd::prelude::*;

verus! {

/// The larger of two lengths.
pub fn max_usize(a: usize, b: usize) -> (r: usize)
    ensures
        r == if a >= b { a as int } else { b as int },
{
    if a >= b {
        a
    } else {
        b
    }
}

} // verus!
