//! The statistics a split index can report about its file.

use crate::split_index::{seq_num_queries, seq_num_reads, SplitIndex};
use vstd::prelude::*;

verus! {

/// Which statistic to report from a split index.
#[derive(Clone, Copy, Debug)]
pub enum TellWhich {
    /// The number of bins in the index.
    NumBins,
    /// The total number of query groups in the indexed file.
    NumQueries,
    /// The total number of records in the indexed file.
    NumReads,
}

/// The requested statistic of an index.
pub fn tell_stat(split_index: &SplitIndex, which: TellWhich) -> (r: usize)
    ensures
        r as int == match which {
            TellWhich::NumBins => split_index@.len() as int,
            TellWhich::NumQueries => seq_num_queries(split_index@),
            TellWhich::NumReads => seq_num_reads(split_index@),
        },
{
    match which {
        TellWhich::NumBins => split_index.len(),
        TellWhich::NumQueries => split_index.num_queries(),
        TellWhich::NumReads => split_index.num_reads(),
    }
}

} // verus!
