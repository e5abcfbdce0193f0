//! Error kinds reported by the library.

use vstd::prelude::*;

verus! {

/// Everything that can go wrong while building, storing, or consuming a
/// split index. Variants carry no payload so that contracts can compare
/// errors structurally.
#[derive(Clone, Copy, Debug, PartialEq, Eq, Structural)]
pub enum SplitError {
    /// The reader reached end of input mid-query-group or before a bound
    /// that the index promised was readable.
    TruncatedInput,
    /// A FASTQ record ended before all four of its lines could be read.
    IncompleteFastqRecord,
    /// The serialized index is malformed: bad magic prefix, missing header
    /// terminator, or a record count that overruns the buffer.
    CorruptIndex,
    /// The serialized index carries a version string this library does not
    /// understand: the version-specific refinement of a corrupt index, kept
    /// apart so the report can name the offending version.
    UnknownVersion,
    /// A chunk ordinal past the chunk count was requested.
    InvalidChunkArgs,
    /// A path was supplied where it cannot be used, such as a remote URL
    /// given to a write operation.
    InvalidPath,
    /// Input and output record kinds disagree for a passthrough setup.
    FormatMismatch,
    /// An input, output, or index stream could not be opened.
    OpenFailure,
    /// An underlying codec or I/O layer failed.
    Codec,
}

impl SplitError {
    /// The user-facing description of each failure kind.
    pub open spec fn spec_message(self) -> Seq<char> {
        match self {
            SplitError::TruncatedInput => "file truncated"@,
            SplitError::IncompleteFastqRecord => "incomplete fastq record"@,
            SplitError::CorruptIndex => "unable to parse header: corrupted index or wrong file"@,
            SplitError::UnknownVersion => "unknown split-index version"@,
            SplitError::InvalidChunkArgs => "invalid chunk index for chunk count"@,
            SplitError::InvalidPath => "cannot write directly to a cloud URL"@,
            SplitError::FormatMismatch => "input and output types do not match"@,
            SplitError::OpenFailure => "could not open stream"@,
            SplitError::Codec => "codec failure"@,
        }
    }

    /// A terse, user-facing description of the failure.
    pub fn message(&self) -> (r: &'static str)
        ensures
            r@ == self.spec_message(),
    {
        match self {
            SplitError::TruncatedInput => "file truncated",
            SplitError::IncompleteFastqRecord => "incomplete fastq record",
            SplitError::CorruptIndex => {
                "unable to parse header: corrupted index or wrong file"
            },
            SplitError::UnknownVersion => "unknown split-index version",
            SplitError::InvalidChunkArgs => "invalid chunk index for chunk count",
            SplitError::InvalidPath => "cannot write directly to a cloud URL",
            SplitError::FormatMismatch => "input and output types do not match",
            SplitError::OpenFailure => "could not open stream",
            SplitError::Codec => "codec failure",
        }
    }
}

} // verus!
