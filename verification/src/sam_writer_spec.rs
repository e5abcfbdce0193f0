//! Choosing an output alignment format and collecting writer options.

use crate::errors::SplitError;
use crate::util::{spec_lower, spec_path_extension};
use vstd::prelude::*;
use vstd::string::StringSliceAdditionalSpecFns;

verus! {

/// The three alignment container formats a writer can produce.
#[derive(PartialEq, Eq, Structural, Debug, Clone, Copy)]
pub enum SamFormat {
    /// Binary alignment records.
    Bam,
    /// Reference-compressed alignment records.
    Cram,
    /// Plain-text alignment records.
    Sam,
}

/// Which format a (lowercased) name denotes, if any.
pub open spec fn spec_format_of(name: Seq<u8>) -> Option<SamFormat> {
    let low = spec_lower(name);
    if low == seq![98u8, 97u8, 109u8]  // bam
     {
        Option::Some(SamFormat::Bam)
    } else if low == seq![99u8, 114u8, 97u8, 109u8]  // cram
     {
        Option::Some(SamFormat::Cram)
    } else if low == seq![115u8, 97u8, 109u8]  // sam
     {
        Option::Some(SamFormat::Sam)
    } else {
        Option::None
    }
}

/// The format chosen for an output path: the path's extension when it names
/// a format, else the fallback name when that does; otherwise an error.
pub open spec fn spec_get_format(path: Seq<u8>, default_format: Seq<u8>) -> Result<
    SamFormat,
    SplitError,
> {
    let by_ext = match spec_path_extension(path) {
        Option::Some(ext) => spec_format_of(ext),
        Option::None => Option::None,
    };
    match by_ext {
        Option::Some(f) => Ok(f),
        Option::None => match spec_format_of(default_format) {
            Option::Some(f) => Ok(f),
            Option::None => Err(SplitError::FormatMismatch),
        },
    }
}

/// Convert a format name to the format it denotes, case-insensitively.
pub fn str_to_format(format_str: &str) -> (r: Result<SamFormat, SplitError>)
    ensures
        r == match spec_format_of(format_str.spec_bytes()) {
            Option::Some(f) => Ok::<SamFormat, SplitError>(f),
            Option::None => Err::<SamFormat, SplitError>(SplitError::FormatMismatch),
        },
{
    match format_of_bytes(format_str.as_bytes()) {
        Some(f) => Ok(f),
        None => Err(SplitError::FormatMismatch),
    }
}

/// Classify a format name given as bytes.
fn format_of_bytes(name: &[u8]) -> (r: Option<SamFormat>)
    ensures
        r == spec_format_of(name@),
{
    let low = lower_copy(name);
    let n = low.len();
    let is_bam = n == 3 && low[0] == 98 && low[1] == 97 && low[2] == 109;
    let is_cram = n == 4 && low[0] == 99 && low[1] == 114 && low[2] == 97 && low[3] == 109;
    let is_sam = n == 3 && low[0] == 115 && low[1] == 97 && low[2] == 109;
    proof {
        assert(is_bam == (low@ == seq![98u8, 97u8, 109u8])) by {
            if is_bam {
                assert(low@ =~= seq![98u8, 97u8, 109u8]);
            }
        }
        assert(is_cram == (low@ == seq![99u8, 114u8, 97u8, 109u8])) by {
            if is_cram {
                assert(low@ =~= seq![99u8, 114u8, 97u8, 109u8]);
            }
        }
        assert(is_sam == (low@ == seq![115u8, 97u8, 109u8])) by {
            if is_sam {
                assert(low@ =~= seq![115u8, 97u8, 109u8]);
            }
        }
    }
    if is_bam {
        Some(SamFormat::Bam)
    } else if is_cram {
        Some(SamFormat::Cram)
    } else if is_sam {
        Some(SamFormat::Sam)
    } else {
        None
    }
}

/// ASCII lowercase of a byte string.
fn lower_copy(s: &[u8]) -> (r: Vec<u8>)
    ensures
        r@ == spec_lower(s@),
{
    let n = s.len();
    let mut out: Vec<u8> = Vec::with_capacity(n);
    let mut k: usize = 0;
    while k < n
        invariant
            0 <= k <= n,
            n == s@.len(),
            out@.len() == k,
            forall|i: int| 0 <= i < k ==> out@[i] == crate::util::spec_lower_byte(s@[i]),
        decreases n - k,
    {
        let b = *vstd::slice::slice_index_get(s, k);
        if b >= 65 && b <= 90 {
            out.push(b + 32);
        } else {
            out.push(b);
        }
        k = k + 1;
    }
    proof {
        assert(out@ =~= spec_lower(s@));
    }
    out
}

/// The format to use for an output path: the extension decides when it
/// names a format; otherwise the supplied default name must.
pub fn get_format(output: &str, default_format: &str) -> (r: Result<SamFormat, SplitError>)
    ensures
        r == spec_get_format(output.spec_bytes(), default_format.spec_bytes()),
{
    match crate::util::path_extension_bytes(output) {
        Some(ext) => match format_of_bytes(ext.as_slice()) {
            Some(f) => Ok(f),
            None => str_to_format(default_format),
        },
        None => str_to_format(default_format),
    }
}

/// Options for configuring an alignment writer: each may stay unspecified.
#[derive(Clone, Debug)]
pub struct SamWriterOptions {
    /// Path to a reference sequence file, required for the
    /// reference-compressed format.
    reference_fasta: Option<String>,
    /// Worker threads for compression.
    threads: Option<usize>,
    /// Compression level.
    compression: Option<u32>,
}

impl SamWriterOptions {
    /// Everything unspecified.
    pub fn new() -> (r: Self)
        ensures
            r.reference_fasta_of() is None,
            r.threads_of() is None,
            r.compression_of() is None,
    {
        SamWriterOptions { reference_fasta: None, threads: None, compression: None }
    }

    /// The configured reference path, if any.
    pub closed spec fn reference_fasta_of(&self) -> Option<String> {
        self.reference_fasta
    }

    /// The configured thread count, if any.
    pub closed spec fn threads_of(&self) -> Option<usize> {
        self.threads
    }

    /// The configured compression level, if any.
    pub closed spec fn compression_of(&self) -> Option<u32> {
        self.compression
    }

    /// The configured reference path, executably.
    pub fn get_reference_fasta(&self) -> (r: &Option<String>)
        ensures
            *r == self.reference_fasta_of(),
    {
        &self.reference_fasta
    }

    /// The configured thread count, executably.
    pub fn get_threads(&self) -> (r: Option<usize>)
        ensures
            r == self.threads_of(),
    {
        self.threads
    }

    /// The configured compression level, executably.
    pub fn get_compression(&self) -> (r: Option<u32>)
        ensures
            r == self.compression_of(),
    {
        self.compression
    }

    /// Set the reference sequence path.
    pub fn reference_fasta(self, reference_fasta: String) -> (r: Self)
        ensures
            r.reference_fasta_of() == Some(reference_fasta),
            r.threads_of() == self.threads_of(),
            r.compression_of() == self.compression_of(),
    {
        SamWriterOptions {
            reference_fasta: Some(reference_fasta),
            threads: self.threads,
            compression: self.compression,
        }
    }

    /// Set the number of compression threads.
    pub fn threads(self, threads: usize) -> (r: Self)
        ensures
            r.threads_of() == Some(threads),
            r.reference_fasta_of() == self.reference_fasta_of(),
            r.compression_of() == self.compression_of(),
    {
        SamWriterOptions {
            reference_fasta: self.reference_fasta,
            threads: Some(threads),
            compression: self.compression,
        }
    }

    /// Set the compression level.
    pub fn compression(self, compression: u32) -> (r: Self)
        ensures
            r.compression_of() == Some(compression),
            r.reference_fasta_of() == self.reference_fasta_of(),
            r.threads_of() == self.threads_of(),
    {
        SamWriterOptions {
            reference_fasta: self.reference_fasta,
            threads: self.threads,
            compression: Some(compression),
        }
    }
}

impl Default for SamWriterOptions {
    fn default() -> (r: Self)
        ensures
            r.reference_fasta_of() is None,
            r.threads_of() is None,
            r.compression_of() is None,
    {
        Self::new()
    }
}

} // verus!
