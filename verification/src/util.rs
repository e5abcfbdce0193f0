//! Record-format inference from paths and extensions, and the shapes of
//! query grouping a source can have.

use crate::errors::SplitError;
use vstd::prelude::*;
use vstd::string::StringSliceAdditionalSpecFns;

verus! {

/// The two record formats the library distinguishes.
#[derive(PartialEq, Eq, Structural, Debug, Clone, Copy)]
pub enum RecordType {
    /// FASTQ format, recognized by the extensions `fq`, `fastq`, `gz`, and
    /// `bgz` (the latter two assume FASTQ content; the sniffed magic byte
    /// later confirms compression).
    Fastq,
    /// SAM/BAM/CRAM format, recognized by the extensions `bam`, `sam`, and
    /// `cram`.
    Bam,
}

/// ASCII lowercase of one byte.
pub open spec fn spec_lower_byte(b: u8) -> u8 {
    if 65 <= b <= 90 {
        (b + 32) as u8
    } else {
        b
    }
}

/// ASCII lowercase of a byte string.
pub open spec fn spec_lower(s: Seq<u8>) -> Seq<u8> {
    s.map_values(|b: u8| spec_lower_byte(b))
}

/// ASCII lowercase of one byte, executably.
fn lower_byte(b: u8) -> (r: u8)
    ensures
        r == spec_lower_byte(b),
{
    if b >= 65 && b <= 90 {
        b + 32
    } else {
        b
    }
}

/// ASCII lowercase of a byte string, executably.
fn lower_bytes(s: &[u8]) -> (r: Vec<u8>)
    ensures
        r@ == spec_lower(s@),
{
    let n = s.len();
    let mut out: Vec<u8> = Vec::with_capacity(n);
    let mut k: usize = 0;
    while k < n
        invariant
            0 <= k <= n,
            n == s@.len(),
            out@.len() == k,
            forall|i: int| 0 <= i < k ==> out@[i] == spec_lower_byte(s@[i]),
        decreases n - k,
    {
        out.push(lower_byte(*vstd::slice::slice_index_get(s, k)));
        k = k + 1;
    }
    proof {
        assert(out@ =~= spec_lower(s@));
    }
    out
}

/// The extension of a path, found by scanning backwards from position `k`:
/// the bytes after the last dot of the final component, unless that dot
/// opens the component (a hidden file) or a separator is met first.
pub open spec fn spec_extension_scan(s: Seq<u8>, k: int) -> Option<Seq<u8>>
    decreases k,
{
    if k <= 0 || k > s.len() {
        Option::None
    } else if s[k - 1] == 47 {
        Option::None
    } else if s[k - 1] == 46 {
        if k - 1 == 0 || s[k - 2] == 47 {
            Option::None
        } else {
            Option::Some(s.skip(k))
        }
    } else {
        spec_extension_scan(s, k - 1)
    }
}

/// The extension of a path's final component, if any.
pub open spec fn spec_path_extension(s: Seq<u8>) -> Option<Seq<u8>> {
    spec_extension_scan(s, s.len() as int)
}

impl RecordType {
    /// Which record format an extension names, after ASCII lowercasing.
    pub open spec fn spec_from_extension(ext: Seq<u8>) -> Option<RecordType> {
        let low = spec_lower(ext);
        if low == seq![102u8, 113u8]  // fq
         || low == seq![102u8, 97u8, 115u8, 116u8, 113u8]  // fastq
         || low == seq![103u8, 122u8]  // gz
         || low == seq![98u8, 103u8, 122u8]  // bgz
         {
            Option::Some(RecordType::Fastq)
        } else if low == seq![98u8, 97u8, 109u8]  // bam
         || low == seq![115u8, 97u8, 109u8]  // sam
         || low == seq![99u8, 114u8, 97u8, 109u8]  // cram
         {
            Option::Some(RecordType::Bam)
        } else {
            Option::None
        }
    }

    /// Which record format a path names through its extension.
    pub open spec fn spec_from_path(s: Seq<u8>) -> Option<RecordType> {
        match spec_path_extension(s) {
            Option::Some(ext) => Self::spec_from_extension(ext),
            Option::None => Option::None,
        }
    }

    /// Detect the record type from a file extension, case-insensitively.
    pub fn from_extension(extension: Option<&str>) -> (r: Option<RecordType>)
        ensures
            r == match extension {
                Option::Some(e) => Self::spec_from_extension(e.spec_bytes()),
                Option::None => Option::None::<RecordType>,
            },
    {
        match extension {
            Option::None => None,
            Option::Some(e) => record_type_of_extension(e.as_bytes()),
        }
    }

    /// Detect the record type from a file path's extension.
    pub fn from_path(path: &str) -> (r: Option<RecordType>)
        ensures
            r == Self::spec_from_path(path.spec_bytes()),
    {
        match path_extension_bytes(path) {
            Option::Some(ext) => record_type_of_extension(ext.as_slice()),
            Option::None => None,
        }
    }
}

/// The extension of a path's final component, as bytes, if any.
pub fn path_extension_bytes(path: &str) -> (r: Option<Vec<u8>>)
    ensures
        match r {
            Option::Some(v) => spec_path_extension(path.spec_bytes()) == Option::Some(v@),
            Option::None => spec_path_extension(path.spec_bytes()) is None,
        },
{
    let bytes = path.as_bytes();
    let n = bytes.len();
    let mut k: usize = n;
    loop
        invariant_except_break
            0 <= k <= n,
            n == bytes@.len(),
            spec_extension_scan(bytes@, n as int) == spec_extension_scan(bytes@, k as int),
        ensures
            0 <= k <= n,
            n == bytes@.len(),
            spec_extension_scan(bytes@, n as int) == spec_extension_scan(bytes@, k as int),
            k == 0 || bytes@[k as int - 1] == 47 || bytes@[k as int - 1] == 46,
        decreases k,
    {
        if k == 0 {
            break ;
        }
        let b = *vstd::slice::slice_index_get(bytes, k - 1);
        if b == 47 {
            break ;
        }
        if b == 46 {
            break ;
        }
        k = k - 1;
    }
    if k == 0 {
        return None;
    }
    let b = *vstd::slice::slice_index_get(bytes, k - 1);
    if b != 46 {
        return None;
    }
    if k == 1 || *vstd::slice::slice_index_get(bytes, k - 2) == 47 {
        return None;
    }
    let ext = vstd::slice::slice_subrange(bytes, k, n);
    Some(vstd::slice::slice_to_vec(ext))
}

/// Classify an extension given as bytes.
fn record_type_of_extension(ext: &[u8]) -> (r: Option<RecordType>)
    ensures
        r == RecordType::spec_from_extension(ext@),
{
    let low = lower_bytes(ext);
    let n = low.len();
    let is_fq = n == 2 && low[0] == 102 && low[1] == 113;
    let is_fastq = n == 5 && low[0] == 102 && low[1] == 97 && low[2] == 115 && low[3] == 116
        && low[4] == 113;
    let is_gz = n == 2 && low[0] == 103 && low[1] == 122;
    let is_bgz = n == 3 && low[0] == 98 && low[1] == 103 && low[2] == 122;
    let is_bam = n == 3 && low[0] == 98 && low[1] == 97 && low[2] == 109;
    let is_sam = n == 3 && low[0] == 115 && low[1] == 97 && low[2] == 109;
    let is_cram = n == 4 && low[0] == 99 && low[1] == 114 && low[2] == 97 && low[3] == 109;
    proof {
        assert(is_fq == (low@ == seq![102u8, 113u8])) by {
            if is_fq {
                assert(low@ =~= seq![102u8, 113u8]);
            }
        }
        assert(is_fastq == (low@ == seq![102u8, 97u8, 115u8, 116u8, 113u8])) by {
            if is_fastq {
                assert(low@ =~= seq![102u8, 97u8, 115u8, 116u8, 113u8]);
            }
        }
        assert(is_gz == (low@ == seq![103u8, 122u8])) by {
            if is_gz {
                assert(low@ =~= seq![103u8, 122u8]);
            }
        }
        assert(is_bgz == (low@ == seq![98u8, 103u8, 122u8])) by {
            if is_bgz {
                assert(low@ =~= seq![98u8, 103u8, 122u8]);
            }
        }
        assert(is_bam == (low@ == seq![98u8, 97u8, 109u8])) by {
            if is_bam {
                assert(low@ =~= seq![98u8, 97u8, 109u8]);
            }
        }
        assert(is_sam == (low@ == seq![115u8, 97u8, 109u8])) by {
            if is_sam {
                assert(low@ =~= seq![115u8, 97u8, 109u8]);
            }
        }
        assert(is_cram == (low@ == seq![99u8, 114u8, 97u8, 109u8])) by {
            if is_cram {
                assert(low@ =~= seq![99u8, 114u8, 97u8, 109u8]);
            }
        }
    }
    if is_fq || is_fastq || is_gz || is_bgz {
        Some(RecordType::Fastq)
    } else if is_bam || is_sam || is_cram {
        Some(RecordType::Bam)
    } else {
        None
    }
}

/// The record kind governing a passthrough setup: paths naming different
/// kinds is a mismatch; one path naming a kind decides; with neither naming
/// one, the fallback kind holds.
pub fn resolve_record_type(
    input_type: Option<RecordType>,
    output_type: Option<RecordType>,
    fallback: RecordType,
) -> (r: Result<RecordType, SplitError>)
    ensures
        r == match (input_type, output_type) {
            (Option::Some(i), Option::Some(o)) => if i == o {
                Ok::<RecordType, SplitError>(i)
            } else {
                Err::<RecordType, SplitError>(SplitError::FormatMismatch)
            },
            (Option::Some(i), Option::None) => Ok::<RecordType, SplitError>(i),
            (Option::None, Option::Some(o)) => Ok::<RecordType, SplitError>(o),
            (Option::None, Option::None) => Ok::<RecordType, SplitError>(fallback),
        },
{
    match (input_type, output_type) {
        (Option::Some(i), Option::Some(o)) => {
            if i == o {
                Ok(i)
            } else {
                Err(SplitError::FormatMismatch)
            }
        },
        (Option::Some(i), Option::None) => Ok(i),
        (Option::None, Option::Some(o)) => Ok(o),
        (Option::None, Option::None) => Ok(fallback),
    }
}

/// The shapes of query grouping a read source can have: one read per query,
/// a fixed pair per query, or an arbitrary run per query.
pub enum QueryType {
    /// Single-end reads: each query group is one record.
    Single,
    /// Paired-end reads: each query group is two records.
    Paired,
    /// Query-grouped reads: each query group is any positive run.
    Grouped,
}

impl QueryType {
    /// A short descriptive label for this query shape.
    pub fn label(&self) -> (r: &'static str)
        ensures
            r@ == match *self {
                QueryType::Single => "single"@,
                QueryType::Paired => "paired"@,
                QueryType::Grouped => "grouped"@,
            },
    {
        match self {
            QueryType::Single => "single",
            QueryType::Paired => "paired",
            QueryType::Grouped => "grouped",
        }
    }
}

} // verus!
