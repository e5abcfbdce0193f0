//! The kinds of path the tools accept: a pipe, a local file, or a remote
//! URL, and the derivation of a default index path from each.

use vstd::prelude::*;
use vstd::string::StringExecFns;
use vstd::string::StringSliceAdditionalSpecFns;

verus! {

/// A path is a pipe (`-`, standard input or output), a local file path, or
/// a remote URL with a recognized scheme.
pub enum PathType {
    /// Standard input or output.
    Pipe,
    /// A local filesystem path.
    FilePath(String),
    /// A remote URL (scheme `s3`, `gcs`, `ftp`, `http`, or `https`). The
    /// string is kept verbatim; parsing it is the URL library's concern.
    UrlPath(String),
}

/// Does `s` begin with `p`?
pub open spec fn starts_with(s: Seq<u8>, p: Seq<u8>) -> bool {
    s.len() >= p.len() && s.subrange(0, p.len() as int) == p
}

/// Does the path begin with one of the recognized URL schemes?
pub open spec fn spec_is_url(s: Seq<u8>) -> bool {
    ||| starts_with(s, seq![115u8, 51u8, 58u8, 47u8, 47u8])  // s3://
    ||| starts_with(s, seq![103u8, 99u8, 115u8, 58u8, 47u8, 47u8])  // gcs://
    ||| starts_with(s, seq![102u8, 116u8, 112u8, 58u8, 47u8, 47u8])  // ftp://
    ||| starts_with(s, seq![104u8, 116u8, 116u8, 112u8, 58u8, 47u8, 47u8])  // http://
    ||| starts_with(s, seq![104u8, 116u8, 116u8, 112u8, 115u8, 58u8, 47u8, 47u8])  // https://
}

/// Is the path the pipe marker `-`?
pub open spec fn spec_is_pipe(s: Seq<u8>) -> bool {
    s == seq![45u8]
}

/// Does `b` begin with `p`, executably?
fn has_prefix(b: &[u8], p: &Vec<u8>) -> (r: bool)
    ensures
        r == starts_with(b@, p@),
{
    let m = p.len();
    if b.len() < m {
        return false;
    }
    let mut k: usize = 0;
    while k < m
        invariant
            0 <= k <= m,
            m == p@.len() <= b@.len(),
            forall|i: int| 0 <= i < k ==> b@[i] == p@[i],
        decreases m - k,
    {
        if *vstd::slice::slice_index_get(b, k) != p[k] {
            proof {
                assert(b@.subrange(0, m as int)[k as int] != p@[k as int]);
            }
            return false;
        }
        k = k + 1;
    }
    proof {
        assert(b@.subrange(0, m as int) =~= p@);
    }
    true
}

impl PathType {
    /// Classify a path: the pipe marker, a URL by its scheme prefix, or a
    /// local file path.
    pub fn from_path(path: &str) -> (r: PathType)
        ensures
            spec_is_pipe(path.spec_bytes()) ==> r is Pipe,
            !spec_is_pipe(path.spec_bytes()) && spec_is_url(path.spec_bytes()) ==> (r matches
                PathType::UrlPath(u) && u@ == path@),
            !spec_is_pipe(path.spec_bytes()) && !spec_is_url(path.spec_bytes()) ==> (r matches
                PathType::FilePath(p) && p@ == path@),
    {
        let bytes = path.as_bytes();
        if bytes.len() == 1 && *vstd::slice::slice_index_get(bytes, 0) == 45 {
            proof {
                assert(bytes@ =~= seq![45u8]);
            }
            return PathType::Pipe;
        }
        proof {
            assert(bytes@ != seq![45u8]);
        }
        let mut p_s3: Vec<u8> = Vec::new();
        p_s3.push(115);
        p_s3.push(51);
        p_s3.push(58);
        p_s3.push(47);
        p_s3.push(47);
        let mut p_gcs: Vec<u8> = Vec::new();
        p_gcs.push(103);
        p_gcs.push(99);
        p_gcs.push(115);
        p_gcs.push(58);
        p_gcs.push(47);
        p_gcs.push(47);
        let mut p_ftp: Vec<u8> = Vec::new();
        p_ftp.push(102);
        p_ftp.push(116);
        p_ftp.push(112);
        p_ftp.push(58);
        p_ftp.push(47);
        p_ftp.push(47);
        let mut p_http: Vec<u8> = Vec::new();
        p_http.push(104);
        p_http.push(116);
        p_http.push(116);
        p_http.push(112);
        p_http.push(58);
        p_http.push(47);
        p_http.push(47);
        let mut p_https: Vec<u8> = Vec::new();
        p_https.push(104);
        p_https.push(116);
        p_https.push(116);
        p_https.push(112);
        p_https.push(115);
        p_https.push(58);
        p_https.push(47);
        p_https.push(47);
        proof {
            assert(p_s3@ =~= seq![115u8, 51u8, 58u8, 47u8, 47u8]);
            assert(p_gcs@ =~= seq![103u8, 99u8, 115u8, 58u8, 47u8, 47u8]);
            assert(p_ftp@ =~= seq![102u8, 116u8, 112u8, 58u8, 47u8, 47u8]);
            assert(p_http@ =~= seq![104u8, 116u8, 116u8, 112u8, 58u8, 47u8, 47u8]);
            assert(p_https@ =~= seq![104u8, 116u8, 116u8, 112u8, 115u8, 58u8, 47u8, 47u8]);
        }
        if has_prefix(bytes, &p_s3) || has_prefix(bytes, &p_gcs) || has_prefix(bytes, &p_ftp)
            || has_prefix(bytes, &p_http) || has_prefix(bytes, &p_https) {
            PathType::UrlPath(String::from_str(path))
        } else {
            PathType::FilePath(String::from_str(path))
        }
    }

    /// The default index path derived from this path by appending the index
    /// extension after a dot: none for a pipe, where an index path must be
    /// given explicitly. For a URL this is the remote sibling; callers that
    /// prefer an already-downloaded local copy check for one themselves,
    /// since that takes the filesystem and the URL parser.
    pub fn default_index(&self, index_extension: &str) -> (r: Option<String>)
        ensures
            *self is Pipe <==> r is None,
            self matches PathType::FilePath(p) ==> (r matches Some(d) && d@ == p@ + "."@
                + index_extension@),
            self matches PathType::UrlPath(u) ==> (r matches Some(d) && d@ == u@ + "."@
                + index_extension@),
    {
        match self {
            PathType::Pipe => None,
            PathType::FilePath(p) => Some(with_added_extension(p.as_str(), index_extension)),
            PathType::UrlPath(u) => Some(with_added_extension(u.as_str(), index_extension)),
        }
    }
}

/// Append an extra extension to a path: the path, a dot, the extension.
pub fn with_added_extension(path: &str, extension: &str) -> (r: String)
    ensures
        r@ == path@ + "."@ + extension@,
{
    let mut out = String::from_str(path);
    out.append(".");
    out.append(extension);
    out
}

} // verus!
