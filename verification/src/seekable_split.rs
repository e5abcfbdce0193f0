//! Splitting a buffered, seekable byte source into delimiter-separated runs.

use crate::byte_stream::{delim_end, lemma_delim_end, piece_at, BufSource, SeekFrom};
use crate::errors::SplitError;
use vstd::prelude::*;

verus! {

/// Yields successive byte runs ending at (but excluding) a caller-chosen
/// delimiter, from a buffered seekable source.
pub struct Split<B: BufSource> {
    buf: B,
    delim: u8,
}

impl<B: BufSource> Split<B> {
    /// The underlying byte stream.
    pub closed spec fn bytes(&self) -> Seq<u8> {
        self.buf.bytes()
    }

    /// The cursor into the underlying stream.
    pub closed spec fn pos(&self) -> int {
        self.buf.pos()
    }

    /// The delimiter this splitter cuts at.
    pub closed spec fn delimiter(&self) -> u8 {
        self.delim
    }

    /// The splitter is usable.
    pub closed spec fn wf(&self) -> bool {
        self.buf.wf()
    }

    /// The underlying stream is addressable and the cursor non-negative.
    pub proof fn lemma_len(&self)
        requires
            self.wf(),
        ensures
            self.bytes().len() <= usize::MAX,
            self.pos() >= 0,
    {
        self.buf.lemma_buf_wf();
        self.buf.lemma_wf();
    }

    /// A splitter over `buf` cutting at `delim`.
    pub fn new(buf: B, delim: u8) -> (r: Self)
        ensures
            r.bytes() == buf.bytes(),
            r.pos() == buf.pos(),
            r.delimiter() == delim,
            r.wf() == buf.wf(),
    {
        Split { buf, delim }
    }

    /// Forward a seek directly to the underlying source; the caller is
    /// responsible for the target sitting on a run boundary.
    pub fn seek(&mut self, pos: SeekFrom) -> (r: Result<u64, SplitError>)
        requires
            old(self).wf(),
        ensures
            final(self).bytes() == old(self).bytes(),
            final(self).delimiter() == old(self).delimiter(),
            r matches Ok(p) ==> ({
                let target = crate::byte_stream::seek_target(
                    pos,
                    old(self).pos(),
                    old(self).bytes().len() as int,
                );
                &&& final(self).wf()
                &&& 0 <= target <= u64::MAX
                &&& p as int == target
                &&& final(self).pos() == target
            }),
    {
        self.buf.seek(pos)
    }

    /// The current position in the underlying source.
    pub fn stream_position(&mut self) -> (r: Result<u64, SplitError>)
        requires
            old(self).wf(),
        ensures
            *final(self) == *old(self),
            r matches Ok(p) ==> p as int == old(self).pos(),
    {
        self.buf.stream_position()
    }

    /// The next run: the bytes from the cursor up to (excluding) the next
    /// delimiter, the cursor advancing past the delimiter. Nothing exactly
    /// when the cursor is at or past the end of the stream.
    pub fn next(&mut self) -> (r: Option<Result<Vec<u8>, SplitError>>)
        requires
            old(self).wf(),
        ensures
            final(self).bytes() == old(self).bytes(),
            final(self).delimiter() == old(self).delimiter(),
            (r is None) <==> old(self).pos() >= old(self).bytes().len(),
            r is None ==> final(self).pos() == old(self).pos() && final(self).wf(),
            r matches Some(Ok(v)) ==> ({
                let b = old(self).bytes();
                let d = old(self).delimiter();
                &&& final(self).wf()
                &&& 0 <= old(self).pos() < b.len()
                &&& v@ == piece_at(b, d, old(self).pos())
                &&& final(self).pos() == delim_end(b, d, old(self).pos())
            }),
    {
        let ghost b = self.buf.bytes();
        let ghost p0 = self.buf.pos();
        proof {
            self.buf.lemma_wf();
            if p0 < b.len() {
                lemma_delim_end(b, self.delim, p0);
            }
        }
        let mut piece = match self.buf.read_until(self.delim) {
            Ok(v) => v,
            Err(e) => {
                return Some(Err(e));
            },
        };
        if piece.len() == 0 {
            return None;
        }
        let n = piece.len();
        let last = *vstd::slice::slice_index_get(piece.as_slice(), n - 1);
        if last == self.delim {
            piece.pop();
            proof {
                let e = delim_end(b, self.delim, p0);
                assert(piece@ =~= b.subrange(p0, e - 1));
            }
        }
        Some(Ok(piece))
    }
}

} // verus!
