//! Byte-level sources and sinks: the seek model, buffered delimiter reads,
//! and an in-memory cursor implementing them. The seekable chain, the line
//! splitter, and the FASTQ codec are built over these traits; process
//! boundaries implement them over real files.

use crate::errors::SplitError;
use vstd::prelude::*;

verus! {

/// Where a seek resolves from: an absolute position, the current position,
/// or the end of the stream.
#[derive(Clone, Copy, Debug, PartialEq, Eq, Structural)]
pub enum SeekFrom {
    /// An absolute offset from the start.
    Start(u64),
    /// A signed offset from the current position.
    Current(i64),
    /// A signed offset from the end of the stream.
    End(i64),
}

/// The position a seek asks for, given the current position and the length.
pub open spec fn seek_target(from: SeekFrom, pos: int, len: int) -> int {
    match from {
        SeekFrom::Start(p) => p as int,
        SeekFrom::Current(d) => pos + d,
        SeekFrom::End(d) => len + d,
    }
}

/// One past the first occurrence of `delim` at or after `from`; the length
/// when the delimiter never occurs again.
pub open spec fn delim_end(bytes: Seq<u8>, delim: u8, from: int) -> int
    decreases bytes.len() - from,
{
    if from >= bytes.len() {
        bytes.len() as int
    } else if bytes[from] == delim {
        from + 1
    } else {
        delim_end(bytes, delim, from + 1)
    }
}

/// The run starting at `from` up to (but excluding) the next delimiter; when
/// the stream ends without one, up to the end.
pub open spec fn piece_at(bytes: Seq<u8>, delim: u8, from: int) -> Seq<u8> {
    let e = delim_end(bytes, delim, from);
    if e > from && bytes[e - 1] == delim {
        bytes.subrange(from, e - 1)
    } else {
        bytes.subrange(from, e)
    }
}

/// What `delim_end` returns: a cut after `from`, within the stream, with no
/// delimiter strictly before it, and a delimiter right before it unless it
/// is the end.
pub proof fn lemma_delim_end(bytes: Seq<u8>, delim: u8, from: int)
    requires
        0 <= from <= bytes.len(),
    ensures
        from <= delim_end(bytes, delim, from) <= bytes.len(),
        from < bytes.len() ==> from < delim_end(bytes, delim, from),
        forall|i: int| from <= i < delim_end(bytes, delim, from) - 1 ==> bytes[i] != delim,
        delim_end(bytes, delim, from) < bytes.len() ==> bytes[delim_end(bytes, delim, from) - 1]
            == delim,
    decreases bytes.len() - from,
{
    if from < bytes.len() && bytes[from] != delim {
        lemma_delim_end(bytes, delim, from + 1);
    }
}

/// A seekable byte stream: an immutable sequence of bytes and a cursor that
/// may sit past the end.
pub trait ByteSource: Sized {
    /// The whole underlying byte sequence.
    spec fn bytes(&self) -> Seq<u8>;

    /// The cursor: index of the next byte to read.
    spec fn pos(&self) -> int;

    /// The source is in a usable state.
    spec fn wf(&self) -> bool;

    /// Well-formedness keeps the cursor non-negative.
    proof fn lemma_wf(&self)
        requires
            self.wf(),
        ensures
            self.pos() >= 0,
    ;

    /// The current cursor position, with no other effect.
    fn stream_position(&mut self) -> (r: Result<u64, SplitError>)
        requires
            old(self).wf(),
        ensures
            *final(self) == *old(self),
            r matches Ok(p) ==> p as int == old(self).pos(),
    ;

    /// Move the cursor. A resolved target outside `0 ..= u64::MAX` fails.
    fn seek(&mut self, from: SeekFrom) -> (r: Result<u64, SplitError>)
        requires
            old(self).wf(),
        ensures
            final(self).bytes() == old(self).bytes(),
            r matches Ok(p) ==> ({
                let target = seek_target(from, old(self).pos(), old(self).bytes().len() as int);
                &&& final(self).wf()
                &&& 0 <= target <= u64::MAX
                &&& p as int == target
                &&& final(self).pos() == target
            }),
    ;

    /// Read at most `max` bytes from the cursor: nothing exactly when the
    /// cursor is at or past the end, otherwise at least one byte.
    fn read_upto(&mut self, max: usize) -> (r: Result<Vec<u8>, SplitError>)
        requires
            old(self).wf(),
            max >= 1,
        ensures
            final(self).bytes() == old(self).bytes(),
            r matches Ok(v) ==> ({
                &&& final(self).wf()
                &&& (v@.len() == 0 ==> final(self).pos() == old(self).pos() && old(self).pos()
                    >= old(self).bytes().len())
                &&& (v@.len() > 0 ==> v@.len() <= max && 0 <= old(self).pos() && old(self).pos()
                    + v@.len() <= old(self).bytes().len() && v@ == old(self).bytes().subrange(
                    old(self).pos(),
                    old(self).pos() + v@.len(),
                ) && final(self).pos() == old(self).pos() + v@.len())
            }),
    ;
}

/// A buffered byte stream that can also hand out delimiter-terminated runs.
pub trait BufSource: ByteSource {
    /// A buffered stream is addressable: its length fits the platform's
    /// size type.
    proof fn lemma_buf_wf(&self)
        requires
            self.wf(),
        ensures
            self.bytes().len() <= usize::MAX,
    ;

    /// Read bytes through the next `delim` inclusive, or to the end when no
    /// delimiter remains; empty exactly at or past the end of the stream,
    /// where reading cannot fail.
    fn read_until(&mut self, delim: u8) -> (r: Result<Vec<u8>, SplitError>)
        requires
            old(self).wf(),
        ensures
            final(self).bytes() == old(self).bytes(),
            old(self).pos() >= old(self).bytes().len() ==> r is Ok,
            r matches Ok(v) ==> ({
                &&& final(self).wf()
                &&& (old(self).pos() >= old(self).bytes().len() ==> v@ == Seq::<u8>::empty()
                    && final(self).pos() == old(self).pos())
                &&& (old(self).pos() < old(self).bytes().len() ==> ({
                    let e = delim_end(old(self).bytes(), delim, old(self).pos());
                    v@ == old(self).bytes().subrange(old(self).pos(), e) && final(self).pos() == e
                }))
            }),
    ;
}

/// A byte sink; its view is everything written so far.
pub trait ByteSink: Sized {
    /// All bytes accepted so far.
    spec fn sink_bytes(&self) -> Seq<u8>;

    /// Append the whole buffer.
    fn write_all(&mut self, buf: &[u8]) -> (r: Result<(), SplitError>)
        ensures
            r matches Ok(()) ==> final(self).sink_bytes() == old(self).sink_bytes() + buf@,
    ;
}

/// Read everything from the cursor to the end of the stream.
pub fn read_all<R: ByteSource>(source: &mut R) -> (r: Result<Vec<u8>, SplitError>)
    requires
        old(source).wf(),
    ensures
        final(source).bytes() == old(source).bytes(),
        r matches Ok(v) ==> ({
            &&& final(source).wf()
            &&& (old(source).pos() <= old(source).bytes().len() ==> v@ == old(
                source,
            ).bytes().skip(old(source).pos()))
            &&& (old(source).pos() > old(source).bytes().len() ==> v@ == Seq::<u8>::empty())
        }),
{
    let ghost b = source.bytes();
    let ghost p0 = old(source).pos();
    proof {
        source.lemma_wf();
    }
    let mut out: Vec<u8> = Vec::new();
    loop
        invariant_except_break
            source.wf(),
            source.bytes() == b,
            b == old(source).bytes(),
            source.pos() >= 0,
            0 <= p0,
            p0 == old(source).pos(),
            p0 <= b.len() ==> p0 <= source.pos() <= b.len() && out@ == b.subrange(
                p0,
                source.pos(),
            ),
            p0 > b.len() ==> source.pos() == p0 && out@ == Seq::<u8>::empty(),
        ensures
            source.wf(),
            source.bytes() == b,
            p0 <= b.len() ==> out@ == b.subrange(p0, b.len() as int),
            p0 > b.len() ==> out@ == Seq::<u8>::empty(),
        decreases (if source.pos() >= b.len() {
            0int
        } else {
            b.len() - source.pos()
        }),
    {
        let ghost pos_before = source.pos();
        let mut piece = match source.read_upto(4096) {
            Ok(v) => v,
            Err(e) => {
                return Err(e);
            },
        };
        if piece.len() == 0 {
            break ;
        }
        let ghost before = out@;
        let ghost got = piece@;
        out.append(&mut piece);
        proof {
            assert(p0 <= b.len());
            assert(before == b.subrange(p0, pos_before));
            assert(out@ == before + got);
            assert(got == b.subrange(pos_before, pos_before + got.len()));
            assert(source.pos() == pos_before + got.len());
            let target = b.subrange(p0, source.pos());
            assert(out@.len() == target.len());
            assert forall|i: int| 0 <= i < out@.len() implies out@[i] == target[i] by {
                if i < before.len() {
                    assert(out@[i] == before[i]);
                } else {
                    assert(out@[i] == got[i - before.len()]);
                }
            }
            assert(out@ =~= b.subrange(p0, source.pos()));
        }
    }
    proof {
        if p0 <= b.len() {
            assert(out@ =~= b.skip(p0));
        }
    }
    Ok(out)
}

/// Seek neutrality: an absolute seek to `p` followed by a relative seek of
/// zero reports exactly `p`, whatever position the stream held before; and
/// full reads from the start of the same stream always yield the same byte
/// sequence. This is what the `seek`, `stream_position`, and `read_all`
/// contracts promise composed.
pub proof fn lemma_seek_neutrality(
    p: u64,
    pos0: int,
    len: int,
    first_read: Seq<u8>,
    second_read: Seq<u8>,
    b: Seq<u8>,
)
    requires
        first_read == b.skip(0),
        second_read == b.skip(0),
    ensures
        seek_target(SeekFrom::Current(0), seek_target(SeekFrom::Start(p), pos0, len), len)
            == p as int,
        first_read == second_read,
{
}

/// An in-memory byte stream: the simplest source, and the model other
/// sources are judged against.
pub struct ByteCursor {
    data: Vec<u8>,
    position: u64,
}

impl ByteCursor {
    /// A cursor over the given bytes, positioned at the start.
    pub fn new(data: Vec<u8>) -> (r: Self)
        ensures
            r.wf(),
            r.bytes() == data@,
            r.pos() == 0,
    {
        let n = data.len();
        proof {
            assert(data@.len() == n <= usize::MAX);
        }
        ByteCursor { data, position: 0 }
    }
}

impl ByteSource for ByteCursor {
    closed spec fn bytes(&self) -> Seq<u8> {
        self.data@
    }

    closed spec fn pos(&self) -> int {
        self.position as int
    }

    closed spec fn wf(&self) -> bool {
        self.data@.len() <= usize::MAX
    }

    proof fn lemma_wf(&self) {
    }

    fn stream_position(&mut self) -> (r: Result<u64, SplitError>) {
        Ok(self.position)
    }

    fn seek(&mut self, from: SeekFrom) -> (r: Result<u64, SplitError>) {
        let len = self.data.len();
        match from {
            SeekFrom::Start(p) => {
                self.position = p;
                Ok(p)
            },
            SeekFrom::Current(d) => {
                let p = self.position;
                if d >= 0 {
                    let step = d as u64;
                    if p <= u64::MAX - step {
                        self.position = p + step;
                        Ok(self.position)
                    } else {
                        Err(SplitError::Codec)
                    }
                } else {
                    let neg: i128 = -(d as i128);
                    let step = neg as u64;
                    if p >= step {
                        self.position = p - step;
                        Ok(self.position)
                    } else {
                        Err(SplitError::Codec)
                    }
                }
            },
            SeekFrom::End(d) => {
                let l = len as u64;
                if d >= 0 {
                    let step = d as u64;
                    if l <= u64::MAX - step {
                        self.position = l + step;
                        Ok(self.position)
                    } else {
                        Err(SplitError::Codec)
                    }
                } else {
                    let neg: i128 = -(d as i128);
                    let step = neg as u64;
                    if l >= step {
                        self.position = l - step;
                        Ok(self.position)
                    } else {
                        Err(SplitError::Codec)
                    }
                }
            },
        }
    }

    fn read_upto(&mut self, max: usize) -> (r: Result<Vec<u8>, SplitError>) {
        let len = self.data.len();
        if self.position >= len as u64 {
            return Ok(Vec::new());
        }
        let start = self.position as usize;
        let avail = len - start;
        let take = if max < avail {
            max
        } else {
            avail
        };
        let mut out: Vec<u8> = Vec::with_capacity(take);
        let mut k: usize = 0;
        while k < take
            invariant
                0 <= k <= take,
                start + take <= self.data@.len(),
                self.data@.len() <= usize::MAX,
                out@.len() == k,
                forall|i: int| 0 <= i < k ==> out@[i] == self.data@[start + i],
            decreases take - k,
        {
            out.push(self.data[start + k]);
            k = k + 1;
        }
        self.position = (start + take) as u64;
        proof {
            assert(out@ =~= self.data@.subrange(start as int, start as int + take as int));
        }
        Ok(out)
    }
}

impl BufSource for ByteCursor {
    proof fn lemma_buf_wf(&self) {
    }

    fn read_until(&mut self, delim: u8) -> (r: Result<Vec<u8>, SplitError>) {
        let len = self.data.len();
        if self.position >= len as u64 {
            return Ok(Vec::new());
        }
        let start = self.position as usize;
        proof {
            lemma_delim_end(self.data@, delim, start as int);
        }
        let mut e: usize = start;
        while e < len && self.data[e] != delim
            invariant
                start <= e <= len,
                len == self.data@.len(),
                forall|i: int| start <= i < e ==> self.data@[i] != delim,
            decreases len - e,
        {
            e = e + 1;
        }
        if e < len {
            proof {
                lemma_delim_end_at(self.data@, delim, start as int, e as int + 1);
            }
            e = e + 1;
        } else {
            proof {
                lemma_delim_end_none(self.data@, delim, start as int);
            }
        }
        let mut out: Vec<u8> = Vec::with_capacity(e - start);
        let mut k: usize = start;
        while k < e
            invariant
                start <= k <= e <= self.data@.len(),
                out@.len() == k - start,
                forall|i: int| start <= i < k ==> out@[i - start] == self.data@[i],
            decreases e - k,
        {
            out.push(self.data[k]);
            k = k + 1;
        }
        self.position = e as u64;
        proof {
            assert(out@ =~= self.data@.subrange(start as int, e as int));
        }
        Ok(out)
    }
}

/// The delimiter search lands one past a known first delimiter.
proof fn lemma_delim_end_at(bytes: Seq<u8>, delim: u8, from: int, e: int)
    requires
        0 <= from < e <= bytes.len(),
        forall|i: int| from <= i < e - 1 ==> bytes[i] != delim,
        bytes[e - 1] == delim,
    ensures
        delim_end(bytes, delim, from) == e,
    decreases e - from,
{
    if from < e - 1 {
        lemma_delim_end_at(bytes, delim, from + 1, e);
    }
}

/// With no delimiter left, the run extends to the end of the stream.
proof fn lemma_delim_end_none(bytes: Seq<u8>, delim: u8, from: int)
    requires
        0 <= from <= bytes.len(),
        forall|i: int| from <= i < bytes.len() ==> bytes[i] != delim,
    ensures
        delim_end(bytes, delim, from) == bytes.len(),
    decreases bytes.len() - from,
{
    if from < bytes.len() {
        lemma_delim_end_none(bytes, delim, from + 1);
    }
}

/// An in-memory byte sink collecting everything written.
pub struct ByteSinkBuffer {
    data: Vec<u8>,
}

impl ByteSinkBuffer {
    /// An empty sink.
    pub fn new() -> (r: Self)
        ensures
            r.sink_bytes() == Seq::<u8>::empty(),
    {
        ByteSinkBuffer { data: Vec::new() }
    }

    /// Hand out everything written so far.
    pub fn into_bytes(self) -> (r: Vec<u8>)
        ensures
            r@ == self.sink_bytes(),
    {
        self.data
    }
}

impl ByteSink for ByteSinkBuffer {
    closed spec fn sink_bytes(&self) -> Seq<u8> {
        self.data@
    }

    fn write_all(&mut self, buf: &[u8]) -> (r: Result<(), SplitError>) {
        let mut k: usize = 0;
        let n = buf.len();
        while k < n
            invariant
                0 <= k <= n,
                n == buf@.len(),
                self.data@ == old(self).data@ + buf@.subrange(0, k as int),
            decreases n - k,
        {
            self.data.push(*vstd::slice::slice_index_get(buf, k));
            proof {
                assert(self.data@ =~= old(self).data@ + buf@.subrange(0, k as int + 1));
            }
            k = k + 1;
        }
        proof {
            assert(self.data@ =~= old(self).data@ + buf@);
        }
        Ok(())
    }
}

} // verus!
