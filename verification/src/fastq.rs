//! The FASTQ codec: a record is four consecutive newline-terminated lines —
//! name, sequence, separator, qualities. The reader is the line splitter
//! taken four lines at a time; the writer emits the four lines with newline
//! separators.

use crate::byte_stream::{delim_end, lemma_delim_end, piece_at, BufSource, ByteSink, SeekFrom};
use crate::chunkable::ChunkableRecord;
use crate::errors::SplitError;
use crate::groups::RecordData;
use crate::seekable_split::Split;
use vstd::prelude::*;

verus! {

/// The newline byte terminating each of a FASTQ record's four lines.
pub const FASTQ_DELIM: u8 = 10;

/// One FASTQ record: the four lines, without their newline terminators. The
/// separator line is format residue; the abstract view carries name,
/// sequence, and qualities.
#[derive(Clone, Debug)]
pub struct FastqRecord {
    /// The name line, as read (its leading marker byte included).
    pub name: Vec<u8>,
    /// The base sequence line.
    pub sequence: Vec<u8>,
    /// The separator line (typically a single plus sign).
    pub separator: Vec<u8>,
    /// The base qualities line.
    pub qualities: Vec<u8>,
}

impl View for FastqRecord {
    type V = RecordData;

    open spec fn view(&self) -> RecordData {
        RecordData { qname: self.name@, seq: self.sequence@, qual: self.qualities@ }
    }
}

impl FastqRecord {
    /// The length of the read: how many bases the sequence line holds.
    pub fn len(&self) -> (r: usize)
        ensures
            r == self@.seq.len(),
    {
        self.sequence.len()
    }

    /// Whether the read is empty of bases.
    pub fn is_empty(&self) -> (r: bool)
        ensures
            r == (self@.seq.len() == 0),
    {
        self.sequence.is_empty()
    }

    /// A record with all four lines empty.
    pub fn new() -> (r: Self)
        ensures
            r@ == (RecordData {
                qname: Seq::<u8>::empty(),
                seq: Seq::<u8>::empty(),
                qual: Seq::<u8>::empty(),
            }),
            r.separator@ == Seq::<u8>::empty(),
    {
        FastqRecord {
            name: Vec::<u8>::new(),
            sequence: Vec::<u8>::new(),
            separator: Vec::<u8>::new(),
            qualities: Vec::<u8>::new(),
        }
    }
}

impl Default for FastqRecord {
    fn default() -> (r: Self)
        ensures
            r@ == (RecordData {
                qname: Seq::<u8>::empty(),
                seq: Seq::<u8>::empty(),
                qual: Seq::<u8>::empty(),
            }),
    {
        Self::new()
    }
}

impl ChunkableRecord for FastqRecord {
    fn qname(&self) -> (r: &[u8]) {
        self.name.as_slice()
    }

    fn qual(&self) -> (r: &[u8]) {
        self.qualities.as_slice()
    }

    fn seq(&self) -> (r: &[u8]) {
        self.sequence.as_slice()
    }

    fn new() -> (r: Self) {
        FastqRecord::new()
    }

    fn set_fields(&mut self, qname: &[u8], seq: &[u8], qual: &[u8]) {
        self.name = vstd::slice::slice_to_vec(qname);
        self.sequence = vstd::slice::slice_to_vec(seq);
        self.qualities = vstd::slice::slice_to_vec(qual);
    }
}

/// A reader of FASTQ records over any buffered seekable byte source.
pub struct FastqReader<R: BufSource> {
    split: Split<R>,
}

impl<R: BufSource> FastqReader<R> {
    /// The underlying byte stream.
    pub closed spec fn bytes(&self) -> Seq<u8> {
        self.split.bytes()
    }

    /// The cursor into the underlying stream.
    pub closed spec fn byte_pos(&self) -> int {
        self.split.pos()
    }

    /// The underlying source is usable and cuts at newlines.
    pub closed spec fn stream_wf(&self) -> bool {
        self.split.wf() && self.split.delimiter() == FASTQ_DELIM
    }

    /// The stream is addressable and the cursor non-negative.
    proof fn lemma_stream_wf(&self)
        requires
            self.stream_wf(),
        ensures
            self.bytes().len() <= usize::MAX,
            self.byte_pos() >= 0,
    {
        self.split.lemma_len();
    }

    /// A FASTQ reader over the given byte source.
    pub fn new(reader: R) -> (r: Self)
        ensures
            r.bytes() == reader.bytes(),
            r.byte_pos() == reader.pos(),
            r.stream_wf() == reader.wf(),
    {
        FastqReader { split: Split::new(reader, FASTQ_DELIM) }
    }

    /// Read one line while inside a record, where a missing line means the
    /// trailing record is incomplete.
    fn unwrap_next(&mut self) -> (r: Result<Vec<u8>, SplitError>)
        requires
            old(self).stream_wf(),
        ensures
            final(self).bytes() == old(self).bytes(),
            old(self).byte_pos() >= old(self).bytes().len() ==> (r matches Err(e) && e
                == SplitError::IncompleteFastqRecord),
            r matches Ok(v) ==> ({
                let b = old(self).bytes();
                &&& final(self).stream_wf()
                &&& 0 <= old(self).byte_pos() < b.len()
                &&& v@ == piece_at(b, FASTQ_DELIM, old(self).byte_pos())
                &&& final(self).byte_pos() == delim_end(b, FASTQ_DELIM, old(self).byte_pos())
            }),
    {
        match self.split.next() {
            Option::None => Err(SplitError::IncompleteFastqRecord),
            Option::Some(Ok(v)) => Ok(v),
            Option::Some(Err(e)) => Err(e),
        }
    }

    /// Assemble a record from the already-read name line and the three lines
    /// that must follow it.
    fn next_fastq_record(&mut self, name: Vec<u8>) -> (r: Result<FastqRecord, SplitError>)
        requires
            old(self).stream_wf(),
        ensures
            final(self).bytes() == old(self).bytes(),
            r matches Ok(rec) ==> ({
                let b = old(self).bytes();
                let p1 = old(self).byte_pos();
                let p2 = delim_end(b, FASTQ_DELIM, p1);
                let p3 = delim_end(b, FASTQ_DELIM, p2);
                &&& final(self).stream_wf()
                &&& 0 <= p1 < b.len()
                &&& p2 < b.len()
                &&& p3 < b.len()
                &&& rec.name@ == name@
                &&& rec.sequence@ == piece_at(b, FASTQ_DELIM, p1)
                &&& rec.separator@ == piece_at(b, FASTQ_DELIM, p2)
                &&& rec.qualities@ == piece_at(b, FASTQ_DELIM, p3)
                &&& final(self).byte_pos() == delim_end(b, FASTQ_DELIM, p3)
            }),
    {
        let sequence = match self.unwrap_next() {
            Ok(v) => v,
            Err(e) => {
                return Err(e);
            },
        };
        let separator = match self.unwrap_next() {
            Ok(v) => v,
            Err(e) => {
                return Err(e);
            },
        };
        let qualities = match self.unwrap_next() {
            Ok(v) => v,
            Err(e) => {
                return Err(e);
            },
        };
        Ok(FastqRecord { name, sequence, separator, qualities })
    }

    /// The next FASTQ record: nothing at a clean end of input; an incomplete
    /// trailing record is an error.
    pub fn next(&mut self) -> (r: Option<Result<FastqRecord, SplitError>>)
        requires
            old(self).stream_wf(),
        ensures
            final(self).bytes() == old(self).bytes(),
            (r is None) <==> old(self).byte_pos() >= old(self).bytes().len(),
            r is None ==> final(self).byte_pos() == old(self).byte_pos() && final(self).stream_wf(),
            r matches Some(Ok(rec)) ==> ({
                let b = old(self).bytes();
                let p0 = old(self).byte_pos();
                let p1 = delim_end(b, FASTQ_DELIM, p0);
                let p2 = delim_end(b, FASTQ_DELIM, p1);
                let p3 = delim_end(b, FASTQ_DELIM, p2);
                &&& final(self).stream_wf()
                &&& 0 <= p0 < b.len()
                &&& p1 < b.len()
                &&& p2 < b.len()
                &&& p3 < b.len()
                &&& rec.name@ == piece_at(b, FASTQ_DELIM, p0)
                &&& rec.sequence@ == piece_at(b, FASTQ_DELIM, p1)
                &&& rec.separator@ == piece_at(b, FASTQ_DELIM, p2)
                &&& rec.qualities@ == piece_at(b, FASTQ_DELIM, p3)
                &&& final(self).byte_pos() == delim_end(b, FASTQ_DELIM, p3)
            }),
    {
        match self.split.next() {
            Option::None => None,
            Option::Some(Err(e)) => Some(Err(e)),
            Option::Some(Ok(name)) => Some(self.next_fastq_record(name)),
        }
    }

    /// Forward a seek to the underlying source; the caller is responsible
    /// for the target being the first byte of a record's name line.
    pub fn seek(&mut self, pos: SeekFrom) -> (r: Result<u64, SplitError>)
        requires
            old(self).stream_wf(),
        ensures
            final(self).bytes() == old(self).bytes(),
            r matches Ok(p) ==> ({
                let target = crate::byte_stream::seek_target(
                    pos,
                    old(self).byte_pos(),
                    old(self).bytes().len() as int,
                );
                &&& final(self).stream_wf()
                &&& 0 <= target <= u64::MAX
                &&& p as int == target
                &&& final(self).byte_pos() == target
            }),
    {
        self.split.seek(pos)
    }

    /// The current byte position in the underlying source.
    pub fn stream_position(&mut self) -> (r: Result<u64, SplitError>)
        requires
            old(self).stream_wf(),
        ensures
            *final(self) == *old(self),
            r matches Ok(p) ==> p as int == old(self).byte_pos(),
    {
        self.split.stream_position()
    }
}

/// Serialized form of one FASTQ record: its four lines, each with a newline.
pub open spec fn spec_fastq_bytes(rec: FastqRecord) -> Seq<u8> {
    rec.name@ + seq![FASTQ_DELIM] + rec.sequence@ + seq![FASTQ_DELIM] + rec.separator@
        + seq![FASTQ_DELIM] + rec.qualities@ + seq![FASTQ_DELIM]
}

/// A writer of FASTQ records over any byte sink.
pub struct FastqWriter<W: ByteSink> {
    inner: W,
    records_written: Ghost<Seq<RecordData>>,
}

impl<W: ByteSink> FastqWriter<W> {
    /// All bytes handed to the sink so far.
    pub closed spec fn sink_bytes(&self) -> Seq<u8> {
        self.inner.sink_bytes()
    }

    /// All records written so far, as abstract records.
    pub closed spec fn written(&self) -> Seq<RecordData> {
        self.records_written@
    }

    /// A FASTQ writer over the given sink.
    pub fn new(writer: W) -> (r: Self)
        ensures
            r.sink_bytes() == writer.sink_bytes(),
            r.written() == Seq::<RecordData>::empty(),
    {
        FastqWriter { inner: writer, records_written: Ghost(Seq::empty()) }
    }

    /// Hand the underlying sink back.
    pub fn into_inner(self) -> (r: W)
        ensures
            r.sink_bytes() == self.sink_bytes(),
    {
        self.inner
    }

    /// Write one record as four newline-terminated lines.
    pub fn write(&mut self, fastq_record: &FastqRecord) -> (r: Result<(), SplitError>)
        ensures
            r matches Ok(()) ==> final(self).sink_bytes() == old(self).sink_bytes()
                + spec_fastq_bytes(*fastq_record) && final(self).written() == old(
                self,
            ).written().push(fastq_record@),
            r is Err ==> final(self).written() == old(self).written(),
    {
        let mut newline: Vec<u8> = Vec::new();
        newline.push(FASTQ_DELIM);
        proof {
            assert(newline@ =~= seq![FASTQ_DELIM]);
        }
        match self.inner.write_all(fastq_record.name.as_slice()) {
            Ok(()) => {},
            Err(e) => {
                return Err(e);
            },
        }
        match self.inner.write_all(newline.as_slice()) {
            Ok(()) => {},
            Err(e) => {
                return Err(e);
            },
        }
        match self.inner.write_all(fastq_record.sequence.as_slice()) {
            Ok(()) => {},
            Err(e) => {
                return Err(e);
            },
        }
        match self.inner.write_all(newline.as_slice()) {
            Ok(()) => {},
            Err(e) => {
                return Err(e);
            },
        }
        match self.inner.write_all(fastq_record.separator.as_slice()) {
            Ok(()) => {},
            Err(e) => {
                return Err(e);
            },
        }
        match self.inner.write_all(newline.as_slice()) {
            Ok(()) => {},
            Err(e) => {
                return Err(e);
            },
        }
        match self.inner.write_all(fastq_record.qualities.as_slice()) {
            Ok(()) => {},
            Err(e) => {
                return Err(e);
            },
        }
        match self.inner.write_all(newline.as_slice()) {
            Ok(()) => {},
            Err(e) => {
                return Err(e);
            },
        }
        self.records_written = Ghost(self.records_written@.push(fastq_record@));
        proof {
            assert(self.inner.sink_bytes() =~= old(self).sink_bytes() + spec_fastq_bytes(
                *fastq_record,
            ));
        }
        Ok(())
    }
}

/// The byte offset where the record after the one at `p` begins: four
/// newline-terminated lines later.
pub open spec fn next_record_start(b: Seq<u8>, p: int) -> int {
    delim_end(
        b,
        FASTQ_DELIM,
        delim_end(b, FASTQ_DELIM, delim_end(b, FASTQ_DELIM, delim_end(b, FASTQ_DELIM, p))),
    )
}

/// The byte offset where record `i` begins.
pub open spec fn record_start(b: Seq<u8>, i: int) -> int
    decreases i,
{
    if i <= 0 {
        0
    } else {
        next_record_start(b, record_start(b, i - 1))
    }
}

/// How many records begin at or after byte `p`.
pub open spec fn records_from(b: Seq<u8>, p: int) -> int
    decreases b.len() - p,
    when 0 <= p
    via records_from_decreases
{
    if p >= b.len() {
        0
    } else {
        1 + records_from(b, next_record_start(b, p))
    }
}

#[via_fn]
proof fn records_from_decreases(b: Seq<u8>, p: int) {
    if 0 <= p < b.len() {
        lemma_next_record_start(b, p);
    }
}

/// How many records the byte stream holds.
pub open spec fn fastq_record_count(b: Seq<u8>) -> int {
    records_from(b, 0)
}

/// The abstract record whose name line starts at byte `p`.
pub open spec fn record_at(b: Seq<u8>, p: int) -> RecordData {
    let p1 = delim_end(b, FASTQ_DELIM, p);
    let p2 = delim_end(b, FASTQ_DELIM, p1);
    let p3 = delim_end(b, FASTQ_DELIM, p2);
    RecordData {
        qname: piece_at(b, FASTQ_DELIM, p),
        seq: piece_at(b, FASTQ_DELIM, p1),
        qual: piece_at(b, FASTQ_DELIM, p3),
    }
}

/// The abstract record stream a FASTQ byte stream carries.
pub open spec fn fastq_records(b: Seq<u8>) -> Seq<RecordData> {
    Seq::new(fastq_record_count(b) as nat, |i: int| record_at(b, record_start(b, i)))
}

/// Does byte `p` begin a record (the end of the stream counts as the
/// boundary after the last record)?
pub open spec fn is_record_boundary(b: Seq<u8>, p: int) -> bool {
    exists|i: int|
        0 <= i <= fastq_record_count(b) && (#[trigger] record_start(b, i)) == p
}

/// Which record ordinal begins at byte `p`.
pub open spec fn rec_ordinal(b: Seq<u8>, p: int) -> int {
    choose|i: int| 0 <= i <= fastq_record_count(b) && (#[trigger] record_start(b, i)) == p
}

/// Skipping one record moves forward, and never past the end.
proof fn lemma_next_record_start(b: Seq<u8>, p: int)
    requires
        0 <= p <= b.len(),
    ensures
        p <= next_record_start(b, p) <= b.len(),
        p < b.len() ==> p < next_record_start(b, p),
{
    let p1 = delim_end(b, FASTQ_DELIM, p);
    lemma_delim_end(b, FASTQ_DELIM, p);
    let p2 = delim_end(b, FASTQ_DELIM, p1);
    lemma_delim_end(b, FASTQ_DELIM, p1);
    let p3 = delim_end(b, FASTQ_DELIM, p2);
    lemma_delim_end(b, FASTQ_DELIM, p2);
    lemma_delim_end(b, FASTQ_DELIM, p3);
}

/// Where record `i` starts: inside the stream for `i` below the count, at
/// the very end for `i` equal to it, and past `i` bytes at least.
proof fn lemma_record_start_at(b: Seq<u8>, i: int)
    requires
        0 <= i <= fastq_record_count(b),
    ensures
        i <= record_start(b, i) <= b.len(),
        records_from(b, record_start(b, i)) == fastq_record_count(b) - i,
        i < fastq_record_count(b) ==> record_start(b, i) < b.len(),
        i == fastq_record_count(b) ==> record_start(b, i) == b.len(),
    decreases i,
{
    if i == 0 {
    } else {
        lemma_record_start_at(b, i - 1);
        let prev = record_start(b, i - 1);
        assert(records_from(b, prev) == fastq_record_count(b) - i + 1 >= 1);
        assert(prev < b.len());
        lemma_next_record_start(b, prev);
    }
    let cur = record_start(b, i);
    if cur < b.len() {
        lemma_next_record_start(b, cur);
        lemma_records_from_nonneg(b, next_record_start(b, cur));
    }
}

/// A record count is never negative.
proof fn lemma_records_from_nonneg(b: Seq<u8>, p: int)
    requires
        0 <= p,
    ensures
        records_from(b, p) >= 0,
    decreases (if p >= b.len() {
        0int
    } else {
        b.len() - p
    }),
{
    if p < b.len() {
        lemma_next_record_start(b, p);
        lemma_records_from_nonneg(b, next_record_start(b, p));
    }
}

/// Record starts strictly increase up to the end of the stream.
proof fn lemma_record_start_increasing(b: Seq<u8>, i: int, j: int)
    requires
        0 <= i < j <= fastq_record_count(b),
    ensures
        record_start(b, i) < record_start(b, j),
    decreases j - i,
{
    if i + 1 < j {
        lemma_record_start_increasing(b, i, j - 1);
    }
    lemma_record_start_at(b, j - 1);
    lemma_next_record_start(b, record_start(b, j - 1));
}

/// Each record boundary carries exactly one ordinal.
proof fn lemma_rec_ordinal(b: Seq<u8>, i: int)
    requires
        0 <= i <= fastq_record_count(b),
    ensures
        is_record_boundary(b, record_start(b, i)),
        rec_ordinal(b, record_start(b, i)) == i,
{
    assert(0 <= i <= fastq_record_count(b) && record_start(b, i) == record_start(b, i));
    let j = rec_ordinal(b, record_start(b, i));
    assert(0 <= j <= fastq_record_count(b) && record_start(b, j) == record_start(b, i));
    if j < i {
        lemma_record_start_increasing(b, j, i);
    }
    if i < j {
        lemma_record_start_increasing(b, i, j);
    }
}

impl<R: BufSource> crate::chunkable::ChunkableRecordReader<FastqRecord> for FastqReader<R> {
    closed spec fn records(&self) -> Seq<RecordData> {
        fastq_records(self.bytes())
    }

    closed spec fn pos(&self) -> int {
        rec_ordinal(self.bytes(), self.byte_pos())
    }

    closed spec fn offset_at(&self, i: int) -> u64 {
        record_start(self.bytes(), i) as u64
    }

    closed spec fn wf(&self) -> bool {
        self.stream_wf() && is_record_boundary(self.bytes(), self.byte_pos())
    }

    proof fn lemma_wf(&self) {
        let b = self.bytes();
        self.lemma_stream_wf();
        let i = rec_ordinal(b, self.byte_pos());
        assert(0 <= i <= fastq_record_count(b) && record_start(b, i) == self.byte_pos());
        lemma_record_start_at(b, fastq_record_count(b));
        assert(fastq_record_count(b) <= b.len());
        assert forall|i2: int, j2: int|
            0 <= i2 < j2 <= self.records().len() implies #[trigger] self.offset_at(i2)
            < #[trigger] self.offset_at(j2) by {
            lemma_record_start_increasing(b, i2, j2);
            lemma_record_start_at(b, i2);
            lemma_record_start_at(b, j2);
        }
    }

    fn tell(&mut self) -> (r: Result<u64, SplitError>) {
        proof {
            let b = self.bytes();
            self.lemma_stream_wf();
            let i = rec_ordinal(b, self.byte_pos());
            assert(0 <= i <= fastq_record_count(b) && record_start(b, i) == self.byte_pos());
            lemma_record_start_at(b, i);
        }
        self.stream_position()
    }

    fn seek(&mut self, offset: u64) -> (r: Result<(), SplitError>) {
        let ghost b = self.bytes();
        proof {
            self.lemma_stream_wf();
            let i = choose|i: int|
                0 <= i <= old(self).records().len() && offset == #[trigger] old(self).offset_at(i);
            assert(offset == record_start(b, i) as u64);
            lemma_record_start_at(b, fastq_record_count(b));
            lemma_record_start_at(b, i);
            assert(offset as int == record_start(b, i));
            lemma_rec_ordinal(b, i);
        }
        match FastqReader::seek(self, SeekFrom::Start(offset)) {
            Ok(_) => {
                proof {
                    let i = choose|i: int|
                        0 <= i <= old(self).records().len() && offset == #[trigger] old(
                            self,
                        ).offset_at(i);
                    assert(self.byte_pos() == record_start(b, i));
                    lemma_rec_ordinal(b, i);
                }
                Ok(())
            },
            Err(e) => Err(e),
        }
    }

    fn read_into(&mut self, record: &mut FastqRecord) -> (r: Option<
        Result<(), SplitError>,
    >) {
        let ghost b = self.bytes();
        let ghost i = rec_ordinal(b, self.byte_pos());
        proof {
            self.lemma_stream_wf();
            assert(0 <= i <= fastq_record_count(b) && record_start(b, i) == self.byte_pos());
            lemma_record_start_at(b, i);
            lemma_record_start_at(b, fastq_record_count(b));
        }
        match FastqReader::next(self) {
            Option::None => None,
            Option::Some(Err(e)) => Some(Err(e)),
            Option::Some(Ok(rec)) => {
                proof {
                    assert(i < fastq_record_count(b)) by {
                        if i == fastq_record_count(b) {
                            assert(record_start(b, i) == b.len());
                        }
                    }
                    assert(self.byte_pos() == next_record_start(b, record_start(b, i)));
                    assert(self.byte_pos() == record_start(b, i + 1));
                    lemma_rec_ordinal(b, i + 1);
                    assert(rec@ == record_at(b, record_start(b, i)));
                    assert(rec@ == fastq_records(b)[i]);
                }
                *record = rec;
                Some(Ok(()))
            },
        }
    }
}

impl<W: ByteSink> crate::chunkable::ChunkableRecordWriter<FastqRecord> for FastqWriter<W> {
    closed spec fn written(&self) -> Seq<RecordData> {
        self.records_written@
    }

    fn write(&mut self, record: &FastqRecord) -> (r: Result<(), SplitError>) {
        FastqWriter::<W>::write(self, record)
    }
}

} // verus!
