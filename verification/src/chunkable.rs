//! Traits for chunk extraction: records, readers, writers, and the index
//! lookups a reader needs to fast-forward to its chunk, together with the
//! chunk-writing loops.

use crate::errors::SplitError;
use crate::groups::{
    group_cut, group_first_record, is_group_boundary, is_group_start, lemma_group_cut_in_range,
    lemma_group_cut_monotone, lemma_group_first_record, lemma_group_run,
    lemma_queries_before_monotone, lemma_queries_before_pos, queries_before, total_queries,
    RecordData,
};
use crate::split_index::{
    bin_start, first_at_least, lemma_first_at_least, lemma_valid_for_wf_counts, seq_num_queries,
    spec_bin_range, valid_bin, valid_for, wf_counts, SplitRecord,
};
use vstd::prelude::*;

verus! {

/// Byte-string equality, the one comparison the chunking logic performs on
/// record contents.
pub fn bytes_equal(a: &[u8], b: &[u8]) -> (r: bool)
    ensures
        r == (a@ == b@),
{
    if a.len() != b.len() {
        return false;
    }
    let n = a.len();
    let mut k: usize = 0;
    while k < n
        invariant
            0 <= k <= n,
            n == a@.len() == b@.len(),
            forall|i: int| 0 <= i < k ==> a@[i] == b@[i],
        decreases n - k,
    {
        if *vstd::slice::slice_index_get(a, k) != *vstd::slice::slice_index_get(b, k) {
            return false;
        }
        k = k + 1;
    }
    proof {
        assert(a@ =~= b@);
    }
    true
}

/// A record that can travel through chunk extraction: its view is the
/// abstract triple of query name, sequence, and qualities.
pub trait ChunkableRecord: View<V = RecordData> + Sized {
    /// The query name; adjacent records sharing it form one query group.
    fn qname(&self) -> (r: &[u8])
        ensures
            r@ == self@.qname,
    ;

    /// The base sequence, opaque passthrough data.
    fn seq(&self) -> (r: &[u8])
        ensures
            r@ == self@.seq,
    ;

    /// The base qualities, opaque passthrough data.
    fn qual(&self) -> (r: &[u8])
        ensures
            r@ == self@.qual,
    ;

    /// A fresh reusable record buffer.
    fn new() -> Self;

    /// Overwrite the three abstract fields.
    fn set_fields(&mut self, qname: &[u8], seq: &[u8], qual: &[u8])
        ensures
            final(self)@ == (RecordData { qname: qname@, seq: seq@, qual: qual@ }),
    ;
}

/// The cross-format adapter: copy the three abstract fields from a record of
/// any kind into a record of any other.
pub fn translate<Dst: ChunkableRecord, Src: ChunkableRecord>(dst: &mut Dst, src: &Src)
    ensures
        final(dst)@ == src@,
{
    dst.set_fields(src.qname(), src.seq(), src.qual());
}

/// A writer that accepts records of one kind; its view is the sequence of
/// records written so far.
pub trait ChunkableRecordWriter<R: ChunkableRecord> {
    /// Everything written so far, as abstract records.
    spec fn written(&self) -> Seq<RecordData>;

    /// Write one record.
    fn write(&mut self, record: &R) -> (r: Result<(), SplitError>)
        ensures
            r matches Ok(()) ==> final(self).written() == old(self).written().push(record@),
            r is Err ==> final(self).written() == old(self).written(),
    ;
}

/// All the information of one index entry, widened with the cumulative
/// counts at the end of the previous bin.
#[derive(Clone, Copy, Debug, PartialEq, Eq, Structural)]
pub struct SplitRange {
    /// File offset of the first record in this bin.
    pub offset: u64,
    /// Cumulative number of queries in the whole file at the end of the
    /// previous bin.
    pub num_previous_queries: usize,
    /// Cumulative number of queries in the whole file at the end of this bin.
    pub num_end_queries: usize,
    /// Cumulative number of reads in the whole file at the end of the
    /// previous bin.
    pub num_previous_reads: usize,
    /// Cumulative number of reads in the whole file at the end of this bin.
    pub num_end_reads: usize,
}

/// An index that lets a reader fast-forward to a chunk: it answers where a
/// chunk's query range begins and which bin contains a given query ordinal.
pub trait FastForwardIndex: Sized {
    /// The split records this index holds, in order.
    spec fn index_records(&self) -> Seq<SplitRecord>;

    /// The number of query groups that should have been fully read before
    /// chunk `chunk_index` of `num_chunks` begins. Equivalently, the zero
    /// based ordinal of the query group that opens the chunk. The division
    /// is exact: no rounding drift and no overflow for any chunk count.
    fn get_chunk_query_start(&self, chunk_index: usize, num_chunks: usize) -> (r: Result<
        usize,
        SplitError,
    >)
        requires
            num_chunks >= 1,
        ensures
            ({
                let t = seq_num_queries(self.index_records());
                &&& chunk_index <= num_chunks ==> (r matches Ok(q) && q == (chunk_index * t) / (
                num_chunks as int))
                &&& chunk_index > num_chunks ==> (r matches Err(e) && e
                    == SplitError::InvalidChunkArgs)
            }),
    ;

    /// The range of the first bin whose end-of-bin query count reaches
    /// `num_queries`, or nothing when every bin ends short of it.
    fn get_record_for_num_queries(&self, num_queries: usize) -> (r: Option<SplitRange>)
        requires
            wf_counts(self.index_records()),
        ensures
            ({
                let recs = self.index_records();
                let i = first_at_least(recs, num_queries as int);
                if i == recs.len() {
                    r is None
                } else {
                    r == Some(spec_bin_range(recs, i))
                }
            }),
    ;
}

/// The state a reader carries right after fast-forwarding to a chunk: the
/// counters bounding the chunk and the one record read ahead.
pub struct FastForwardInfo<R: ChunkableRecord> {
    /// One-based ordinal of the query group the in-flight record opens.
    num_queries: usize,
    /// Query ordinal at which the chunk ends.
    stop_num_queries: usize,
    /// Records consumed from the start of the stream, in-flight one included.
    num_reads: usize,
    /// Record count that must never be read past: the end of the bin
    /// containing the chunk's final query group.
    hard_stop_num_reads: usize,
    /// The in-flight record: read from the stream, not yet written.
    record: R,
}

impl<R: ChunkableRecord> FastForwardInfo<R> {
    /// Index of the in-flight record in the stream.
    pub closed spec fn cur_record(&self) -> int {
        self.num_reads - 1
    }

    /// One past the zero-based ordinal of the chunk's last query group.
    pub closed spec fn stop_group(&self) -> int {
        self.stop_num_queries as int
    }

    /// The state agrees with a reader over stream `s` whose cursor sits at
    /// `pos`: the in-flight record is the first record of its query group,
    /// the counters match the cursor, and the hard stop covers the chunk's
    /// final group without passing the end of the stream.
    pub closed spec fn wf_with(&self, s: Seq<RecordData>, pos: int) -> bool {
        &&& 1 <= self.num_queries as int <= self.stop_num_queries as int <= total_queries(s)
        &&& self.num_reads as int == pos
        &&& 1 <= self.num_reads as int <= s.len()
        &&& self.record@ == s[self.num_reads - 1]
        &&& self.num_reads - 1 == group_first_record(s, self.num_queries - 1)
        &&& group_cut(s, self.stop_num_queries as int) <= self.hard_stop_num_reads as int
            <= s.len()
    }

    /// Write the rest of this chunk, reading and writing the same record
    /// kind: exactly the records from the in-flight one through the end of
    /// the chunk's last query group are emitted, in order.
    #[verifier::loop_isolation(false)]
    pub fn write_chunk<Reader, Writer>(&mut self, reader: &mut Reader, writer: &mut Writer) -> (r:
        Result<(), SplitError>)
        where Reader: ChunkableRecordReader<R>, Writer: ChunkableRecordWriter<R>,
        requires
            old(reader).wf(),
            old(self).wf_with(old(reader).records(), old(reader).pos()),
        ensures
            final(reader).records() == old(reader).records(),
            r matches Ok(()) ==> final(writer).written() == old(writer).written() + old(reader).records().subrange(
                old(self).cur_record(),
                group_cut(old(reader).records(), old(self).stop_group()),
            ),
            r is Err ==> (exists|m: int|
                old(self).cur_record() <= m <= old(reader).records().len() && final(writer).written() == old(writer).written() + (#[trigger] old(reader).records().subrange(old(self).cur_record(), m))),
    {
        let ghost s = reader.records();
        let ghost w0 = writer.written();
        let ghost r0 = self.num_reads - 1;
        let ghost stopq = self.stop_num_queries as int;
        let ghost hard0 = self.hard_stop_num_reads as int;
        let mut last_query_name: Vec<u8> = vstd::slice::slice_to_vec(self.record.qname());
        proof {
            reader.lemma_wf();
            lemma_group_first_record(s, self.num_queries - 1);
        }
        while self.num_queries < self.stop_num_queries
            invariant
                reader.wf(),
                reader.records() == s,
                self.stop_num_queries as int == stopq,
                self.hard_stop_num_reads as int == hard0,
                1 <= self.num_queries as int <= stopq <= total_queries(s),
                self.num_reads as int == reader.pos(),
                1 <= self.num_reads as int <= s.len(),
                self.record@ == s[self.num_reads - 1],
                self.num_reads - 1 == group_first_record(s, self.num_queries - 1),
                last_query_name@ == s[self.num_reads - 1].qname,
                0 <= r0 <= self.num_reads - 1,
                writer.written() == w0 + s.subrange(r0, self.num_reads - 1),
            decreases stopq - self.num_queries,
        {
            let ghost g = self.num_queries - 1;
            proof {
                lemma_group_run(s, g);
                lemma_group_cut_in_range(s, g + 1);
                if g + 1 < total_queries(s) {
                    lemma_group_first_record(s, g + 1);
                }
            }
            match writer.write(&self.record) {
                Ok(()) => {},
                Err(e) => {
                    proof {
                        assert(writer.written() =~= w0 + s.subrange(r0, self.num_reads - 1));
                        lemma_written_prefix(
                            old(writer).written(),
                            old(reader).records(),
                            old(self).cur_record(),
                            self.num_reads - 1,
                            writer.written(),
                        );
                    }
                    return Err(e);
                },
            }
            proof {
                assert(w0 + s.subrange(r0, self.num_reads - 1) + seq![self.record@] =~= w0
                    + s.subrange(r0, self.num_reads as int));
            }
            match reader.read_no_missing(&mut self.record, &mut self.num_reads) {
                Ok(()) => {},
                Err(e) => {
                    proof {
                        assert(writer.written() =~= w0 + s.subrange(r0, self.num_reads - 1));
                        lemma_written_prefix(
                            old(writer).written(),
                            old(reader).records(),
                            old(self).cur_record(),
                            self.num_reads - 1,
                            writer.written(),
                        );
                    }
                    return Err(e);
                },
            }
            while bytes_equal(self.record.qname(), last_query_name.as_slice())
                invariant
                    reader.wf(),
                    reader.records() == s,
                    self.num_reads as int == reader.pos(),
                    group_first_record(s, g) < self.num_reads - 1 <= group_cut(s, g + 1),
                    self.record@ == s[self.num_reads - 1],
                    last_query_name@ == s[group_first_record(s, g)].qname,
                    0 <= r0 <= self.num_reads - 1,
                    self.num_queries as int == g + 1,
                    self.stop_num_queries as int == stopq,
                    self.hard_stop_num_reads as int == hard0,
                    g + 2 <= stopq,
                    writer.written() == w0 + s.subrange(r0, self.num_reads - 1),
                decreases group_cut(s, g + 1) + 1 - self.num_reads,
            {
                proof {
                    if self.num_reads - 1 == group_cut(s, g + 1) {
                        assert(is_group_start(s, group_cut(s, g + 1)));
                        assert(s[self.num_reads - 1].qname != s[self.num_reads - 2].qname);
                        assert(s[self.num_reads - 2].qname == s[group_first_record(s, g)].qname);
                        assert(false);
                    }
                }
                match writer.write(&self.record) {
                    Ok(()) => {},
                    Err(e) => {
                    proof {
                        assert(writer.written() =~= w0 + s.subrange(r0, self.num_reads - 1));
                        lemma_written_prefix(
                            old(writer).written(),
                            old(reader).records(),
                            old(self).cur_record(),
                            self.num_reads - 1,
                            writer.written(),
                        );
                    }
                    return Err(e);
                },
                }
                proof {
                    assert(w0 + s.subrange(r0, self.num_reads - 1) + seq![self.record@] =~= w0
                        + s.subrange(r0, self.num_reads as int));
                }
                match reader.read_no_missing(&mut self.record, &mut self.num_reads) {
                    Ok(()) => {},
                    Err(e) => {
                    proof {
                        assert(writer.written() =~= w0 + s.subrange(r0, self.num_reads - 1));
                        lemma_written_prefix(
                            old(writer).written(),
                            old(reader).records(),
                            old(self).cur_record(),
                            self.num_reads - 1,
                            writer.written(),
                        );
                    }
                    return Err(e);
                },
                }
            }
            proof {
                assert(self.num_reads - 1 == group_cut(s, g + 1));
                assert(g + 1 < total_queries(s)) by {
                    if g + 1 == total_queries(s) {
                        assert(group_cut(s, g + 1) == s.len());
                    }
                }
                assert(is_group_start(s, self.num_reads - 1));
                assert(queries_before(s, self.num_reads - 1) == g + 1) by {
                    lemma_group_cut_in_range(s, g + 1);
                }
                lemma_group_first_record(s, g + 1);
            }
            self.num_queries = self.num_queries + 1;
            let next_name = vstd::slice::slice_to_vec(self.record.qname());
            last_query_name = next_name;
        }
        let ghost gl = self.num_queries - 1;
        proof {
            lemma_group_run(s, gl);
            lemma_group_cut_in_range(s, gl + 1);
        }
        match writer.write(&self.record) {
            Ok(()) => {},
            Err(e) => {
                proof {
                    lemma_written_prefix(
                        old(writer).written(),
                        old(reader).records(),
                        old(self).cur_record(),
                        self.num_reads - 1,
                        writer.written(),
                    );
                }
                return Err(e);
            },
        }
        proof {
            assert(w0 + s.subrange(r0, self.num_reads - 1) + seq![self.record@] =~= w0 + s.subrange(
                r0,
                self.num_reads as int,
            ));
        }
        #[verifier::loop_isolation(true)]
        while self.num_reads < self.hard_stop_num_reads
            invariant_except_break
                group_first_record(s, gl) < self.num_reads as int <= group_cut(s, gl + 1),
                writer.written() == w0 + s.subrange(r0, self.num_reads as int),
                self.num_reads as int == reader.pos(),
                reader.wf(),
                reader.records() == s,
                s == old(reader).records(),
                s.len() <= usize::MAX,
                w0 == old(writer).written(),
                r0 == old(self).cur_record(),
                self.hard_stop_num_reads as int == hard0,
                0 <= gl < total_queries(s),
                group_cut(s, gl + 1) <= hard0 <= s.len(),
                0 <= r0 <= group_first_record(s, gl),
                last_query_name@ == s[group_first_record(s, gl)].qname,
            ensures
                reader.records() == s,
                writer.written() == w0 + s.subrange(r0, group_cut(s, gl + 1)),
            decreases hard0 - self.num_reads,
        {
            proof {
                lemma_group_run(s, gl);
                lemma_group_cut_in_range(s, gl + 1);
            }
            match reader.read_no_missing(&mut self.record, &mut self.num_reads) {
                Ok(()) => {},
                Err(e) => {
                    proof {
                        assert(writer.written() =~= w0 + s.subrange(r0, self.num_reads - 1));
                        lemma_written_prefix(
                            old(writer).written(),
                            old(reader).records(),
                            old(self).cur_record(),
                            self.num_reads - 1,
                            writer.written(),
                        );
                    }
                    return Err(e);
                },
            }
            if !bytes_equal(self.record.qname(), last_query_name.as_slice()) {
                proof {
                    assert(self.num_reads - 1 == group_cut(s, gl + 1)) by {
                        if self.num_reads - 1 < group_cut(s, gl + 1) {
                            assert(s[self.num_reads - 1].qname == s[group_first_record(
                                s,
                                gl,
                            )].qname);
                        }
                    }
                }
                break ;
            }
            proof {
                assert(self.num_reads - 1 < group_cut(s, gl + 1)) by {
                    if self.num_reads - 1 == group_cut(s, gl + 1) {
                        assert(group_cut(s, gl + 1) < s.len());
                        assert(is_group_start(s, group_cut(s, gl + 1)));
                        assert(s[self.num_reads - 1].qname != s[self.num_reads - 2].qname);
                        assert(s[self.num_reads - 2].qname == s[group_first_record(s, gl)].qname);
                    }
                }
            }
            match writer.write(&self.record) {
                Ok(()) => {},
                Err(e) => {
                    proof {
                        assert(writer.written() =~= w0 + s.subrange(r0, self.num_reads - 1));
                        lemma_written_prefix(
                            old(writer).written(),
                            old(reader).records(),
                            old(self).cur_record(),
                            self.num_reads - 1,
                            writer.written(),
                        );
                    }
                    return Err(e);
                },
            }
            proof {
                assert(w0 + s.subrange(r0, self.num_reads - 1) + seq![self.record@] =~= w0
                    + s.subrange(r0, self.num_reads as int));
            }
        }
        proof {
            assert(group_cut(s, stopq) == group_cut(s, gl + 1));
        }
        Ok(())
    }

    /// Write the rest of this chunk into a writer of a different record
    /// kind, translating each record: the emitted abstract records are the
    /// same as `write_chunk` would emit.
    #[verifier::loop_isolation(false)]
    pub fn translate_and_write_chunk<WriteRecord, Reader, Writer>(
        &mut self,
        reader: &mut Reader,
        writer: &mut Writer,
    ) -> (r: Result<(), SplitError>)
        where
            WriteRecord: ChunkableRecord,
            Reader: ChunkableRecordReader<R>,
            Writer: ChunkableRecordWriter<WriteRecord>,
        requires
            old(reader).wf(),
            old(self).wf_with(old(reader).records(), old(reader).pos()),
        ensures
            final(reader).records() == old(reader).records(),
            r matches Ok(()) ==> final(writer).written() == old(writer).written() + old(reader).records().subrange(
                old(self).cur_record(),
                group_cut(old(reader).records(), old(self).stop_group()),
            ),
            r is Err ==> (exists|m: int|
                old(self).cur_record() <= m <= old(reader).records().len() && final(writer).written() == old(writer).written() + (#[trigger] old(reader).records().subrange(old(self).cur_record(), m))),
    {
        let ghost s = reader.records();
        let ghost w0 = writer.written();
        let ghost r0 = self.num_reads - 1;
        let ghost stopq = self.stop_num_queries as int;
        let ghost hard0 = self.hard_stop_num_reads as int;
        let mut last_query_name: Vec<u8> = vstd::slice::slice_to_vec(self.record.qname());
        let mut write_record = WriteRecord::new();
        proof {
            reader.lemma_wf();
            lemma_group_first_record(s, self.num_queries - 1);
        }
        while self.num_queries < self.stop_num_queries
            invariant
                reader.wf(),
                reader.records() == s,
                self.stop_num_queries as int == stopq,
                self.hard_stop_num_reads as int == hard0,
                1 <= self.num_queries as int <= stopq <= total_queries(s),
                self.num_reads as int == reader.pos(),
                1 <= self.num_reads as int <= s.len(),
                self.record@ == s[self.num_reads - 1],
                self.num_reads - 1 == group_first_record(s, self.num_queries - 1),
                last_query_name@ == s[self.num_reads - 1].qname,
                0 <= r0 <= self.num_reads - 1,
                writer.written() == w0 + s.subrange(r0, self.num_reads - 1),
            decreases stopq - self.num_queries,
        {
            let ghost g = self.num_queries - 1;
            proof {
                lemma_group_run(s, g);
                lemma_group_cut_in_range(s, g + 1);
                if g + 1 < total_queries(s) {
                    lemma_group_first_record(s, g + 1);
                }
            }
            translate(&mut write_record, &self.record);
            match writer.write(&write_record) {
                Ok(()) => {},
                Err(e) => {
                    proof {
                        assert(writer.written() =~= w0 + s.subrange(r0, self.num_reads - 1));
                        lemma_written_prefix(
                            old(writer).written(),
                            old(reader).records(),
                            old(self).cur_record(),
                            self.num_reads - 1,
                            writer.written(),
                        );
                    }
                    return Err(e);
                },
            }
            proof {
                assert(w0 + s.subrange(r0, self.num_reads - 1) + seq![self.record@] =~= w0
                    + s.subrange(r0, self.num_reads as int));
            }
            match reader.read_no_missing(&mut self.record, &mut self.num_reads) {
                Ok(()) => {},
                Err(e) => {
                    proof {
                        assert(writer.written() =~= w0 + s.subrange(r0, self.num_reads - 1));
                        lemma_written_prefix(
                            old(writer).written(),
                            old(reader).records(),
                            old(self).cur_record(),
                            self.num_reads - 1,
                            writer.written(),
                        );
                    }
                    return Err(e);
                },
            }
            while bytes_equal(self.record.qname(), last_query_name.as_slice())
                invariant
                    reader.wf(),
                    reader.records() == s,
                    self.num_reads as int == reader.pos(),
                    group_first_record(s, g) < self.num_reads - 1 <= group_cut(s, g + 1),
                    self.record@ == s[self.num_reads - 1],
                    last_query_name@ == s[group_first_record(s, g)].qname,
                    0 <= r0 <= self.num_reads - 1,
                    self.num_queries as int == g + 1,
                    self.stop_num_queries as int == stopq,
                    self.hard_stop_num_reads as int == hard0,
                    g + 2 <= stopq,
                    writer.written() == w0 + s.subrange(r0, self.num_reads - 1),
                decreases group_cut(s, g + 1) + 1 - self.num_reads,
            {
                proof {
                    if self.num_reads - 1 == group_cut(s, g + 1) {
                        assert(is_group_start(s, group_cut(s, g + 1)));
                        assert(s[self.num_reads - 1].qname != s[self.num_reads - 2].qname);
                        assert(s[self.num_reads - 2].qname == s[group_first_record(s, g)].qname);
                        assert(false);
                    }
                }
                translate(&mut write_record, &self.record);
                match writer.write(&write_record) {
                    Ok(()) => {},
                    Err(e) => {
                    proof {
                        assert(writer.written() =~= w0 + s.subrange(r0, self.num_reads - 1));
                        lemma_written_prefix(
                            old(writer).written(),
                            old(reader).records(),
                            old(self).cur_record(),
                            self.num_reads - 1,
                            writer.written(),
                        );
                    }
                    return Err(e);
                },
                }
                proof {
                    assert(w0 + s.subrange(r0, self.num_reads - 1) + seq![self.record@] =~= w0
                        + s.subrange(r0, self.num_reads as int));
                }
                match reader.read_no_missing(&mut self.record, &mut self.num_reads) {
                    Ok(()) => {},
                    Err(e) => {
                    proof {
                        assert(writer.written() =~= w0 + s.subrange(r0, self.num_reads - 1));
                        lemma_written_prefix(
                            old(writer).written(),
                            old(reader).records(),
                            old(self).cur_record(),
                            self.num_reads - 1,
                            writer.written(),
                        );
                    }
                    return Err(e);
                },
                }
            }
            proof {
                assert(self.num_reads - 1 == group_cut(s, g + 1));
                assert(g + 1 < total_queries(s)) by {
                    if g + 1 == total_queries(s) {
                        assert(group_cut(s, g + 1) == s.len());
                    }
                }
                assert(is_group_start(s, self.num_reads - 1));
                assert(queries_before(s, self.num_reads - 1) == g + 1) by {
                    lemma_group_cut_in_range(s, g + 1);
                }
                lemma_group_first_record(s, g + 1);
            }
            self.num_queries = self.num_queries + 1;
            let next_name = vstd::slice::slice_to_vec(self.record.qname());
            last_query_name = next_name;
        }
        let ghost gl = self.num_queries - 1;
        proof {
            lemma_group_run(s, gl);
            lemma_group_cut_in_range(s, gl + 1);
        }
        translate(&mut write_record, &self.record);
        match writer.write(&write_record) {
            Ok(()) => {},
            Err(e) => {
                proof {
                    lemma_written_prefix(
                        old(writer).written(),
                        old(reader).records(),
                        old(self).cur_record(),
                        self.num_reads - 1,
                        writer.written(),
                    );
                }
                return Err(e);
            },
        }
        proof {
            assert(w0 + s.subrange(r0, self.num_reads - 1) + seq![self.record@] =~= w0 + s.subrange(
                r0,
                self.num_reads as int,
            ));
        }
        #[verifier::loop_isolation(true)]
        while self.num_reads < self.hard_stop_num_reads
            invariant_except_break
                group_first_record(s, gl) < self.num_reads as int <= group_cut(s, gl + 1),
                writer.written() == w0 + s.subrange(r0, self.num_reads as int),
                self.num_reads as int == reader.pos(),
                reader.wf(),
                reader.records() == s,
                s == old(reader).records(),
                s.len() <= usize::MAX,
                w0 == old(writer).written(),
                r0 == old(self).cur_record(),
                self.hard_stop_num_reads as int == hard0,
                0 <= gl < total_queries(s),
                group_cut(s, gl + 1) <= hard0 <= s.len(),
                0 <= r0 <= group_first_record(s, gl),
                last_query_name@ == s[group_first_record(s, gl)].qname,
            ensures
                reader.records() == s,
                writer.written() == w0 + s.subrange(r0, group_cut(s, gl + 1)),
            decreases hard0 - self.num_reads,
        {
            proof {
                lemma_group_run(s, gl);
                lemma_group_cut_in_range(s, gl + 1);
            }
            match reader.read_no_missing(&mut self.record, &mut self.num_reads) {
                Ok(()) => {},
                Err(e) => {
                    proof {
                        assert(writer.written() =~= w0 + s.subrange(r0, self.num_reads - 1));
                        lemma_written_prefix(
                            old(writer).written(),
                            old(reader).records(),
                            old(self).cur_record(),
                            self.num_reads - 1,
                            writer.written(),
                        );
                    }
                    return Err(e);
                },
            }
            if !bytes_equal(self.record.qname(), last_query_name.as_slice()) {
                proof {
                    assert(self.num_reads - 1 == group_cut(s, gl + 1)) by {
                        if self.num_reads - 1 < group_cut(s, gl + 1) {
                            assert(s[self.num_reads - 1].qname == s[group_first_record(
                                s,
                                gl,
                            )].qname);
                        }
                    }
                }
                break ;
            }
            proof {
                assert(self.num_reads - 1 < group_cut(s, gl + 1)) by {
                    if self.num_reads - 1 == group_cut(s, gl + 1) {
                        assert(group_cut(s, gl + 1) < s.len());
                        assert(is_group_start(s, group_cut(s, gl + 1)));
                        assert(s[self.num_reads - 1].qname != s[self.num_reads - 2].qname);
                        assert(s[self.num_reads - 2].qname == s[group_first_record(s, gl)].qname);
                    }
                }
            }
            translate(&mut write_record, &self.record);
            match writer.write(&write_record) {
                Ok(()) => {},
                Err(e) => {
                    proof {
                        assert(writer.written() =~= w0 + s.subrange(r0, self.num_reads - 1));
                        lemma_written_prefix(
                            old(writer).written(),
                            old(reader).records(),
                            old(self).cur_record(),
                            self.num_reads - 1,
                            writer.written(),
                        );
                    }
                    return Err(e);
                },
            }
            proof {
                assert(w0 + s.subrange(r0, self.num_reads - 1) + seq![self.record@] =~= w0
                    + s.subrange(r0, self.num_reads as int));
            }
        }
        proof {
            assert(group_cut(s, stopq) == group_cut(s, gl + 1));
        }
        Ok(())
    }
}

/// A reader that can fast-forward to a chunk and then hand out that chunk's
/// records. Its view is the whole underlying record stream, a cursor into
/// it, and the opaque file offset of each record boundary.
pub trait ChunkableRecordReader<R: ChunkableRecord>: Sized {
    /// The full stream of records behind this reader, in order.
    spec fn records(&self) -> Seq<RecordData>;

    /// Index of the next record to be read.
    spec fn pos(&self) -> int;

    /// The opaque file offset of the `i`-th record boundary; `i` may be the
    /// stream's length, naming the end of the stream. An index stores these
    /// values and a later seek replays them.
    spec fn offset_at(&self, i: int) -> u64;

    /// The reader is in a usable state.
    spec fn wf(&self) -> bool;

    /// What well-formedness guarantees: the cursor is inside the stream and
    /// offsets of distinct boundaries are distinct and ordered.
    proof fn lemma_wf(&self)
        requires
            self.wf(),
        ensures
            0 <= self.pos() <= self.records().len(),
            self.records().len() <= usize::MAX,
            forall|i: int, j: int|
                0 <= i < j <= self.records().len() ==> #[trigger] self.offset_at(i)
                    < #[trigger] self.offset_at(j),
    ;

    /// The offset of the next record to be read, as the index will store it.
    fn tell(&mut self) -> (r: Result<u64, SplitError>)
        requires
            old(self).wf(),
        ensures
            *final(self) == *old(self),
            r matches Ok(o) ==> o == old(self).offset_at(old(self).pos()),
    ;

    /// Move the cursor to a record boundary previously reported by `tell`.
    fn seek(&mut self, offset: u64) -> (r: Result<(), SplitError>)
        requires
            old(self).wf(),
            exists|i: int|
                0 <= i <= old(self).records().len() && offset == #[trigger] old(self).offset_at(i),
        ensures
            final(self).records() == old(self).records(),
            forall|i: int| #[trigger] final(self).offset_at(i) == old(self).offset_at(i),
            r matches Ok(()) ==> final(self).wf() && 0 <= final(self).pos() <= final(self).records().len() && final(self).offset_at(final(self).pos()) == offset,
    ;

    /// Read the next record into `record`: nothing at a clean end of stream,
    /// otherwise the record under the cursor, advancing it.
    fn read_into(&mut self, record: &mut R) -> (r: Option<Result<(), SplitError>>)
        requires
            old(self).wf(),
        ensures
            final(self).records() == old(self).records(),
            forall|i: int| #[trigger] final(self).offset_at(i) == old(self).offset_at(i),
            old(self).pos() == old(self).records().len() ==> r is None && final(self).wf()
                && final(self).pos() == old(self).pos() && *final(record) == *old(record),
            old(self).pos() < old(self).records().len() ==> r is Some,
            r matches Some(Ok(())) ==> final(self).wf() && old(self).pos() < old(self).records().len() && final(self).pos() == old(self).pos() + 1 && final(record)@ == old(self).records()[old(self).pos()],
    ;

    /// Read a record that must exist, bumping the caller's record counter;
    /// a clean end of stream becomes a truncation error.
    fn read_no_missing(&mut self, record: &mut R, num_reads: &mut usize) -> (r: Result<
        (),
        SplitError,
    >)
        requires
            old(self).wf(),
            *old(num_reads) < usize::MAX,
        ensures
            final(self).records() == old(self).records(),
            forall|i: int| #[trigger] final(self).offset_at(i) == old(self).offset_at(i),
            *final(num_reads) == *old(num_reads) + 1,
            old(self).pos() == old(self).records().len() ==> (r matches Err(e) && e
                == SplitError::TruncatedInput),
            r matches Ok(()) ==> final(self).wf() && old(self).pos() < old(self).records().len() && final(self).pos() == old(self).pos() + 1 && final(record)@ == old(self).records()[old(self).pos()],
    {
        *num_reads = *num_reads + 1;
        match self.read_into(record) {
            Option::None => Err(SplitError::TruncatedInput),
            Option::Some(Ok(())) => Ok(()),
            Option::Some(Err(e)) => Err(e),
        }
    }

    /// Fast-forward to the start of chunk `chunk_index` of `num_chunks`,
    /// using an index that is valid for this reader's stream. Yields nothing
    /// for an empty chunk; otherwise the returned state has the chunk's
    /// first record in flight, ready for `write_chunk`.
    #[verifier::loop_isolation(false)]
    fn fast_forward<SI: FastForwardIndex>(
        &mut self,
        split_index: SI,
        chunk_index: usize,
        num_chunks: usize,
    ) -> (r: Result<Option<FastForwardInfo<R>>, SplitError>)
        requires
            old(self).wf(),
            num_chunks >= 1,
            chunk_index < usize::MAX,
            valid_for(
                split_index.index_records(),
                old(self).records(),
                |i: int| old(self).offset_at(i),
            ),
        ensures
            final(self).records() == old(self).records(),
            chunk_index >= num_chunks ==> (r matches Err(e) && e == SplitError::InvalidChunkArgs),
            ({
                let t = total_queries(old(self).records());
                let startq = (chunk_index as int * t) / (num_chunks as int);
                let stopq = ((chunk_index as int + 1) * t) / (num_chunks as int);
                chunk_index < num_chunks && startq >= stopq ==> (r matches Ok(opt) && opt is None)
            }),
            r matches Ok(opt) ==> chunk_index < num_chunks && ({
                let s = old(self).records();
                let t = total_queries(s);
                let startq = (chunk_index as int * t) / (num_chunks as int);
                let stopq = ((chunk_index as int + 1) * t) / (num_chunks as int);
                &&& (opt is None <==> startq >= stopq)
                &&& (opt matches Some(info) ==> final(self).wf() && info.wf_with(
                    final(self).records(),
                    final(self).pos(),
                ) && info.cur_record() == group_cut(s, startq) && info.stop_group() == stopq
                    && startq < stopq)
            }),
    {
        let ghost s = self.records();
        let ghost off = |i: int| self.offset_at(i);
        let ghost recs = split_index.index_records();
        proof {
            lemma_valid_for_wf_counts(recs, s, off);
            lemma_total_agrees(recs, s, off);
            self.lemma_wf();
        }
        let ghost t = total_queries(s);
        let start_num_queries = match split_index.get_chunk_query_start(chunk_index, num_chunks) {
            Ok(q) => q,
            Err(e) => {
                return Err(e);
            },
        };
        let stop_num_queries = match split_index.get_chunk_query_start(
            chunk_index + 1,
            num_chunks,
        ) {
            Ok(q) => q,
            Err(e) => {
                return Err(e);
            },
        };
        if start_num_queries >= stop_num_queries {
            return Ok(None);
        }
        let ghost startq = start_num_queries as int;
        let ghost stopq = stop_num_queries as int;
        proof {
            // both chunk bounds stay within the total
            vstd::arithmetic::mul::lemma_mul_inequality(
                chunk_index as int + 1,
                num_chunks as int,
                t,
            );
            vstd::arithmetic::div_mod::lemma_div_is_ordered(
                (chunk_index as int + 1) * t,
                num_chunks as int * t,
                num_chunks as int,
            );
            vstd::arithmetic::div_mod::lemma_div_multiples_vanish(t, num_chunks as int);
            assert(stopq <= t);
            lemma_first_at_least(recs, startq);
            if first_at_least(recs, startq) == recs.len() {
                assert(recs[recs.len() - 1].num_queries < startq);
                assert(false);
            }
        }
        let split_range = match split_index.get_record_for_num_queries(start_num_queries) {
            Some(rg) => rg,
            None => {
                return Err(SplitError::CorruptIndex);
            },
        };
        let ghost b = first_at_least(recs, startq);
        let ghost b0 = bin_start(recs, b);
        proof {
            assert(valid_bin(recs, s, off, b));
            if b > 0 {
                assert(valid_bin(recs, s, off, b - 1));
            }
            assert(split_range.offset == off(b0));
            assert(queries_before(s, b0) == split_range.num_previous_queries as int);
            assert(is_group_boundary(s, b0));
            assert(b0 < recs[b].num_reads <= s.len());
        }
        match self.seek(split_range.offset) {
            Ok(()) => {},
            Err(e) => {
                return Err(e);
            },
        }
        proof {
            self.lemma_wf();
            let p = self.pos();
            if p < b0 {
                assert(self.offset_at(p) < self.offset_at(b0));
            }
            if p > b0 {
                assert(self.offset_at(b0) < self.offset_at(p));
            }
            assert(self.pos() == b0);
        }
        let mut num_reads: usize = split_range.num_previous_reads;
        let mut record = R::new();
        let start_q_plus_one: usize;
        if start_num_queries > split_range.num_previous_queries {
            let ghost qprev = split_range.num_previous_queries as int;
            let mut num_queries: usize = split_range.num_previous_queries;
            proof {
                lemma_queries_before_monotone(s, b0, s.len() as int);
                assert(queries_before(s, b0) == qprev < startq < t);
                assert(b0 < s.len());
            }
            match self.read_no_missing(&mut record, &mut num_reads) {
                Ok(()) => {},
                Err(e) => {
                    return Err(e);
                },
            }
            let mut last_query_name = vstd::slice::slice_to_vec(record.qname());
            proof {
                assert(is_group_start(s, b0));
                assert(queries_before(s, b0 + 1) == qprev + 1);
            }
            num_queries = num_queries + 1;
            while num_queries <= start_num_queries
                invariant
                    self.wf(),
                    self.records() == s,
                    forall|i: int| #[trigger] self.offset_at(i) == off(i),
                    num_reads as int == self.pos(),
                    1 <= num_reads as int <= s.len(),
                    record@ == s[num_reads - 1],
                    last_query_name@ == s[num_reads - 1].qname,
                    qprev + 1 <= num_queries as int <= startq + 1,
                    num_queries as int == queries_before(s, num_reads as int),
                    num_queries > start_num_queries ==> is_group_start(s, num_reads - 1),
                decreases s.len() - num_reads,
            {
                proof {
                    lemma_queries_before_monotone(s, num_reads as int, s.len() as int);
                    assert(num_reads < s.len());
                }
                let ghost prev_reads = num_reads as int;
                let ghost prev_name = last_query_name@;
                match self.read_no_missing(&mut record, &mut num_reads) {
                    Ok(()) => {},
                    Err(e) => {
                        return Err(e);
                    },
                }
                if !bytes_equal(record.qname(), last_query_name.as_slice()) {
                    num_queries = num_queries + 1;
                    let fresh_name = vstd::slice::slice_to_vec(record.qname());
                    last_query_name = fresh_name;
                    proof {
                        assert(is_group_start(s, prev_reads));
                    }
                } else {
                    proof {
                        assert(!is_group_start(s, prev_reads));
                    }
                }
            }
            proof {
                assert(num_queries as int == startq + 1);
                assert(is_group_start(s, num_reads - 1));
                assert(queries_before(s, num_reads - 1) == startq);
                lemma_group_first_record(s, startq);
            }
            start_q_plus_one = num_queries;
        } else {
            proof {
                if b > 0 {
                    assert(recs[b - 1].num_queries < startq);
                    assert(false);
                }
                assert(b0 == 0);
                assert(startq == 0);
                lemma_queries_before_pos(s, s.len() as int);
                assert(s.len() > 0) by {
                    if s.len() == 0 {
                        assert(t == 0);
                    }
                }
            }
            match self.read_no_missing(&mut record, &mut num_reads) {
                Ok(()) => {},
                Err(e) => {
                    return Err(e);
                },
            }
            proof {
                assert(is_group_start(s, 0));
                lemma_group_first_record(s, 0);
            }
            start_q_plus_one = start_num_queries + 1;
        }
        proof {
            lemma_first_at_least(recs, stopq);
            if first_at_least(recs, stopq) == recs.len() {
                assert(recs[recs.len() - 1].num_queries < stopq);
                assert(false);
            }
        }
        let hard_stop_num_reads = match split_index.get_record_for_num_queries(stop_num_queries) {
            Some(rg) => rg.num_end_reads,
            None => {
                return Err(SplitError::CorruptIndex);
            },
        };
        proof {
            let b2 = first_at_least(recs, stopq);
            assert(valid_bin(recs, s, off, b2));
            let e2 = recs[b2].num_reads as int;
            assert(queries_before(s, e2) >= stopq);
            lemma_cut_le_boundary(s, stopq, e2);
        }
        Ok(
            Some(
                FastForwardInfo {
                    num_queries: start_q_plus_one,
                    stop_num_queries,
                    num_reads,
                    hard_stop_num_reads,
                    record,
                },
            ),
        )
    }
}

/// The records of chunk `k` of `n`: the stream's slice from the cut of the
/// chunk's starting query ordinal to the cut of the next chunk's. This is
/// exactly what `fast_forward` followed by `write_chunk` emits for a
/// nonempty chunk, and empty for an empty chunk.
pub open spec fn chunk_records(s: Seq<RecordData>, k: int, n: int) -> Seq<RecordData> {
    let t = total_queries(s);
    s.subrange(group_cut(s, (k * t) / n), group_cut(s, ((k + 1) * t) / n))
}

/// Chunk partition completeness: concatenating the records of chunks
/// `0 .. num_chunks` reproduces the source stream exactly, in order, with
/// no duplicates, for any chunk count.
pub proof fn lemma_chunk_partition(s: Seq<RecordData>, num_chunks: int)
    requires
        num_chunks >= 1,
    ensures
        Seq::new(num_chunks as nat, |k: int| chunk_records(s, k, num_chunks)).flatten() == s,
{
    let t = total_queries(s);
    lemma_queries_before_monotone(s, 0, s.len() as int);
    lemma_chunk_partition_prefix(s, num_chunks, num_chunks);
    vstd::arithmetic::div_mod::lemma_div_multiples_vanish(t, num_chunks);
    assert((num_chunks * t) / num_chunks == t);
    lemma_group_cut_in_range(s, t);
    assert(group_cut(s, t) == s.len());
    assert(s.subrange(0, s.len() as int) =~= s);
}

/// The first `m` chunks together cover exactly the stream's prefix up to the
/// cut of chunk `m`'s starting ordinal.
proof fn lemma_chunk_partition_prefix(s: Seq<RecordData>, n: int, m: int)
    requires
        n >= 1,
        0 <= m <= n,
    ensures
        Seq::new(m as nat, |k: int| chunk_records(s, k, n)).flatten() == s.subrange(
            0,
            group_cut(s, (m * total_queries(s)) / n),
        ),
    decreases m,
{
    let t = total_queries(s);
    lemma_queries_before_monotone(s, 0, s.len() as int);
    let f = |k: int| chunk_records(s, k, n);
    if m == 0 {
        assert(Seq::new(0, f).flatten() =~= Seq::<RecordData>::empty());
        assert((0 * t) / n == 0) by {
            vstd::arithmetic::div_mod::lemma_div_of0(n);
        }
        lemma_cut_zero(s);
        assert(s.subrange(0, 0) =~= Seq::<RecordData>::empty());
    } else {
        lemma_chunk_partition_prefix(s, n, m - 1);
        let prev = Seq::new((m - 1) as nat, f);
        let here = Seq::new(m as nat, f);
        assert(here.drop_last() =~= prev);
        assert(here.last() == f(m - 1));
        assert(here =~= prev.push(f(m - 1)));
        prev.lemma_flatten_push(f(m - 1));
        let qa = ((m - 1) * t) / n;
        let qb = (m * t) / n;
        assert(qa <= qb) by {
            vstd::arithmetic::mul::lemma_mul_inequality(m - 1, m, t);
            vstd::arithmetic::div_mod::lemma_div_is_ordered((m - 1) * t, m * t, n);
        }
        assert(0 <= qa) by {
            vstd::arithmetic::mul::lemma_mul_nonnegative(m - 1, t);
            vstd::arithmetic::div_mod::lemma_div_pos_is_pos((m - 1) * t, n);
        }
        lemma_group_cut_monotone(s, qa, qb);
        lemma_group_cut_monotone(s, 0, qa);
        assert(s.subrange(0, group_cut(s, qa)) + s.subrange(group_cut(s, qa), group_cut(s, qb))
            =~= s.subrange(0, group_cut(s, qb)));
    }
}

/// The cut of ordinal zero is the very start of the stream.
proof fn lemma_cut_zero(s: Seq<RecordData>)
    ensures
        group_cut(s, 0) == 0,
{
    if total_queries(s) > 0 {
        if s.len() == 0 {
            assert(total_queries(s) == 0);
        }
        assert(is_group_start(s, 0));
        assert(queries_before(s, 0) == 0);
        lemma_group_first_record(s, 0);
    } else {
        if s.len() > 0 {
            lemma_queries_before_pos(s, s.len() as int);
        }
    }
}

/// Chunk balance: every chunk holds between `floor(t / n)` and
/// `ceil(t / n)` query groups, for `t` total groups split into `n` chunks.
pub proof fn lemma_chunk_balance(t: int, k: int, n: int)
    requires
        n >= 1,
        t >= 0,
        0 <= k < n,
    ensures
        t / n <= ((k + 1) * t) / n - (k * t) / n,
        ((k + 1) * t) / n - (k * t) / n <= t / n + (if t % n == 0 {
            0int
        } else {
            1int
        }),
{
    let a = k * t;
    vstd::arithmetic::mul::lemma_mul_nonnegative(k, t);
    assert((k + 1) * t == a + t) by (nonlinear_arith)
        requires
            a == k * t,
    ;
    vstd::arithmetic::div_mod::lemma_fundamental_div_mod(a, n);
    vstd::arithmetic::div_mod::lemma_fundamental_div_mod(t, n);
    vstd::arithmetic::div_mod::lemma_mod_pos_bound(a, n);
    vstd::arithmetic::div_mod::lemma_mod_pos_bound(t, n);
    vstd::arithmetic::div_mod::lemma_div_pos_is_pos(a, n);
    vstd::arithmetic::div_mod::lemma_div_pos_is_pos(t, n);
    let qa = a / n;
    let ra = a % n;
    let qt = t / n;
    let rt = t % n;
    if ra + rt < n {
        assert(a + t == (qa + qt) * n + (ra + rt)) by (nonlinear_arith)
            requires
                a == n * qa + ra && t == n * qt + rt,
        ;
        vstd::arithmetic::div_mod::lemma_fundamental_div_mod_converse(a + t, n, qa + qt, ra + rt);
    } else {
        assert(a + t == (qa + qt + 1) * n + (ra + rt - n)) by (nonlinear_arith)
            requires
                a == n * qa + ra && t == n * qt + rt,
        ;
        vstd::arithmetic::div_mod::lemma_fundamental_div_mod_converse(
            a + t,
            n,
            qa + qt + 1,
            ra + rt - n,
        );
    }
}

/// Translation invariance: started from the same stream state, a translated
/// chunk and a plainly copied chunk carry exactly the same abstract records,
/// namely the chunk's slice of the stream. This is what the identical
/// postconditions of `write_chunk` and `translate_and_write_chunk` say of
/// their writers.
pub proof fn lemma_translation_invariance(
    s: Seq<RecordData>,
    cur: int,
    stop: int,
    written_plain: Seq<RecordData>,
    written_translated: Seq<RecordData>,
)
    requires
        written_plain == s.subrange(cur, group_cut(s, stop)),
        written_translated == s.subrange(cur, group_cut(s, stop)),
    ensures
        written_plain == written_translated,
{
}

/// Whatever was already emitted is a prefix of the stream's tail from the
/// chunk's first record: the witness form of the chunk writers' error
/// guarantee.
proof fn lemma_written_prefix(
    w0: Seq<RecordData>,
    s: Seq<RecordData>,
    r0: int,
    k: int,
    w: Seq<RecordData>,
)
    requires
        0 <= r0 <= k <= s.len(),
        w == w0 + s.subrange(r0, k),
    ensures
        exists|m: int| r0 <= m <= s.len() && w == w0 + (#[trigger] s.subrange(r0, m)),
{
    assert(r0 <= k <= s.len() && w == w0 + s.subrange(r0, k));
}

/// A valid index accounts for exactly the stream's groups and records.
pub proof fn lemma_total_agrees(
    recs: Seq<SplitRecord>,
    s: Seq<RecordData>,
    off: spec_fn(int) -> u64,
)
    requires
        valid_for(recs, s, off),
    ensures
        seq_num_queries(recs) == total_queries(s),
        crate::split_index::seq_num_reads(recs) == s.len(),
{
    if recs.len() > 0 {
        assert(valid_bin(recs, s, off, recs.len() - 1));
    }
}

/// A group boundary whose prefix holds at least `q` groups sits at or past
/// the cut of group `q`.
proof fn lemma_cut_le_boundary(s: Seq<RecordData>, q: int, e: int)
    requires
        0 <= q <= total_queries(s),
        0 <= e <= s.len(),
        is_group_boundary(s, e),
        queries_before(s, e) >= q,
    ensures
        group_cut(s, q) <= e,
{
    lemma_group_cut_in_range(s, q);
    if q < total_queries(s) {
        let w = group_first_record(s, q);
        lemma_group_first_record(s, q);
        if e < w {
            lemma_queries_before_monotone(s, e, w);
            if e < s.len() {
                assert(is_group_start(s, e));
                assert(queries_before(s, e + 1) == queries_before(s, e) + 1);
                lemma_queries_before_monotone(s, e + 1, w);
                assert(queries_before(s, e) == q && is_group_start(s, e));
                assert(e == w);
            } else {
                assert(w < e);
            }
        }
    } else {
        // q == total: the boundary must be the end of the stream
        if e < s.len() {
            assert(is_group_start(s, e));
            assert(queries_before(s, e + 1) == queries_before(s, e) + 1);
            lemma_queries_before_monotone(s, e + 1, s.len() as int);
            assert(false);
        }
    }
}

} // verus!
