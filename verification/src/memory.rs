//! In-memory record streams: reference implementations of the chunking
//! traits over a vector of records. Record `i`'s offset is simply `i`, so
//! these double as the simplest model of the seek protocol.

use crate::chunkable::{translate, ChunkableRecord, ChunkableRecordReader, ChunkableRecordWriter};
use crate::errors::SplitError;
use crate::groups::RecordData;
use vstd::prelude::*;

verus! {

/// A seekable reader over records already held in memory.
pub struct VecRecordReader<R: ChunkableRecord> {
    items: Vec<R>,
    cursor: usize,
}

impl<R: ChunkableRecord> VecRecordReader<R> {
    /// A reader positioned at the first of the given records.
    pub fn new(items: Vec<R>) -> (r: Self)
        ensures
            r.records() == items@.map_values(|x: R| x@),
            r.pos() == 0,
            r.wf(),
    {
        let n = items.len();
        proof {
            assert(items@.len() == n <= usize::MAX);
        }
        VecRecordReader { items, cursor: 0 }
    }
}

impl<R: ChunkableRecord> ChunkableRecordReader<R> for VecRecordReader<R> {
    closed spec fn records(&self) -> Seq<RecordData> {
        self.items@.map_values(|x: R| x@)
    }

    closed spec fn pos(&self) -> int {
        self.cursor as int
    }

    closed spec fn offset_at(&self, i: int) -> u64 {
        i as u64
    }

    closed spec fn wf(&self) -> bool {
        self.cursor <= self.items@.len() && self.items@.len() <= usize::MAX
    }

    proof fn lemma_wf(&self) {
    }

    fn tell(&mut self) -> (r: Result<u64, SplitError>) {
        Ok(self.cursor as u64)
    }

    fn seek(&mut self, offset: u64) -> (r: Result<(), SplitError>) {
        proof {
            let i = choose|i: int|
                0 <= i <= old(self).records().len() && offset == old(self).offset_at(i);
            assert(offset == i as u64);
            assert(offset <= usize::MAX as u64);
        }
        self.cursor = offset as usize;
        Ok(())
    }

    fn read_into(&mut self, record: &mut R) -> (r: Option<Result<(), SplitError>>) {
        if self.cursor >= self.items.len() {
            return None;
        }
        translate(record, &self.items[self.cursor]);
        self.cursor = self.cursor + 1;
        Some(Ok(()))
    }
}

/// A writer that collects records in memory.
pub struct VecRecordWriter<R: ChunkableRecord> {
    items: Vec<R>,
}

impl<R: ChunkableRecord> VecRecordWriter<R> {
    /// An empty collector.
    pub fn new() -> (r: Self)
        ensures
            r.written() == Seq::<RecordData>::empty(),
    {
        let items: Vec<R> = Vec::new();
        proof {
            assert(items@.map_values(|x: R| x@) =~= Seq::<RecordData>::empty());
        }
        VecRecordWriter { items }
    }

    /// Hand out everything written so far, in order.
    pub fn into_records(self) -> (r: Vec<R>)
        ensures
            r@.map_values(|x: R| x@) == self.written(),
    {
        self.items
    }
}

impl<R: ChunkableRecord> ChunkableRecordWriter<R> for VecRecordWriter<R> {
    closed spec fn written(&self) -> Seq<RecordData> {
        self.items@.map_values(|x: R| x@)
    }

    fn write(&mut self, record: &R) -> (r: Result<(), SplitError>) {
        let mut copy = R::new();
        translate(&mut copy, record);
        self.items.push(copy);
        proof {
            assert(self.items@.map_values(|x: R| x@) =~= old(self).items@.map_values(
                |x: R| x@,
            ).push(record@));
        }
        Ok(())
    }
}

} // verus!
