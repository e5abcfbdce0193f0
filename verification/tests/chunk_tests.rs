//! End-to-end chunking scenarios: build an index over an in-memory record
//! stream, extract every chunk, and check that the chunks partition the
//! source without ever splitting a query group.

use split_reads::chunkable::{ChunkableRecord, ChunkableRecordReader};
use split_reads::fastq::FastqRecord;
use split_reads::memory::{VecRecordReader, VecRecordWriter};
use split_reads::split_index::SplitIndex;

/// A record with the given query name and simple sequence/quality lines.
fn record(name: &str, ordinal: usize) -> FastqRecord {
    FastqRecord {
        name: name.as_bytes().to_vec(),
        sequence: format!("ACGT{ordinal}").into_bytes(),
        separator: b"+".to_vec(),
        qualities: format!("IIII{ordinal}").into_bytes(),
    }
}

/// `num_queries` single-end query groups: one record each.
fn single_records(num_queries: usize) -> Vec<FastqRecord> {
    (0..num_queries)
        .map(|i| record(&format!("single{i:06}"), i))
        .collect()
}

/// `num_queries` paired query groups: two adjacent records sharing a name.
fn paired_records(num_queries: usize) -> Vec<FastqRecord> {
    let mut out = Vec::with_capacity(2 * num_queries);
    for i in 0..num_queries {
        let name = format!("pair{i:06}");
        out.push(record(&name, 2 * i));
        out.push(record(&name, 2 * i + 1));
    }
    out
}

/// Build an index over the records with the requested number of bins.
fn build_index(records: &[FastqRecord], num_bins: usize) -> SplitIndex {
    let reader = VecRecordReader::new(records.to_vec());
    let mut writer: Option<VecRecordWriter<FastqRecord>> = None;
    SplitIndex::build(reader, &mut writer, num_bins, u64::MAX).unwrap()
}

/// Extract chunk `chunk_index` of `num_chunks` from the records.
fn extract_chunk(
    records: &[FastqRecord],
    index: &SplitIndex,
    chunk_index: usize,
    num_chunks: usize,
) -> Vec<FastqRecord> {
    let mut reader = VecRecordReader::new(records.to_vec());
    let mut writer: VecRecordWriter<FastqRecord> = VecRecordWriter::new();
    match reader
        .fast_forward(index.clone(), chunk_index, num_chunks)
        .unwrap()
    {
        Some(mut info) => info.write_chunk(&mut reader, &mut writer).unwrap(),
        None => {}
    }
    writer.into_records()
}

fn assert_same_records(got: &[FastqRecord], expected: &[FastqRecord]) {
    assert_eq!(got.len(), expected.len());
    for (g, e) in got.iter().zip(expected.iter()) {
        assert_eq!(g.name, e.name);
        assert_eq!(g.sequence, e.sequence);
        assert_eq!(g.qualities, e.qualities);
    }
}

/// The number of distinct query groups in a chunk.
fn group_count(records: &[FastqRecord]) -> usize {
    let mut count = 0;
    let mut last: Option<&Vec<u8>> = None;
    for r in records {
        if last != Some(&r.name) {
            count += 1;
            last = Some(&r.name);
        }
    }
    count
}

/// Extract all chunks, checking boundaries never split a group, and return
/// the concatenation with per-chunk group counts.
fn extract_all(
    records: &[FastqRecord],
    index: &SplitIndex,
    num_chunks: usize,
) -> (Vec<FastqRecord>, Vec<usize>) {
    let mut all: Vec<FastqRecord> = Vec::new();
    let mut counts: Vec<usize> = Vec::new();
    for chunk in 0..num_chunks {
        let piece = extract_chunk(records, index, chunk, num_chunks);
        if let (Some(prev), Some(first)) = (all.last(), piece.first()) {
            assert_ne!(prev.name, first.name, "query group split across chunks");
        }
        counts.push(group_count(&piece));
        all.extend(piece);
    }
    (all, counts)
}

/// An even split: 100 single-end query groups, 20 bins, 5 chunks of exactly
/// 20 records each, concatenating back to the source.
#[test]
fn test_even_split() {
    let records = single_records(100);
    let index = build_index(&records, 20);
    assert_eq!(index.num_queries(), 100);
    assert_eq!(index.num_reads(), 100);
    let (all, counts) = extract_all(&records, &index, 5);
    assert_same_records(&all, &records);
    for c in counts {
        assert_eq!(c, 20);
    }
}

/// Paired-end reads: 101 paired query groups (202 records), 23 bins, 5
/// chunks; per-chunk group counts are 20 or 21 and pairs stay together.
#[test]
fn test_paired_end() {
    let records = paired_records(101);
    let index = build_index(&records, 23);
    assert_eq!(index.num_queries(), 101);
    assert_eq!(index.num_reads(), 202);
    let (all, counts) = extract_all(&records, &index, 5);
    assert_same_records(&all, &records);
    for c in counts {
        assert!(c == 20 || c == 21, "group count {c}");
    }
    // every pair sits in one chunk: the concatenation keeps both mates
    // adjacent, which assert_same_records already confirmed
}

/// One query group per bin: 100 groups with 100 requested bins saturate, so
/// the built index has exactly 100 bins and downsizing to 100 is a no-op.
#[test]
fn test_one_group_per_bin() {
    let records = single_records(100);
    let index = build_index(&records, 100);
    assert_eq!(index.len(), 100);
    let down = index.downsize_reads(100).unwrap();
    assert!(down == index);
}

/// Sparser than requested: 100 groups with 1000 requested bins yields at
/// most 100 bins, and downsizing returns the original index.
#[test]
fn test_sparser_than_requested() {
    let records = single_records(100);
    let index = build_index(&records, 1000);
    assert!(index.len() <= 100);
    let down = index.downsize_reads(1000).unwrap();
    assert!(down == index);
}

/// Downsizing a freshly built, saturated index reaches the requested bin
/// count exactly, totals intact.
#[test]
fn test_downsize_built_index_exact_count() {
    let records = single_records(100);
    let index = build_index(&records, 100);
    assert_eq!(index.len(), 100);
    for m in [1usize, 5, 13, 50, 99, 100] {
        let down = index.downsize_reads(m).unwrap();
        assert_eq!(down.len(), m.min(100), "bins for request {m}");
        assert_eq!(down.num_queries(), 100);
        assert_eq!(down.num_reads(), 100);
    }
}

/// Too many chunks: 100 groups over 211 chunks leaves many chunks empty;
/// the nonempty ones still cover every group exactly once.
#[test]
fn test_too_many_chunks() {
    let records = single_records(100);
    let index = build_index(&records, 20);
    let (all, counts) = extract_all(&records, &index, 211);
    assert_same_records(&all, &records);
    assert!(counts.iter().any(|&c| c == 0));
    assert_eq!(counts.iter().sum::<usize>(), 100);
}

/// An empty source: building succeeds with an empty index and every chunk
/// extraction is cleanly empty.
#[test]
fn test_empty_source() {
    let records: Vec<FastqRecord> = Vec::new();
    let index = build_index(&records, 20);
    assert!(index.is_empty());
    assert_eq!(index.num_queries(), 0);
    assert_eq!(index.num_reads(), 0);
    let (all, counts) = extract_all(&records, &index, 211);
    assert!(all.is_empty());
    assert_eq!(counts.iter().sum::<usize>(), 0);
    // the serialized empty index still round-trips
    let mut bytes = index.clone().serialize();
    let back = SplitIndex::deserialize(&mut bytes).unwrap();
    assert!(back == index);
}

/// Grouped reads of varying run lengths never get split across chunks.
#[test]
fn test_grouped_runs() {
    let mut records: Vec<FastqRecord> = Vec::new();
    let mut ordinal = 0usize;
    for g in 0..100usize {
        let name = format!("group{g:06}");
        let run = 1 + (g * 7 + 3) % 4;
        for _ in 0..run {
            records.push(record(&name, ordinal));
            ordinal += 1;
        }
    }
    let index = build_index(&records, 17);
    let (all, counts) = extract_all(&records, &index, 6);
    assert_same_records(&all, &records);
    assert_eq!(counts.iter().sum::<usize>(), 100);
}

/// The index passthrough writer receives every record read during build.
#[test]
fn test_build_passthrough() {
    let records = paired_records(10);
    let reader = VecRecordReader::new(records.clone());
    let mut writer: Option<VecRecordWriter<FastqRecord>> = Some(VecRecordWriter::new());
    let index = SplitIndex::build(reader, &mut writer, 4, u64::MAX).unwrap();
    assert_eq!(index.num_reads(), 20);
    let passed = writer.unwrap().into_records();
    assert_same_records(&passed, &records);
}

/// Translating into the same record kind writes the same records as the
/// plain chunk writer.
#[test]
fn test_translate_matches_plain() {
    let records = paired_records(9);
    let index = build_index(&records, 5);
    for chunk in 0..3usize {
        let plain = extract_chunk(&records, &index, chunk, 3);
        let mut reader = VecRecordReader::new(records.clone());
        let mut writer: VecRecordWriter<FastqRecord> = VecRecordWriter::new();
        match reader.fast_forward(index.clone(), chunk, 3).unwrap() {
            Some(mut info) => info
                .translate_and_write_chunk(&mut reader, &mut writer)
                .unwrap(),
            None => {}
        }
        let translated = writer.into_records();
        assert_same_records(&translated, &plain);
    }
}

/// A record translated across kinds carries its three abstract fields.
#[test]
fn test_translate_record() {
    let src = record("q1", 5);
    let mut dst = FastqRecord::new();
    split_reads::chunkable::translate(&mut dst, &src);
    assert_eq!(dst.name, src.name);
    assert_eq!(dst.sequence, src.sequence);
    assert_eq!(dst.qualities, src.qualities);
    assert_eq!(ChunkableRecord::qname(&dst), src.name.as_slice());
    assert_eq!(ChunkableRecord::seq(&dst), src.sequence.as_slice());
    assert_eq!(ChunkableRecord::qual(&dst), src.qualities.as_slice());
}

/// Asking for a chunk ordinal past the chunk count is an error.
#[test]
fn test_invalid_chunk_args() {
    let records = single_records(10);
    let index = build_index(&records, 4);
    let mut reader = VecRecordReader::new(records);
    match reader.fast_forward(index, 6, 5) {
        Err(e) => assert_eq!(e, split_reads::errors::SplitError::InvalidChunkArgs),
        Ok(_) => panic!("a chunk ordinal past the chunk count must be refused"),
    }
}
