//! Tests of the split index itself: construction, serialization, lookups,
//! and downsizing.

use rand::{Rng, RngExt};
use split_reads::chunkable::FastForwardIndex;
use split_reads::errors::SplitError;
use split_reads::split_index::{SplitIndex, SplitRecord, SPLIT_INDEX_EXTENSION};
use split_reads::tell::{tell_stat, TellWhich};

/// For testing serialization: a random nonsensical split record.
fn random_split_record<R>(rng: &mut R) -> SplitRecord
where
    R: Rng,
{
    SplitRecord {
        offset: rng.random_range(u64::MIN..u64::MAX),
        num_queries: rng.random_range(0..usize::MAX),
        num_reads: rng.random_range(0..usize::MAX),
    }
}

/// For testing serialization: a random nonsensical split index.
fn random_split_index(num_bins: usize) -> SplitIndex {
    let mut rng = rand::rng();
    let mut split_index = SplitIndex::with_capacity(num_bins);
    for _ in 0..num_bins {
        split_index.add_record(random_split_record(&mut rng));
    }
    split_index
}

/// A small well-formed index with the given cumulative counts, each bin
/// holding one query of two reads, offsets ten bytes apart.
fn regular_index(num_bins: usize) -> SplitIndex {
    let mut split_index = SplitIndex::with_capacity(num_bins);
    for i in 0..num_bins {
        split_index.add_record(SplitRecord {
            offset: (10 * i) as u64,
            num_queries: i + 1,
            num_reads: 2 * (i + 1),
        });
    }
    split_index
}

#[test]
fn test_noop() {}

/// Serializing then deserializing recapitulates the original index.
#[test]
fn test_serialize_round_trip() {
    let split_index: SplitIndex = random_split_index(10000);
    let deserialized = SplitIndex::deserialize(&mut split_index.clone().serialize()).unwrap();
    assert!(deserialized == split_index);
}

#[test]
fn test_serialize_round_trip_empty() {
    let split_index = SplitIndex::with_capacity(0);
    let mut bytes = split_index.clone().serialize();
    let deserialized = SplitIndex::deserialize(&mut bytes).unwrap();
    assert!(deserialized == split_index);
    assert!(bytes.is_empty());
}

#[test]
fn test_serialized_layout() {
    let mut split_index = SplitIndex::with_capacity(1);
    split_index.add_record(SplitRecord {
        offset: 7,
        num_queries: 2,
        num_reads: 3,
    });
    let bytes = split_index.serialize();
    let mut expected: Vec<u8> = b"split-index 1.0\n".to_vec();
    expected.extend_from_slice(&1u64.to_le_bytes());
    expected.extend_from_slice(&7u64.to_le_bytes());
    expected.extend_from_slice(&2u64.to_le_bytes());
    expected.extend_from_slice(&3u64.to_le_bytes());
    assert_eq!(bytes, expected);
}

#[test]
fn test_deserialize_trailing_bytes_left() {
    let split_index = regular_index(4);
    let mut bytes = split_index.clone().serialize();
    bytes.extend_from_slice(b"extra");
    let deserialized = SplitIndex::deserialize(&mut bytes).unwrap();
    assert!(deserialized == split_index);
    assert_eq!(bytes, b"extra".to_vec());
}

#[test]
fn test_deserialize_corrupt_magic() {
    let split_index = regular_index(3);
    let mut bytes = split_index.serialize();
    bytes[0] = b'x';
    let err = SplitIndex::deserialize(&mut bytes).unwrap_err();
    assert_eq!(err, SplitError::CorruptIndex);
}

#[test]
fn test_deserialize_corrupt_version() {
    let split_index = regular_index(3);
    let mut bytes = split_index.serialize();
    // the version sits after the 12-byte magic prefix
    bytes[13] = b'~';
    let err = SplitIndex::deserialize(&mut bytes).unwrap_err();
    assert_eq!(err, SplitError::UnknownVersion);
}

#[test]
fn test_deserialize_truncated_records() {
    let split_index = regular_index(3);
    let mut bytes = split_index.serialize();
    bytes.truncate(bytes.len() - 1);
    let err = SplitIndex::deserialize(&mut bytes).unwrap_err();
    assert_eq!(err, SplitError::CorruptIndex);
}

#[test]
fn test_deserialize_missing_newline() {
    let mut bytes = b"split-index 1.0".to_vec();
    let err = SplitIndex::deserialize(&mut bytes).unwrap_err();
    assert_eq!(err, SplitError::CorruptIndex);
}

#[test]
fn test_split_record_round_trip() {
    let rec = SplitRecord {
        offset: 0xdeadbeef,
        num_queries: 11,
        num_reads: 29,
    };
    let mut bytes: Vec<u8> = Vec::new();
    rec.serialize(&mut bytes);
    assert_eq!(bytes.len(), 24);
    let back = SplitRecord::deserialize(&mut bytes).unwrap();
    assert_eq!(back, rec);
    assert!(bytes.is_empty());
}

#[test]
fn test_split_record_deserialize_short() {
    let mut bytes = vec![0u8; 23];
    let err = SplitRecord::deserialize(&mut bytes).unwrap_err();
    assert_eq!(err, SplitError::CorruptIndex);
}

#[test]
fn test_totals_and_len() {
    let split_index = regular_index(5);
    assert_eq!(split_index.len(), 5);
    assert!(!split_index.is_empty());
    assert_eq!(split_index.num_queries(), 5);
    assert_eq!(split_index.num_reads(), 10);
    assert_eq!(tell_stat(&split_index, TellWhich::NumBins), 5);
    assert_eq!(tell_stat(&split_index, TellWhich::NumQueries), 5);
    assert_eq!(tell_stat(&split_index, TellWhich::NumReads), 10);
    let empty = SplitIndex::with_capacity(4);
    assert_eq!(empty.len(), 0);
    assert!(empty.is_empty());
    assert_eq!(empty.num_queries(), 0);
    assert_eq!(empty.num_reads(), 0);
}

#[test]
fn test_check_counts() {
    assert!(regular_index(6).check_counts());
    assert!(SplitIndex::with_capacity(0).check_counts());
    let mut bad = SplitIndex::with_capacity(2);
    bad.add_record(SplitRecord {
        offset: 0,
        num_queries: 5,
        num_reads: 5,
    });
    bad.add_record(SplitRecord {
        offset: 1,
        num_queries: 5,
        num_reads: 6,
    });
    assert!(!bad.check_counts());
    let mut zero_first = SplitIndex::with_capacity(1);
    zero_first.add_record(SplitRecord {
        offset: 0,
        num_queries: 0,
        num_reads: 1,
    });
    assert!(!zero_first.check_counts());
}

#[test]
fn test_get_chunk_query_start_exact() {
    // ten queries, three chunks: starts 0, 3, 6, 10
    let split_index = regular_index(10);
    assert_eq!(split_index.get_chunk_query_start(0, 3).unwrap(), 0);
    assert_eq!(split_index.get_chunk_query_start(1, 3).unwrap(), 3);
    assert_eq!(split_index.get_chunk_query_start(2, 3).unwrap(), 6);
    assert_eq!(split_index.get_chunk_query_start(3, 3).unwrap(), 10);
    let err = split_index.get_chunk_query_start(4, 3).unwrap_err();
    assert_eq!(err, SplitError::InvalidChunkArgs);
}

#[test]
fn test_chunk_starts_balanced() {
    // chunk widths differ by at most one: floor or ceiling of t / n
    let split_index = regular_index(101);
    let n = 7usize;
    let mut prev = 0usize;
    for k in 1..=n {
        let here = split_index.get_chunk_query_start(k, n).unwrap();
        let width = here - prev;
        assert!(width == 101 / 7 || width == 101 / 7 + 1, "width {width}");
        prev = here;
    }
    assert_eq!(prev, 101);
}

#[test]
fn test_get_record_for_num_queries() {
    let split_index = regular_index(4);
    // bins end at queries 1, 2, 3, 4; offsets 0, 10, 20, 30
    let range = split_index.get_record_for_num_queries(0).unwrap();
    assert_eq!(range.offset, 0);
    assert_eq!(range.num_previous_queries, 0);
    assert_eq!(range.num_end_queries, 1);
    assert_eq!(range.num_previous_reads, 0);
    assert_eq!(range.num_end_reads, 2);
    let range = split_index.get_record_for_num_queries(3).unwrap();
    assert_eq!(range.offset, 20);
    assert_eq!(range.num_previous_queries, 2);
    assert_eq!(range.num_end_queries, 3);
    assert_eq!(range.num_previous_reads, 4);
    assert_eq!(range.num_end_reads, 6);
    assert!(split_index.get_record_for_num_queries(5).is_none());
}

#[test]
fn test_downsize_noop_when_small() {
    // asking for at least as many bins as exist returns the index unchanged
    let split_index = regular_index(7);
    let same = split_index.downsize_reads(7).unwrap();
    assert!(same == split_index);
    let bigger = split_index.downsize_reads(1000).unwrap();
    assert!(bigger == split_index);
}

#[test]
fn test_downsize_preserves_totals() {
    let split_index = regular_index(100);
    let down = split_index.downsize_reads(13).unwrap();
    assert!(down.len() <= 13);
    assert_eq!(down.num_queries(), split_index.num_queries());
    assert_eq!(down.num_reads(), split_index.num_reads());
    assert!(down.check_counts());
    // the first downsized bin keeps the first original offset
    let queries = down.get_split_record_num_queries();
    assert!(queries.windows(2).all(|w| w[0] < w[1]));
}

/// Downsizing ten one-query bins to five picks every second record, carrying
/// each successor's offset so that offsets still name bin starts.
#[test]
fn test_downsize_exact_interpolation() {
    let split_index = regular_index(10);
    let down = split_index.downsize_reads(5).unwrap();
    assert_eq!(down.len(), 5);
    assert_eq!(down.get_split_record_num_queries(), vec![2, 4, 6, 8, 10]);
    let mut serialized = down.serialize();
    let back = SplitIndex::deserialize(&mut serialized).unwrap();
    let mut expected = SplitIndex::with_capacity(5);
    for (k, offset) in [0u64, 20, 40, 60, 80].into_iter().enumerate() {
        expected.add_record(SplitRecord {
            offset,
            num_queries: 2 * (k + 1),
            num_reads: 4 * (k + 1),
        });
    }
    assert!(back == expected);
}

#[test]
fn test_extension_constant() {
    assert_eq!(SPLIT_INDEX_EXTENSION, "si");
}
