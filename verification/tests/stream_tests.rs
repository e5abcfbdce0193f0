//! Tests of the byte-stream layer (cursor, chain, splitter), the FASTQ
//! codec, and the small path and format helpers.

use split_reads::byte_stream::{read_all, ByteCursor, ByteSink, ByteSinkBuffer, ByteSource, SeekFrom};
use split_reads::chunkable::{bytes_equal, ChunkableRecordReader};
use split_reads::errors::SplitError;
use split_reads::fastq::{FastqReader, FastqRecord, FastqWriter};
use split_reads::path_type::{with_added_extension, PathType};
use split_reads::sam_writer_spec::{get_format, str_to_format, SamFormat, SamWriterOptions};
use split_reads::seekable_chain::Chain;
use split_reads::seekable_split::Split;
use split_reads::split_index::SplitIndex;
use split_reads::tell::{tell_stat, TellWhich};
use split_reads::maybe_compressed::decode_if_compressed;
use split_reads::util::{resolve_record_type, QueryType, RecordType};

fn cursor(bytes: &[u8]) -> ByteCursor {
    ByteCursor::new(bytes.to_vec())
}

#[test]
fn test_cursor_read_and_seek() {
    let mut c = cursor(b"hello world");
    let v = read_all(&mut c).unwrap();
    assert_eq!(v, b"hello world".to_vec());
    assert_eq!(c.seek(SeekFrom::Start(6)).unwrap(), 6);
    let tail = read_all(&mut c).unwrap();
    assert_eq!(tail, b"world".to_vec());
    assert_eq!(c.seek(SeekFrom::End(-5)).unwrap(), 6);
    assert_eq!(c.seek(SeekFrom::Current(-6)).unwrap(), 0);
    assert!(c.seek(SeekFrom::Current(-1)).is_err());
}

/// Seek neutrality on the chain: an absolute seek followed by a relative
/// seek of zero reports the same position, and a full read before and after
/// rewinding yields identical bytes.
#[test]
fn test_chain_seek_neutrality() {
    let front = cursor(b"ab");
    let back = cursor(b"cdefgh");
    let mut chain = Chain::new(front, back).unwrap();
    let first = read_all(&mut chain).unwrap();
    assert_eq!(first, b"abcdefgh".to_vec());
    assert_eq!(chain.seek(SeekFrom::Start(5)).unwrap(), 5);
    assert_eq!(chain.seek(SeekFrom::Current(0)).unwrap(), 5);
    assert_eq!(chain.stream_position().unwrap(), 5);
    assert_eq!(chain.seek(SeekFrom::Start(0)).unwrap(), 0);
    let second = read_all(&mut chain).unwrap();
    assert_eq!(first, second);
}

#[test]
fn test_chain_crosses_boundary() {
    let mut front = cursor(b"xxab");
    // the chain starts at each component's current position
    front.seek(SeekFrom::Start(2)).unwrap();
    let mut back = cursor(b"yycd");
    back.seek(SeekFrom::Start(2)).unwrap();
    let mut chain = Chain::new(front, back).unwrap();
    assert_eq!(read_all(&mut chain).unwrap(), b"abcd".to_vec());
    assert_eq!(chain.seek(SeekFrom::Start(1)).unwrap(), 1);
    assert_eq!(read_all(&mut chain).unwrap(), b"bcd".to_vec());
    assert_eq!(chain.seek(SeekFrom::End(0)).unwrap(), 4);
    assert_eq!(read_all(&mut chain).unwrap(), Vec::<u8>::new());
    // seeking back into the front works after crossing into the back
    assert_eq!(chain.seek(SeekFrom::Start(0)).unwrap(), 0);
    assert_eq!(read_all(&mut chain).unwrap(), b"abcd".to_vec());
}

#[test]
fn test_chain_empty_front() {
    let front = cursor(b"");
    let back = cursor(b"data");
    let mut chain = Chain::new(front, back).unwrap();
    assert_eq!(read_all(&mut chain).unwrap(), b"data".to_vec());
}

#[test]
fn test_split_lines() {
    let mut split = Split::new(cursor(b"one\ntwo\n\nfour"), b'\n');
    assert_eq!(split.next().unwrap().unwrap(), b"one".to_vec());
    assert_eq!(split.next().unwrap().unwrap(), b"two".to_vec());
    assert_eq!(split.next().unwrap().unwrap(), Vec::<u8>::new());
    assert_eq!(split.next().unwrap().unwrap(), b"four".to_vec());
    assert!(split.next().is_none());
    assert_eq!(split.seek(SeekFrom::Start(4)).unwrap(), 4);
    assert_eq!(split.next().unwrap().unwrap(), b"two".to_vec());
}

#[test]
fn test_fastq_reader_parses_records() {
    let data = b"@r1\nACGT\n+\nIIII\n@r2\nGGCC\n+\nJJJJ\n";
    let mut reader = FastqReader::new(cursor(data));
    let r1 = reader.next().unwrap().unwrap();
    assert_eq!(r1.name, b"@r1".to_vec());
    assert_eq!(r1.sequence, b"ACGT".to_vec());
    assert_eq!(r1.separator, b"+".to_vec());
    assert_eq!(r1.qualities, b"IIII".to_vec());
    assert_eq!(r1.len(), 4);
    assert!(!r1.is_empty());
    let r2 = reader.next().unwrap().unwrap();
    assert_eq!(r2.name, b"@r2".to_vec());
    assert!(reader.next().is_none());
    // seeking back to a record boundary replays the record
    reader.seek(SeekFrom::Start(16)).unwrap();
    let again = reader.next().unwrap().unwrap();
    assert_eq!(again.name, b"@r2".to_vec());
}

#[test]
fn test_fastq_reader_incomplete_record() {
    let data = b"@r1\nACGT\n";
    let mut reader = FastqReader::new(cursor(data));
    let err = reader.next().unwrap().unwrap_err();
    assert_eq!(err, SplitError::IncompleteFastqRecord);
    assert_eq!(err.message(), "incomplete fastq record");
}

#[test]
fn test_fastq_writer_round_trip() {
    let data = b"@r1\nACGT\n+\nIIII\n@r2\nGGCC\n+x\nJJJJ\n";
    let mut reader = FastqReader::new(cursor(data));
    let mut writer = FastqWriter::new(ByteSinkBuffer::new());
    while let Some(rec) = reader.next() {
        writer.write(&rec.unwrap()).unwrap();
    }
    let bytes = writer.into_inner().into_bytes();
    assert_eq!(bytes, data.to_vec());
}

/// The whole pipeline over real FASTQ bytes: index the stream, extract every
/// chunk by seeking to stored byte offsets, and get the source bytes back.
#[test]
fn test_fastq_chunk_pipeline() {
    let mut data: Vec<u8> = Vec::new();
    for g in 0..30usize {
        // two records per query group
        for mate in 0..2usize {
            data.extend_from_slice(format!("@q{g:03}\nAC{mate}\n+\nII{mate}\n").as_bytes());
        }
    }
    let reader = FastqReader::new(cursor(&data));
    let mut passthrough: Option<FastqWriter<ByteSinkBuffer>> = None;
    let index = SplitIndex::build(reader, &mut passthrough, 7, u64::MAX).unwrap();
    assert_eq!(index.num_queries(), 30);
    assert_eq!(index.num_reads(), 60);
    let num_chunks = 4usize;
    let mut rebuilt: Vec<u8> = Vec::new();
    for chunk in 0..num_chunks {
        let mut reader = FastqReader::new(cursor(&data));
        let mut writer = FastqWriter::new(ByteSinkBuffer::new());
        match reader
            .fast_forward(index.clone(), chunk, num_chunks)
            .unwrap()
        {
            Some(mut info) => info.write_chunk(&mut reader, &mut writer).unwrap(),
            None => {}
        }
        rebuilt.extend(writer.into_inner().into_bytes());
    }
    assert_eq!(rebuilt, data);
}

#[test]
fn test_bytes_equal() {
    assert!(bytes_equal(b"abc", b"abc"));
    assert!(!bytes_equal(b"abc", b"abd"));
    assert!(!bytes_equal(b"abc", b"ab"));
    assert!(bytes_equal(b"", b""));
}

#[test]
fn test_record_type_from_extension() {
    assert_eq!(RecordType::from_extension(Some("fq")), Some(RecordType::Fastq));
    assert_eq!(RecordType::from_extension(Some("FASTQ")), Some(RecordType::Fastq));
    assert_eq!(RecordType::from_extension(Some("gz")), Some(RecordType::Fastq));
    assert_eq!(RecordType::from_extension(Some("bgz")), Some(RecordType::Fastq));
    assert_eq!(RecordType::from_extension(Some("BaM")), Some(RecordType::Bam));
    assert_eq!(RecordType::from_extension(Some("sam")), Some(RecordType::Bam));
    assert_eq!(RecordType::from_extension(Some("cram")), Some(RecordType::Bam));
    assert_eq!(RecordType::from_extension(Some("txt")), None);
    assert_eq!(RecordType::from_extension(None), None);
}

#[test]
fn test_record_type_from_path() {
    assert_eq!(RecordType::from_path("a/b/reads.fastq"), Some(RecordType::Fastq));
    assert_eq!(RecordType::from_path("reads.BAM"), Some(RecordType::Bam));
    assert_eq!(RecordType::from_path("dir.bam/reads"), None);
    assert_eq!(RecordType::from_path(".fastq"), None);
    assert_eq!(RecordType::from_path("noext"), None);
}

#[test]
fn test_path_type_classification() {
    assert!(matches!(PathType::from_path("-"), PathType::Pipe));
    assert!(matches!(PathType::from_path("s3://bucket/key.bam"), PathType::UrlPath(_)));
    assert!(matches!(PathType::from_path("gcs://b/k"), PathType::UrlPath(_)));
    assert!(matches!(PathType::from_path("ftp://h/p"), PathType::UrlPath(_)));
    assert!(matches!(PathType::from_path("http://h/p"), PathType::UrlPath(_)));
    assert!(matches!(PathType::from_path("https://h/p"), PathType::UrlPath(_)));
    assert!(matches!(PathType::from_path("/data/reads.bam"), PathType::FilePath(_)));
    assert!(matches!(PathType::from_path("s3:/notaurl"), PathType::FilePath(_)));
}

#[test]
fn test_default_index_paths() {
    assert_eq!(PathType::from_path("-").default_index("si"), None);
    assert_eq!(
        PathType::from_path("/data/reads.bam").default_index("si"),
        Some("/data/reads.bam.si".to_string())
    );
    assert_eq!(
        PathType::from_path("https://host/reads.bam").default_index("si"),
        Some("https://host/reads.bam.si".to_string())
    );
    assert_eq!(with_added_extension("x.bam", "si"), "x.bam.si".to_string());
}

#[test]
fn test_sam_format_selection() {
    assert_eq!(str_to_format("bam").unwrap(), SamFormat::Bam);
    assert_eq!(str_to_format("CRAM").unwrap(), SamFormat::Cram);
    assert_eq!(str_to_format("Sam").unwrap(), SamFormat::Sam);
    assert_eq!(str_to_format("vcf").unwrap_err(), SplitError::FormatMismatch);
    assert_eq!(get_format("out.cram", "bam").unwrap(), SamFormat::Cram);
    assert_eq!(get_format("out.txt", "bam").unwrap(), SamFormat::Bam);
    assert_eq!(get_format("-", "sam").unwrap(), SamFormat::Sam);
    assert_eq!(get_format("-", "nope").unwrap_err(), SplitError::FormatMismatch);
}

#[test]
fn test_sam_writer_options() {
    let opts = SamWriterOptions::new()
        .reference_fasta("ref.fa".to_string())
        .threads(4)
        .compression(6);
    assert_eq!(opts.get_reference_fasta().as_deref(), Some("ref.fa"));
    assert_eq!(opts.get_threads(), Some(4));
    assert_eq!(opts.get_compression(), Some(6));
    let blank = SamWriterOptions::default();
    assert_eq!(blank.get_threads(), None);
    assert_eq!(blank.get_compression(), None);
    assert!(blank.get_reference_fasta().is_none());
}

#[test]
fn test_query_type_labels() {
    assert_eq!(QueryType::Single.label(), "single");
    assert_eq!(QueryType::Paired.label(), "paired");
    assert_eq!(QueryType::Grouped.label(), "grouped");
}

#[test]
fn test_error_messages() {
    assert_eq!(SplitError::TruncatedInput.message(), "file truncated");
    assert!(SplitError::CorruptIndex.message().contains("corrupted index"));
}

#[test]
fn test_tell_on_empty_index() {
    let empty = SplitIndex::with_capacity(0);
    assert_eq!(tell_stat(&empty, TellWhich::NumBins), 0);
    assert_eq!(tell_stat(&empty, TellWhich::NumQueries), 0);
    assert_eq!(tell_stat(&empty, TellWhich::NumReads), 0);
}

/// The compression sniff: a BGZF-compressed stream comes back as the plain
/// bytes it encodes, and an uncompressed stream passes through unchanged.
#[test]
fn test_decode_if_compressed() {
    let data = b"@r1\nACGT\n+\nIIII\n".to_vec();
    let mut writer = noodles_bgzf::io::Writer::new(Vec::new());
    std::io::Write::write_all(&mut writer, &data).unwrap();
    let compressed = writer.finish().unwrap();
    assert_ne!(compressed, data);
    let decoded = decode_if_compressed(compressed, 2).unwrap();
    assert_eq!(decoded, data);
    let plain = decode_if_compressed(data.clone(), 1).unwrap();
    assert_eq!(plain, data);
}

#[test]
fn test_resolve_record_type() {
    let fq = Some(RecordType::Fastq);
    let bam = Some(RecordType::Bam);
    assert_eq!(resolve_record_type(fq, fq, RecordType::Bam).unwrap(), RecordType::Fastq);
    assert_eq!(resolve_record_type(fq, None, RecordType::Bam).unwrap(), RecordType::Fastq);
    assert_eq!(resolve_record_type(None, bam, RecordType::Fastq).unwrap(), RecordType::Bam);
    assert_eq!(resolve_record_type(None, None, RecordType::Bam).unwrap(), RecordType::Bam);
    assert_eq!(
        resolve_record_type(fq, bam, RecordType::Fastq).unwrap_err(),
        SplitError::FormatMismatch
    );
}

#[test]
fn test_sink_buffer() {
    let mut sink = ByteSinkBuffer::new();
    sink.write_all(b"ab").unwrap();
    sink.write_all(b"").unwrap();
    sink.write_all(b"cd").unwrap();
    assert_eq!(sink.into_bytes(), b"abcd".to_vec());
}
