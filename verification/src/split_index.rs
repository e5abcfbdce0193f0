//! The split index: an ordered list of bins over a record stream, each bin an
//! integral number of query groups, stored as cumulative counts plus the file
//! offset of the bin's first record.

use crate::chunkable::{
    bytes_equal, ChunkableRecord, ChunkableRecordReader, ChunkableRecordWriter, FastForwardIndex,
    SplitRange,
};
use crate::errors::SplitError;
use crate::groups::{is_group_boundary, is_group_start, queries_before, total_queries, RecordData};
use vstd::prelude::*;

verus! {

/// Default extension for split index files, appended to the data file's path.
pub const SPLIT_INDEX_EXTENSION: &'static str = "si";

/// One bin of the index: the file offset of the bin's first record and the
/// cumulative query-group and record counts at the end of the bin.
#[derive(Clone, Copy, Debug, PartialEq, Eq, Structural)]
pub struct SplitRecord {
    /// File offset of the first record in the bin: a byte offset for plain
    /// streams, a virtual position for block-compressed ones. Opaque here.
    pub offset: u64,
    /// Cumulative number of query groups in the whole file at the end of the
    /// bin.
    pub num_queries: usize,
    /// Cumulative number of records in the whole file at the end of the bin.
    pub num_reads: usize,
}

/// Total query groups a record list accounts for: the last cumulative count.
pub open spec fn seq_num_queries(recs: Seq<SplitRecord>) -> int {
    if recs.len() == 0 {
        0
    } else {
        recs[recs.len() - 1].num_queries as int
    }
}

/// Total records a record list accounts for: the last cumulative count.
pub open spec fn seq_num_reads(recs: Seq<SplitRecord>) -> int {
    if recs.len() == 0 {
        0
    } else {
        recs[recs.len() - 1].num_reads as int
    }
}

/// The record index where bin `i` begins: the previous bin's end, or zero.
pub open spec fn bin_start(recs: Seq<SplitRecord>, i: int) -> int {
    if i == 0 {
        0
    } else {
        recs[i - 1].num_reads as int
    }
}

/// Internal consistency of a record list: cumulative counts strictly
/// increase, and the first bin holds at least one query group and record.
pub open spec fn wf_counts(recs: Seq<SplitRecord>) -> bool {
    &&& forall|i: int, j: int|
        0 <= i < j < recs.len() ==> #[trigger] recs[i].num_queries < #[trigger] recs[j].num_queries
            && recs[i].num_reads < recs[j].num_reads
    &&& recs.len() > 0 ==> recs[0].num_queries >= 1 && recs[0].num_reads >= 1
}

/// Bin `i` correctly describes its slice of the stream `s` whose record
/// offsets are given by `off`: it is nonempty, ends on a query-group
/// boundary, its query count is the true count of groups begun before its
/// end, and its offset is the offset of its first record.
pub open spec fn valid_bin(
    recs: Seq<SplitRecord>,
    s: Seq<RecordData>,
    off: spec_fn(int) -> u64,
    i: int,
) -> bool {
    &&& bin_start(recs, i) < recs[i].num_reads as int <= s.len()
    &&& is_group_boundary(s, recs[i].num_reads as int)
    &&& recs[i].num_queries as int == queries_before(s, recs[i].num_reads as int)
    &&& recs[i].offset == off(bin_start(recs, i))
}

/// A record list is a valid split index for stream `s` with offset map
/// `off`: it is empty exactly when the stream is, its last bin ends at the
/// end of the stream, and every bin is valid. This is the central invariant:
/// in particular no bin ever splits a query group.
pub open spec fn valid_for(
    recs: Seq<SplitRecord>,
    s: Seq<RecordData>,
    off: spec_fn(int) -> u64,
) -> bool {
    &&& recs.len() == 0 <==> s.len() == 0
    &&& recs.len() > 0 ==> recs[recs.len() - 1].num_reads as int == s.len()
    &&& forall|i: int| 0 <= i < recs.len() ==> #[trigger] valid_bin(recs, s, off, i)
}

/// The least position in `recs` whose query count reaches `n`; the list's
/// length when none does.
pub open spec fn first_at_least(recs: Seq<SplitRecord>, n: int) -> int
    decreases recs.len(),
{
    if recs.len() == 0 {
        0
    } else if recs[0].num_queries as int >= n {
        0
    } else {
        1 + first_at_least(recs.skip(1), n)
    }
}

/// What `first_at_least` returns: everything before it falls short of `n`,
/// and it reaches `n` unless it is the length.
pub proof fn lemma_first_at_least(recs: Seq<SplitRecord>, n: int)
    ensures
        0 <= first_at_least(recs, n) <= recs.len(),
        forall|i: int| 0 <= i < first_at_least(recs, n) ==> (#[trigger] recs[i].num_queries) < n,
        first_at_least(recs, n) < recs.len() ==> recs[first_at_least(recs, n)].num_queries >= n,
    decreases recs.len(),
{
    if recs.len() > 0 && recs[0].num_queries < n {
        lemma_first_at_least(recs.skip(1), n);
        let f = first_at_least(recs, n);
        assert forall|i: int| 0 <= i < f implies (#[trigger] recs[i].num_queries) < n by {
            if i >= 1 {
                assert(recs.skip(1)[i - 1] == recs[i]);
            }
        }
        if f < recs.len() {
            assert(recs.skip(1)[f - 1] == recs[f]);
        }
    }
}

/// The split range of bin `i`: its own record's fields plus the previous
/// record's cumulative counts (zero for the first bin).
pub open spec fn spec_bin_range(recs: Seq<SplitRecord>, i: int) -> SplitRange {
    SplitRange {
        offset: recs[i].offset,
        num_previous_queries: if i == 0 {
            0
        } else {
            recs[i - 1].num_queries
        },
        num_end_queries: recs[i].num_queries,
        num_previous_reads: if i == 0 {
            0
        } else {
            recs[i - 1].num_reads
        },
        num_end_reads: recs[i].num_reads,
    }
}

/// A valid index is internally consistent: counts strictly increase and the
/// first bin is nonempty.
pub proof fn lemma_valid_for_wf_counts(
    recs: Seq<SplitRecord>,
    s: Seq<RecordData>,
    off: spec_fn(int) -> u64,
)
    requires
        valid_for(recs, s, off),
    ensures
        wf_counts(recs),
{
    assert forall|i: int, j: int| 0 <= i < j < recs.len() implies #[trigger] recs[i].num_queries
        < #[trigger] recs[j].num_queries && recs[i].num_reads < recs[j].num_reads by {
        lemma_valid_pair(recs, s, off, i, j);
    }
    if recs.len() > 0 {
        assert(valid_bin(recs, s, off, 0));
        crate::groups::lemma_queries_before_pos(s, recs[0].num_reads as int);
    }
}

/// Counts strictly increase between any two bins of a valid index.
proof fn lemma_valid_pair(
    recs: Seq<SplitRecord>,
    s: Seq<RecordData>,
    off: spec_fn(int) -> u64,
    i: int,
    j: int,
)
    requires
        valid_for(recs, s, off),
        0 <= i < j < recs.len(),
    ensures
        recs[i].num_queries < recs[j].num_queries,
        recs[i].num_reads < recs[j].num_reads,
    decreases j - i,
{
    if i + 1 < j {
        lemma_valid_pair(recs, s, off, i, j - 1);
    }
    assert(valid_bin(recs, s, off, j));
    assert(valid_bin(recs, s, off, j - 1));
    assert(valid_bin(recs, s, off, i));
    let ei = recs[j - 1].num_reads as int;
    let ej = recs[j].num_reads as int;
    assert(ei < ej);
    assert(is_group_boundary(s, ei) && 0 < ei < s.len());
    assert(queries_before(s, ei + 1) == queries_before(s, ei) + 1);
    crate::groups::lemma_queries_before_monotone(s, ei + 1, ej);
    if i < j - 1 {
        crate::groups::lemma_queries_before_monotone(
            s,
            recs[i].num_reads as int,
            recs[j - 1].num_reads as int,
        );
    }
}

/// No bin of a valid index splits a query group: at every interior bin
/// boundary, the last record before the boundary and the first record at it
/// carry different query names.
pub proof fn lemma_no_split_groups(
    recs: Seq<SplitRecord>,
    s: Seq<RecordData>,
    off: spec_fn(int) -> u64,
    i: int,
)
    requires
        valid_for(recs, s, off),
        0 <= i,
        i + 1 < recs.len(),
    ensures
        s[recs[i].num_reads - 1].qname != s[recs[i].num_reads as int].qname,
{
    assert(valid_bin(recs, s, off, i));
    assert(valid_bin(recs, s, off, i + 1));
    let e = recs[i].num_reads as int;
    assert(0 < e < s.len());
    assert(is_group_start(s, e));
}

/// ASCII bytes of the serialized index header: `split-index 1.0\n`.
pub open spec fn header_bytes() -> Seq<u8> {
    seq![115u8, 112u8, 108u8, 105u8, 116u8, 45u8, 105u8, 110u8, 100u8, 101u8, 120u8, 32u8, 49u8, 46u8, 48u8, 10u8]
}

/// The literal prefix every serialized index must start with: `split-index `.
pub open spec fn magic_prefix() -> Seq<u8> {
    header_bytes().subrange(0, 12)
}

/// ASCII bytes of the one version this library reads and writes: `1.0`.
pub open spec fn version_bytes() -> Seq<u8> {
    header_bytes().subrange(12, 15)
}

/// Serialized form of one split record: offset, query count, and record
/// count, each as eight little-endian bytes.
pub open spec fn spec_serialized_record(rec: SplitRecord) -> Seq<u8> {
    vstd::bytes::spec_u64_to_le_bytes(rec.offset) + vstd::bytes::spec_u64_to_le_bytes(
        rec.num_queries as u64,
    ) + vstd::bytes::spec_u64_to_le_bytes(rec.num_reads as u64)
}

/// Serialized form of a record list: each record's bytes in order.
pub open spec fn spec_serialized_records(recs: Seq<SplitRecord>) -> Seq<u8>
    decreases recs.len(),
{
    if recs.len() == 0 {
        Seq::<u8>::empty()
    } else {
        spec_serialized_record(recs[0]) + spec_serialized_records(recs.skip(1))
    }
}

/// Serialized form of a whole index: header, record count as eight
/// little-endian bytes, then the records.
pub open spec fn spec_serialize(recs: Seq<SplitRecord>) -> Seq<u8> {
    header_bytes() + vstd::bytes::spec_u64_to_le_bytes(recs.len() as u64)
        + spec_serialized_records(recs)
}

/// The position of the first newline at or after `from`; the length when
/// there is none.
pub open spec fn find_newline(bytes: Seq<u8>, from: int) -> int
    decreases bytes.len() - from,
{
    if from >= bytes.len() {
        bytes.len() as int
    } else if bytes[from] == 10 {
        from
    } else {
        find_newline(bytes, from + 1)
    }
}

/// Parse of one 24-byte split record; nothing when a count does not fit the
/// platform's size type.
pub open spec fn spec_parse_record(b: Seq<u8>) -> Option<SplitRecord> {
    let off = vstd::bytes::spec_u64_from_le_bytes(b.subrange(0, 8));
    let q = vstd::bytes::spec_u64_from_le_bytes(b.subrange(8, 16));
    let r = vstd::bytes::spec_u64_from_le_bytes(b.subrange(16, 24));
    if q <= usize::MAX as u64 && r <= usize::MAX as u64 {
        Some(SplitRecord { offset: off, num_queries: q as usize, num_reads: r as usize })
    } else {
        None
    }
}

/// Parse of `n` consecutive records starting at `from`.
pub open spec fn spec_parse_records(bytes: Seq<u8>, from: int, n: int) -> Option<Seq<SplitRecord>>
    decreases n,
{
    if n <= 0 {
        Some(Seq::<SplitRecord>::empty())
    } else {
        match spec_parse_record(bytes.subrange(from, from + 24)) {
            Option::None => Option::None,
            Option::Some(rec) => match spec_parse_records(bytes, from + 24, n - 1) {
                Option::None => Option::None,
                Option::Some(rest) => Option::Some(Seq::<SplitRecord>::empty().push(rec) + rest),
            },
        }
    }
}

/// Parse of a serialized index: on success the records and the number of
/// bytes consumed; otherwise which error the malformation earns. This is the
/// reference meaning of the on-disk format.
pub open spec fn spec_parse(bytes: Seq<u8>) -> Result<(Seq<SplitRecord>, int), SplitError> {
    let pos = find_newline(bytes, 0);
    if pos == bytes.len() {
        Err(SplitError::CorruptIndex)
    } else if pos + 1 < 12 {
        Err(SplitError::CorruptIndex)
    } else if bytes.subrange(0, 12) != magic_prefix() {
        Err(SplitError::CorruptIndex)
    } else if bytes.subrange(12, pos) != version_bytes() {
        Err(SplitError::UnknownVersion)
    } else {
        let c = pos + 1;
        if bytes.len() - c < 8 {
            Err(SplitError::CorruptIndex)
        } else {
            let n = vstd::bytes::spec_u64_from_le_bytes(bytes.subrange(c, c + 8));
            if n as int > (bytes.len() - c - 8) / 24 {
                Err(SplitError::CorruptIndex)
            } else {
                match spec_parse_records(bytes, c + 8, n as int) {
                    Option::None => Err(SplitError::CorruptIndex),
                    Option::Some(recs) => Ok((recs, c + 8 + 24 * (n as int))),
                }
            }
        }
    }
}

/// The newline search lands exactly on a known first newline.
proof fn lemma_find_newline_at(bytes: Seq<u8>, from: int, k: int)
    requires
        0 <= from <= k < bytes.len(),
        forall|i: int| from <= i < k ==> bytes[i] != 10,
        bytes[k] == 10,
    ensures
        find_newline(bytes, from) == k,
    decreases k - from,
{
    if from < k {
        lemma_find_newline_at(bytes, from + 1, k);
    }
}

/// When no byte from `from` on is a newline, the search returns the length.
proof fn lemma_find_newline_none(bytes: Seq<u8>, from: int)
    requires
        0 <= from <= bytes.len(),
        forall|i: int| from <= i < bytes.len() ==> bytes[i] != 10,
    ensures
        find_newline(bytes, from) == bytes.len(),
    decreases bytes.len() - from,
{
    if from < bytes.len() {
        lemma_find_newline_none(bytes, from + 1);
    }
}

/// Serialized records occupy exactly 24 bytes each.
pub proof fn lemma_serialized_records_len(recs: Seq<SplitRecord>)
    ensures
        spec_serialized_records(recs).len() == 24 * recs.len(),
    decreases recs.len(),
{
    vstd::bytes::lemma_auto_spec_u64_to_from_le_bytes();
    if recs.len() > 0 {
        lemma_serialized_records_len(recs.skip(1));
    }
}

/// Appending one record to a list appends its bytes to the serialization.
proof fn lemma_serialized_records_snoc(recs: Seq<SplitRecord>)
    requires
        recs.len() > 0,
    ensures
        spec_serialized_records(recs) == spec_serialized_records(recs.drop_last())
            + spec_serialized_record(recs.last()),
    decreases recs.len(),
{
    if recs.len() == 1 {
        assert(recs.drop_last() =~= Seq::<SplitRecord>::empty());
        assert(spec_serialized_records(recs.skip(1)) == Seq::<u8>::empty()) by {
            assert(recs.skip(1) =~= Seq::<SplitRecord>::empty());
        }
        assert(spec_serialized_records(recs) =~= spec_serialized_records(recs.drop_last())
            + spec_serialized_record(recs.last()));
    } else {
        lemma_serialized_records_snoc(recs.skip(1));
        assert(recs.skip(1).drop_last() =~= recs.drop_last().skip(1));
        assert(recs.skip(1).last() == recs.last());
        assert(recs.drop_last()[0] == recs[0]);
        assert(spec_serialized_records(recs) =~= spec_serialized_records(recs.drop_last())
            + spec_serialized_record(recs.last()));
    }
}

/// Parsing reads back exactly the records whose serialization sits at
/// `from`, whatever surrounds them.
proof fn lemma_parse_serialized_records(bytes: Seq<u8>, from: int, recs: Seq<SplitRecord>)
    requires
        0 <= from,
        from + 24 * recs.len() <= bytes.len(),
        bytes.subrange(from, from + 24 * recs.len()) == spec_serialized_records(recs),
    ensures
        spec_parse_records(bytes, from, recs.len() as int) == Option::Some(recs),
    decreases recs.len(),
{
    vstd::bytes::lemma_auto_spec_u64_to_from_le_bytes();
    lemma_serialized_records_len(recs);
    if recs.len() > 0 {
        let r0 = recs[0];
        let rb = spec_serialized_record(r0);
        lemma_serialized_records_len(recs.skip(1));
        assert(bytes.subrange(from, from + 24) =~= rb) by {
            assert forall|i: int| 0 <= i < 24 implies bytes.subrange(from, from + 24)[i] == rb[i] by {
                assert(bytes.subrange(from, from + 24 * recs.len())[i] == rb[i]);
            }
        }
        assert(rb.subrange(0, 8) =~= vstd::bytes::spec_u64_to_le_bytes(r0.offset));
        assert(rb.subrange(8, 16) =~= vstd::bytes::spec_u64_to_le_bytes(r0.num_queries as u64));
        assert(rb.subrange(16, 24) =~= vstd::bytes::spec_u64_to_le_bytes(r0.num_reads as u64));
        assert(spec_parse_record(bytes.subrange(from, from + 24)) == Option::Some(r0));
        assert(bytes.subrange(from + 24, from + 24 + 24 * recs.skip(1).len())
            =~= spec_serialized_records(recs.skip(1))) by {
            assert forall|i: int| 0 <= i < 24 * recs.skip(1).len() implies bytes.subrange(
                from + 24,
                from + 24 + 24 * recs.skip(1).len(),
            )[i] == spec_serialized_records(recs.skip(1))[i] by {
                assert(bytes.subrange(from, from + 24 * recs.len())[24 + i]
                    == spec_serialized_records(recs)[24 + i]);
            }
        }
        lemma_parse_serialized_records(bytes, from + 24, recs.skip(1));
        assert(Seq::<SplitRecord>::empty().push(r0) + recs.skip(1) =~= recs);
    } else {
        assert(spec_parse_records(bytes, from, 0) == Option::Some(Seq::<SplitRecord>::empty()));
        assert(recs =~= Seq::<SplitRecord>::empty());
    }
}

/// The serialization round trip: parsing a serialized index yields exactly
/// the records that were written, consuming the whole serialization.
pub proof fn lemma_serialize_round_trip(recs: Seq<SplitRecord>)
    requires
        recs.len() <= u64::MAX,
    ensures
        spec_parse(spec_serialize(recs)) == Ok::<_, SplitError>(
            (recs, spec_serialize(recs).len() as int),
        ),
{
    vstd::bytes::lemma_auto_spec_u64_to_from_le_bytes();
    lemma_serialized_records_len(recs);
    let ser = spec_serialize(recs);
    let h = header_bytes();
    let lenb = vstd::bytes::spec_u64_to_le_bytes(recs.len() as u64);
    assert(ser.len() == 16 + 8 + 24 * recs.len());
    assert forall|i: int| 0 <= i < 16 implies ser[i] == h[i] by {}
    assert(h[15] == 10);
    assert(forall|i: int| 0 <= i < 15 ==> h[i] != 10);
    lemma_find_newline_at(ser, 0, 15);
    assert(find_newline(ser, 0) == 15);
    assert(ser.subrange(0, 12) =~= magic_prefix());
    assert(ser.subrange(12, 15) =~= version_bytes());
    let c = 16int;
    assert(ser.subrange(c, c + 8) =~= lenb);
    let n = vstd::bytes::spec_u64_from_le_bytes(ser.subrange(c, c + 8));
    assert(n == recs.len() as u64);
    assert((ser.len() - c - 8) / 24 == recs.len()) by {
        vstd::arithmetic::div_mod::lemma_div_multiples_vanish(
            recs.len() as int,
            24,
        );
    }
    assert(ser.subrange(c + 8, c + 8 + 24 * recs.len()) =~= spec_serialized_records(recs));
    lemma_parse_serialized_records(ser, c + 8, recs);
}

/// Push the sixteen header bytes `split-index 1.0\n`.
fn push_header(bytes: &mut Vec<u8>)
    ensures
        final(bytes)@ == old(bytes)@ + header_bytes(),
{
    bytes.push(115);
    bytes.push(112);
    bytes.push(108);
    bytes.push(105);
    bytes.push(116);
    bytes.push(45);
    bytes.push(105);
    bytes.push(110);
    bytes.push(100);
    bytes.push(101);
    bytes.push(120);
    bytes.push(32);
    bytes.push(49);
    bytes.push(46);
    bytes.push(48);
    bytes.push(10);
    proof {
        assert(bytes@ =~= old(bytes)@ + header_bytes());
    }
}

/// Read eight little-endian bytes at `pos` as one unsigned number.
fn read_u64_at(bytes: &Vec<u8>, pos: usize) -> (r: u64)
    requires
        pos + 8 <= bytes@.len(),
    ensures
        r == vstd::bytes::spec_u64_from_le_bytes(bytes@.subrange(pos as int, pos as int + 8)),
{
    let l = bytes.len();
    assert(pos + 8 <= l);
    let s = vstd::slice::slice_subrange(bytes.as_slice(), pos, pos + 8);
    vstd::bytes::u64_from_le_bytes(s)
}

impl SplitRecord {
    /// Serialize by appending 24 bytes to `bytes`.
    pub fn serialize(&self, bytes: &mut Vec<u8>)
        ensures
            final(bytes)@ == old(bytes)@ + spec_serialized_record(*self),
    {
        let mut off = vstd::bytes::u64_to_le_bytes(self.offset);
        bytes.append(&mut off);
        let mut nq = vstd::bytes::u64_to_le_bytes(self.num_queries as u64);
        bytes.append(&mut nq);
        let mut nr = vstd::bytes::u64_to_le_bytes(self.num_reads as u64);
        bytes.append(&mut nr);
        proof {
            assert(bytes@ =~= old(bytes)@ + spec_serialized_record(*self));
        }
    }

    /// Deserialize one record from the front of `bytes`, consuming its 24
    /// bytes. Fails without consuming anything when fewer than 24 bytes are
    /// left or a count does not fit the platform's size type.
    pub fn deserialize(bytes: &mut Vec<u8>) -> (r: Result<Self, SplitError>)
        ensures
            old(bytes)@.len() < 24 ==> (r matches Err(e) && e == SplitError::CorruptIndex
                && final(bytes)@ == old(bytes)@),
            old(bytes)@.len() >= 24 ==> match spec_parse_record(old(bytes)@.subrange(0, 24)) {
                Option::Some(rec) => r matches Ok(got) && got == rec
                    && final(bytes)@ == old(bytes)@.skip(24),
                Option::None => r matches Err(e) && e == SplitError::CorruptIndex && final(bytes)@
                    == old(bytes)@,
            },
    {
        if bytes.len() < 24 {
            return Err(SplitError::CorruptIndex);
        }
        proof {
            assert(bytes@.subrange(0, 24).subrange(0, 8) =~= bytes@.subrange(0, 8));
            assert(bytes@.subrange(0, 24).subrange(8, 16) =~= bytes@.subrange(8, 16));
            assert(bytes@.subrange(0, 24).subrange(16, 24) =~= bytes@.subrange(16, 24));
        }
        let off = read_u64_at(bytes, 0);
        let q = read_u64_at(bytes, 8);
        let rr = read_u64_at(bytes, 16);
        if q > usize::MAX as u64 || rr > usize::MAX as u64 {
            return Err(SplitError::CorruptIndex);
        }
        let rec = SplitRecord { offset: off, num_queries: q as usize, num_reads: rr as usize };
        let tail = bytes.split_off(24);
        *bytes = tail;
        proof {
            assert(bytes@ =~= old(bytes)@.skip(24));
        }
        Ok(rec)
    }
}

/// A downsized record list built by choosing a strictly increasing set of
/// original positions, carrying each successor's offset, and ending on the
/// last original record, is again internally consistent and valid for every
/// stream the original was valid for.
proof fn lemma_downsize_valid(recs: Seq<SplitRecord>, down: Seq<SplitRecord>, chosen: Seq<int>)
    requires
        recs.len() >= 1,
        wf_counts(recs),
        down.len() == chosen.len(),
        chosen.len() >= 1,
        forall|k: int| 0 <= k < chosen.len() ==> 0 <= #[trigger] chosen[k] < recs.len(),
        forall|k: int| 0 <= k < chosen.len() - 1 ==> #[trigger] chosen[k] < chosen[k + 1],
        chosen[chosen.len() - 1] == recs.len() - 1,
        forall|k: int|
            0 <= k < down.len() ==> (#[trigger] down[k]).num_queries
                == recs[chosen[k]].num_queries && down[k].num_reads == recs[chosen[k]].num_reads,
        down[0].offset == recs[0].offset,
        forall|k: int|
            1 <= k < down.len() ==> (#[trigger] down[k]).offset == recs[chosen[k - 1] + 1].offset,
    ensures
        wf_counts(down),
        down[down.len() - 1].num_queries == recs[recs.len() - 1].num_queries,
        down[down.len() - 1].num_reads == recs[recs.len() - 1].num_reads,
        forall|k: int|
            0 <= k < down.len() ==> exists|j: int|
                0 <= j < recs.len() && (#[trigger] down[k]).num_queries == (
                #[trigger] recs[j]).num_queries && down[k].num_reads == recs[j].num_reads,
        forall|s: Seq<RecordData>, o: spec_fn(int) -> u64|
            #[trigger] valid_for(recs, s, o) ==> valid_for(down, s, o),
{
    assert forall|k: int| 0 <= k < down.len() implies exists|j: int|
        0 <= j < recs.len() && (#[trigger] down[k]).num_queries == (#[trigger] recs[j]).num_queries
            && down[k].num_reads == recs[j].num_reads by {
        let j = chosen[k];
        assert(0 <= j < recs.len() && down[k].num_queries == recs[j].num_queries
            && down[k].num_reads == recs[j].num_reads);
    }
    assert forall|i: int, j: int| 0 <= i < j < down.len() implies #[trigger] down[i].num_queries
        < #[trigger] down[j].num_queries && down[i].num_reads < down[j].num_reads by {
        lemma_chosen_increasing(chosen, i, j);
        assert(recs[chosen[i]].num_queries < recs[chosen[j]].num_queries);
    }
    assert(down[0].num_queries >= 1 && down[0].num_reads >= 1) by {
        if chosen[0] > 0 {
            assert(recs[0].num_queries < recs[chosen[0]].num_queries);
        }
    }
    assert forall|s: Seq<RecordData>, o: spec_fn(int) -> u64|
        #[trigger] valid_for(recs, s, o) implies valid_for(down, s, o) by {
        assert forall|k: int| 0 <= k < down.len() implies #[trigger] valid_bin(down, s, o, k) by {
            let j = chosen[k];
            assert(valid_bin(recs, s, o, j));
            if k == 0 {
                assert(valid_bin(recs, s, o, 0));
                if j > 0 {
                    assert(recs[0].num_reads < recs[j].num_reads);
                }
            } else {
                let jp = chosen[k - 1];
                lemma_chosen_increasing(chosen, k - 1, k);
                assert(jp + 1 < recs.len());
                assert(valid_bin(recs, s, o, jp + 1));
                assert(recs[jp].num_reads < recs[j].num_reads);
                assert(bin_start(recs, jp + 1) == recs[jp].num_reads as int);
                assert(bin_start(down, k) == recs[jp].num_reads as int);
            }
        }
        assert(down[down.len() - 1].num_reads == recs[recs.len() - 1].num_reads);
    }
}

/// An internally consistent index never holds more bins than query groups:
/// bin `k` ends at group `k + 1` at the earliest, and no later than `k + 1`
/// plus the groups left over for the bins after it.
pub proof fn lemma_bin_count_bounds(recs: Seq<SplitRecord>)
    requires
        wf_counts(recs),
    ensures
        recs.len() <= seq_num_queries(recs),
        forall|k: int|
            0 <= k < recs.len() ==> k + 1 <= (#[trigger] recs[k].num_queries) as int
                <= seq_num_queries(recs) - (recs.len() - 1 - k),
{
    assert forall|k: int| 0 <= k < recs.len() implies k + 1 <= (#[trigger] recs[k].num_queries)
        as int <= seq_num_queries(recs) - (recs.len() - 1 - k) by {
        lemma_counts_chain_low(recs, k);
        lemma_counts_chain_high(recs, k);
    }
    if recs.len() > 0 {
        lemma_counts_chain_low(recs, recs.len() - 1);
    }
}

/// Bin `k` of a consistent index ends at group `k + 1` or later.
proof fn lemma_counts_chain_low(recs: Seq<SplitRecord>, k: int)
    requires
        wf_counts(recs),
        0 <= k < recs.len(),
    ensures
        recs[k].num_queries as int >= k + 1,
    decreases k,
{
    if k > 0 {
        lemma_counts_chain_low(recs, k - 1);
        assert(recs[k - 1].num_queries < recs[k].num_queries);
    }
}

/// Bin `k` of a consistent index leaves at least one group for each bin
/// after it.
proof fn lemma_counts_chain_high(recs: Seq<SplitRecord>, k: int)
    requires
        wf_counts(recs),
        0 <= k < recs.len(),
    ensures
        recs[k].num_queries as int <= seq_num_queries(recs) - (recs.len() - 1 - k),
    decreases recs.len() - k,
{
    if k + 1 < recs.len() {
        lemma_counts_chain_high(recs, k + 1);
        assert(recs[k].num_queries < recs[k + 1].num_queries);
    }
}

/// One-group-per-bin saturation: an index holding at least as many bins as
/// query groups — as a build whose bin target is at or above the group count
/// yields — has exactly one query group per bin, so bin `k` ends at group
/// `k + 1`.
pub proof fn lemma_saturated_bins(recs: Seq<SplitRecord>)
    requires
        wf_counts(recs),
        recs.len() >= seq_num_queries(recs),
    ensures
        recs.len() == seq_num_queries(recs),
        forall|k: int| 0 <= k < recs.len() ==> (#[trigger] recs[k].num_queries) as int == k + 1,
{
    lemma_bin_count_bounds(recs);
}

/// A strictly increasing (adjacent) integer sequence increases pairwise.
proof fn lemma_chosen_increasing(chosen: Seq<int>, i: int, j: int)
    requires
        forall|k: int| 0 <= k < chosen.len() - 1 ==> #[trigger] chosen[k] < chosen[k + 1],
        0 <= i < j < chosen.len(),
    ensures
        chosen[i] < chosen[j],
    decreases j - i,
{
    if i + 1 < j {
        lemma_chosen_increasing(chosen, i, j - 1);
    }
    assert(chosen[j - 1] < chosen[j]);
}

/// The in-memory split index: bins in stream order.
#[derive(Clone, Debug)]
pub struct SplitIndex {
    split_records: Vec<SplitRecord>,
}

impl View for SplitIndex {
    type V = Seq<SplitRecord>;

    closed spec fn view(&self) -> Seq<SplitRecord> {
        self.split_records@
    }
}

/// The downsizer's state before processing a target boundary: the bins
/// emitted so far, the offset carried for the next bin (the start offset of
/// the last chosen bin's successor), the last chosen original position, and
/// whether the walk already reached the last original record.
pub ghost struct DownsizeState {
    /// Bins emitted so far, in order.
    pub out: Seq<SplitRecord>,
    /// The offset the next emitted bin will carry.
    pub carried_offset: u64,
    /// The original position chosen last.
    pub last_index: int,
    /// Whether any position was chosen yet.
    pub has_last: bool,
    /// Whether the walk consumed the last original record early.
    pub done: bool,
}

/// The downsizer's starting state: nothing emitted, carrying the first
/// original bin's offset.
pub open spec fn spec_downsize_init(recs: Seq<SplitRecord>) -> DownsizeState {
    DownsizeState {
        out: Seq::<SplitRecord>::empty(),
        carried_offset: recs[0].offset,
        last_index: 0,
        has_last: false,
        done: false,
    }
}

/// The original position nearest the query target `t`: the first record
/// reaching `t`, or its predecessor when that one sits at least as close.
pub open spec fn spec_nearest(recs: Seq<SplitRecord>, t: int) -> int {
    let i = first_at_least(recs, t);
    if i > 0 && t - recs[i - 1].num_queries <= recs[i].num_queries - t {
        i - 1
    } else {
        i
    }
}

/// One downsizing step for target boundary `bin` of `nb`: pick the record
/// nearest the evenly spaced query target; skip a boundary whose nearest
/// record was already taken; otherwise emit it under the carried offset, and
/// stop early when it was the last original record.
pub open spec fn spec_downsize_step(
    recs: Seq<SplitRecord>,
    nb: int,
    st: DownsizeState,
    bin: int,
) -> DownsizeState {
    if st.done {
        st
    } else {
        let t = (bin * seq_num_queries(recs)) / nb;
        let i = spec_nearest(recs, t);
        if st.has_last && i <= st.last_index {
            st
        } else {
            let rec = SplitRecord {
                offset: st.carried_offset,
                num_queries: recs[i].num_queries,
                num_reads: recs[i].num_reads,
            };
            if i + 1 < recs.len() {
                DownsizeState {
                    out: st.out.push(rec),
                    carried_offset: recs[i + 1].offset,
                    last_index: i,
                    has_last: true,
                    done: false,
                }
            } else {
                DownsizeState { out: st.out.push(rec), done: true, ..st }
            }
        }
    }
}

/// The downsizer's state before target boundary `bin`, having processed
/// boundaries one up to it.
pub open spec fn spec_downsize_fold(recs: Seq<SplitRecord>, nb: int, bin: int) -> DownsizeState
    decreases bin,
{
    if bin <= 1 {
        spec_downsize_init(recs)
    } else {
        spec_downsize_step(recs, nb, spec_downsize_fold(recs, nb, bin - 1), bin - 1)
    }
}

/// The downsized index: the input unchanged when at least as many bins were
/// asked for as exist; otherwise the emitted bins, closed by the last
/// original record under the carried offset unless the walk already consumed
/// it. Downsizing is a function of the index and the bin target alone.
pub open spec fn spec_downsize(recs: Seq<SplitRecord>, nb: int) -> Seq<SplitRecord> {
    if nb >= recs.len() {
        recs
    } else {
        let st = spec_downsize_fold(recs, nb, nb);
        if st.done {
            st.out
        } else {
            st.out.push(
                SplitRecord {
                    offset: st.carried_offset,
                    num_queries: recs[recs.len() - 1].num_queries,
                    num_reads: recs[recs.len() - 1].num_reads,
                },
            )
        }
    }
}

/// Once the downsizing walk stops early, later boundaries change nothing.
proof fn lemma_downsize_fold_done(recs: Seq<SplitRecord>, nb: int, b1: int, b2: int)
    requires
        1 <= b1 <= b2,
        spec_downsize_fold(recs, nb, b1).done,
    ensures
        spec_downsize_fold(recs, nb, b2) == spec_downsize_fold(recs, nb, b1),
    decreases b2 - b1,
{
    if b1 < b2 {
        lemma_downsize_fold_done(recs, nb, b1, b2 - 1);
    }
}

/// The indexer's whole state after consuming a prefix of the stream: the
/// closed bins, the bin being grown, and the query count at which the next
/// bin may close.
pub ghost struct BuildState {
    /// Bins already closed, in stream order.
    pub bins: Seq<SplitRecord>,
    /// The bin being grown, holding the records read so far past the last
    /// closed bin.
    pub cur: SplitRecord,
    /// The query count at which the next bin boundary may open.
    pub next_query_bin: int,
}

/// The indexer's state after its first record: one bin of one record and one
/// query group, starting at the stream's first offset.
pub open spec fn spec_build_init(off: spec_fn(int) -> u64) -> BuildState {
    BuildState {
        bins: Seq::<SplitRecord>::empty(),
        cur: SplitRecord { offset: off(0), num_queries: 1, num_reads: 1 },
        next_query_bin: 1,
    }
}

/// One indexing step, consuming record `p` of the stream: a record inside
/// the running query group only grows the bin; a new group below the bin
/// threshold grows the bin by a group; a new group at the threshold closes
/// the bin, widens the threshold by `max(1, queries so far / num_bins)`
/// (saturating), and opens the next bin at the record's offset.
pub open spec fn spec_build_step(
    st: BuildState,
    s: Seq<RecordData>,
    off: spec_fn(int) -> u64,
    nb: int,
    p: int,
) -> BuildState {
    if s[p].qname == s[p - 1].qname {
        BuildState {
            cur: SplitRecord { num_reads: (st.cur.num_reads + 1) as usize, ..st.cur },
            ..st
        }
    } else if (st.cur.num_queries as int) < st.next_query_bin {
        BuildState {
            cur: SplitRecord {
                offset: st.cur.offset,
                num_queries: (st.cur.num_queries + 1) as usize,
                num_reads: (st.cur.num_reads + 1) as usize,
            },
            ..st
        }
    } else {
        let q = st.cur.num_queries as int;
        let step = if q / nb >= 1 {
            q / nb
        } else {
            1int
        };
        BuildState {
            bins: st.bins.push(st.cur),
            cur: SplitRecord {
                offset: off(p),
                num_queries: (q + 1) as usize,
                num_reads: (st.cur.num_reads + 1) as usize,
            },
            next_query_bin: if st.next_query_bin + step <= usize::MAX {
                st.next_query_bin + step
            } else {
                usize::MAX as int
            },
        }
    }
}

/// The indexer's state after the first `n` records of the stream.
pub open spec fn spec_build_fold(
    s: Seq<RecordData>,
    off: spec_fn(int) -> u64,
    nb: int,
    n: int,
) -> BuildState
    decreases n,
{
    if n <= 1 {
        spec_build_init(off)
    } else {
        spec_build_step(spec_build_fold(s, off, nb, n - 1), s, off, nb, n - 1)
    }
}

/// The index the builder produces for a stream: nothing for an empty one,
/// otherwise every closed bin followed by the final one. The index is a
/// function of the stream, its offsets, and the bin target alone.
pub open spec fn spec_build(s: Seq<RecordData>, off: spec_fn(int) -> u64, nb: int) -> Seq<
    SplitRecord,
> {
    if s.len() == 0 {
        Seq::<SplitRecord>::empty()
    } else {
        let st = spec_build_fold(s, off, nb, s.len() as int);
        st.bins.push(st.cur)
    }
}

/// Building is deterministic: the index depends on the record stream, its
/// offsets, and the bin target alone — not on the passthrough writer, the
/// log pacing, or the wall clock.
pub proof fn lemma_build_deterministic(
    s: Seq<RecordData>,
    off: spec_fn(int) -> u64,
    nb: int,
    one: Seq<SplitRecord>,
    other: Seq<SplitRecord>,
)
    requires
        one == spec_build(s, off, nb),
        other == spec_build(s, off, nb),
    ensures
        one == other,
{
}

impl SplitIndex {
    /// Create a new empty index with room reserved for `num_records` bins.
    pub fn with_capacity(num_records: usize) -> (r: Self)
        ensures
            r@ == Seq::<SplitRecord>::empty(),
    {
        SplitIndex { split_records: Vec::with_capacity(num_records) }
    }

    /// The number of bins in the index.
    pub fn len(&self) -> (r: usize)
        ensures
            r == self@.len(),
    {
        self.split_records.len()
    }

    /// True when the index holds no bins.
    pub fn is_empty(&self) -> (r: bool)
        ensures
            r == (self@.len() == 0),
    {
        self.split_records.is_empty()
    }

    /// The total number of indexed query groups. For a complete index this
    /// is the number of query groups in the underlying file.
    pub fn num_queries(&self) -> (r: usize)
        ensures
            r == seq_num_queries(self@),
    {
        if self.split_records.len() == 0 {
            0
        } else {
            self.split_records[self.split_records.len() - 1].num_queries
        }
    }

    /// The total number of indexed records. For a complete index this is the
    /// number of records in the underlying file.
    pub fn num_reads(&self) -> (r: usize)
        ensures
            r == seq_num_reads(self@),
    {
        if self.split_records.len() == 0 {
            0
        } else {
            self.split_records[self.split_records.len() - 1].num_reads
        }
    }

    /// Append one bin to the index.
    pub fn add_record(&mut self, split_record: SplitRecord)
        ensures
            final(self)@ == old(self)@.push(split_record),
    {
        self.split_records.push(split_record);
    }

    /// The bin that would follow the current last one: it starts at `offset`
    /// and initially covers one record opening one new query group.
    pub fn start_next_record(&self, offset: u64) -> (r: SplitRecord)
        requires
            seq_num_queries(self@) < usize::MAX,
            seq_num_reads(self@) < usize::MAX,
        ensures
            r.offset == offset,
            r.num_queries as int == seq_num_queries(self@) + 1,
            r.num_reads as int == seq_num_reads(self@) + 1,
    {
        SplitRecord { offset, num_queries: self.num_queries() + 1, num_reads: self.num_reads() + 1 }
    }

    /// Whether the cumulative counts are strictly increasing and start at
    /// one or more, as every index built from a stream is. Lookups and
    /// downsizing expect this; an index read from untrusted bytes should be
    /// screened with it first.
    pub fn check_counts(&self) -> (r: bool)
        ensures
            r == wf_counts(self@),
    {
        let n = self.split_records.len();
        if n == 0 {
            return true;
        }
        if self.split_records[0].num_queries < 1 || self.split_records[0].num_reads < 1 {
            return false;
        }
        let mut k: usize = 1;
        while k < n
            invariant
                1 <= k <= n,
                n == self@.len(),
                self@[0].num_queries >= 1,
                self@[0].num_reads >= 1,
                forall|i: int, j: int|
                    0 <= i < j < k ==> #[trigger] self@[i].num_queries
                        < #[trigger] self@[j].num_queries && self@[i].num_reads
                        < self@[j].num_reads,
            decreases n - k,
        {
            if self.split_records[k - 1].num_queries >= self.split_records[k].num_queries
                || self.split_records[k - 1].num_reads >= self.split_records[k].num_reads {
                assert(!wf_counts(self@));
                return false;
            }
            k = k + 1;
        }
        true
    }

    /// The query count at the end of each bin, in order. Exposed for
    /// inspection and tests.
    pub fn get_split_record_num_queries(&self) -> (r: Vec<usize>)
        ensures
            r@.len() == self@.len(),
            forall|i: int| 0 <= i < self@.len() ==> r@[i] == #[trigger] self@[i].num_queries,
    {
        let n = self.split_records.len();
        let mut out: Vec<usize> = Vec::with_capacity(n);
        let mut k: usize = 0;
        while k < n
            invariant
                0 <= k <= n,
                n == self@.len(),
                out@.len() == k,
                forall|i: int| 0 <= i < k ==> out@[i] == #[trigger] self@[i].num_queries,
            decreases n - k,
        {
            out.push(self.split_records[k].num_queries);
            k = k + 1;
        }
        out
    }

    /// A copy of this index holding the same records.
    fn copy_records(&self) -> (r: Self)
        ensures
            r@ == self@,
    {
        let n = self.split_records.len();
        let mut records: Vec<SplitRecord> = Vec::with_capacity(n);
        let mut k: usize = 0;
        while k < n
            invariant
                0 <= k <= n,
                n == self@.len(),
                records@ == self@.take(k as int),
            decreases n - k,
        {
            records.push(self.split_records[k]);
            proof {
                assert(records@ =~= self@.take(k as int + 1));
            }
            k = k + 1;
        }
        proof {
            assert(self@.take(n as int) =~= self@);
        }
        SplitIndex { split_records: records }
    }

    /// Serialize the whole index to bytes: header, record count, then the
    /// records.
    pub fn serialize(self) -> (r: Vec<u8>)
        ensures
            r@ == spec_serialize(self@),
    {
        let n = self.split_records.len();
        let mut bytes: Vec<u8> = Vec::new();
        push_header(&mut bytes);
        let mut lenb = vstd::bytes::u64_to_le_bytes(n as u64);
        bytes.append(&mut lenb);
        let ghost head = bytes@;
        let mut k: usize = 0;
        while k < n
            invariant
                0 <= k <= n,
                n == self@.len(),
                head == header_bytes() + vstd::bytes::spec_u64_to_le_bytes(n as u64),
                bytes@ == head + spec_serialized_records(self@.take(k as int)),
            decreases n - k,
        {
            let ghost prefix = self@.take(k as int);
            self.split_records[k].serialize(&mut bytes);
            proof {
                let grown = self@.take(k as int + 1);
                assert(grown.drop_last() =~= prefix);
                assert(grown.last() == self@[k as int]);
                lemma_serialized_records_snoc(grown);
                assert(bytes@ =~= head + spec_serialized_records(grown));
            }
            k = k + 1;
        }
        proof {
            assert(self@.take(n as int) =~= self@);
        }
        bytes
    }

    /// Deserialize an index from the front of `bytes`. On success, exactly
    /// the serialized form is consumed and any trailing bytes stay; on
    /// failure `bytes` is left untouched and the error names what was
    /// malformed.
    #[verifier::loop_isolation(false)]
    pub fn deserialize(bytes: &mut Vec<u8>) -> (r: Result<Self, SplitError>)
        ensures
            spec_parse(old(bytes)@) matches Ok(p) ==> (r matches Ok(idx) && idx@ == p.0
                && final(bytes)@ == old(bytes)@.skip(p.1)),
            spec_parse(old(bytes)@) matches Err(e) ==> (r matches Err(e2) && e2 == e
                && final(bytes)@ == old(bytes)@),
    {
        let ghost orig = bytes@;
        proof {
            assert(header_bytes().len() == 16);
            assert(magic_prefix().len() == 12);
            assert(version_bytes().len() == 3);
        }
        let len = bytes.len();
        let mut pos: usize = 0;
        while pos < len && bytes[pos] != 10
            invariant
                0 <= pos <= len,
                len == bytes@.len(),
                bytes@ == orig,
                forall|i: int| 0 <= i < pos ==> orig[i] != 10,
            decreases len - pos,
        {
            pos = pos + 1;
        }
        if pos == len {
            proof {
                lemma_find_newline_none(orig, 0);
            }
            return Err(SplitError::CorruptIndex);
        }
        proof {
            lemma_find_newline_at(orig, 0, pos as int);
        }
        if pos + 1 < 12 {
            return Err(SplitError::CorruptIndex);
        }
        let mut hv: Vec<u8> = Vec::new();
        push_header(&mut hv);
        let mut j: usize = 0;
        while j < 12
            invariant
                0 <= j <= 12,
                12 <= len == bytes@.len(),
                bytes@ == orig,
                hv@ == header_bytes(),
                forall|i: int| 0 <= i < j ==> orig[i] == header_bytes()[i],
            decreases 12 - j,
        {
            if bytes[j] != hv[j] {
                proof {
                    assert(orig.subrange(0, 12)[j as int] != magic_prefix()[j as int]);
                }
                return Err(SplitError::CorruptIndex);
            }
            j = j + 1;
        }
        proof {
            assert(orig.subrange(0, 12) =~= magic_prefix());
        }
        if pos != 15 {
            proof {
                assert(orig.subrange(12, pos as int).len() != version_bytes().len());
            }
            return Err(SplitError::UnknownVersion);
        }
        let mut j2: usize = 12;
        while j2 < 15
            invariant
                12 <= j2 <= 15,
                15 < len == bytes@.len(),
                bytes@ == orig,
                hv@ == header_bytes(),
                forall|i: int| 12 <= i < j2 ==> orig[i] == header_bytes()[i],
            decreases 15 - j2,
        {
            if bytes[j2] != hv[j2] {
                proof {
                    assert(orig.subrange(12, 15)[j2 - 12] != version_bytes()[j2 - 12]);
                }
                return Err(SplitError::UnknownVersion);
            }
            j2 = j2 + 1;
        }
        proof {
            assert(orig.subrange(12, 15) =~= version_bytes());
        }
        let c = pos + 1;
        if len - c < 8 {
            return Err(SplitError::CorruptIndex);
        }
        let n64 = read_u64_at(bytes, c);
        let avail = (len - c - 8) / 24;
        if n64 > avail as u64 {
            return Err(SplitError::CorruptIndex);
        }
        let n = n64 as usize;
        let c8 = c + 8;
        proof {
            vstd::arithmetic::div_mod::lemma_fundamental_div_mod((len - c8) as int, 24);
        }
        let mut out: Vec<SplitRecord> = Vec::with_capacity(n);
        let mut k: usize = 0;
        while k < n
            invariant
                0 <= k <= n,
                len == bytes@.len(),
                bytes@ == orig,
                out@.len() == k,
                pos == 15,
                c8 == 24,
                c8 as int + 24 * (n as int) <= len,
                n == n64,
                (match spec_parse_records(orig, c8 as int + 24 * (k as int), (n - k) as int) {
                    Option::Some(rest) => spec_parse_records(orig, c8 as int, n as int)
                        == Option::Some(out@ + rest),
                    Option::None => spec_parse_records(orig, c8 as int, n as int)
                        == Option::<Seq<SplitRecord>>::None,
                }),
            decreases n - k,
        {
            let base = c8 + 24 * k;
            let ghost basei = base as int;
            proof {
                assert(orig.subrange(basei, basei + 24).subrange(0, 8) =~= orig.subrange(
                    basei,
                    basei + 8,
                ));
                assert(orig.subrange(basei, basei + 24).subrange(8, 16) =~= orig.subrange(
                    basei + 8,
                    basei + 16,
                ));
                assert(orig.subrange(basei, basei + 24).subrange(16, 24) =~= orig.subrange(
                    basei + 16,
                    basei + 24,
                ));
            }
            let off = read_u64_at(bytes, base);
            let q = read_u64_at(bytes, base + 8);
            let rr = read_u64_at(bytes, base + 16);
            if q > usize::MAX as u64 || rr > usize::MAX as u64 {
                proof {
                    assert(spec_parse_record(orig.subrange(basei, basei + 24)) is None);
                    assert(spec_parse_records(orig, basei, (n - k) as int) is None);
                }
                return Err(SplitError::CorruptIndex);
            }
            let rec = SplitRecord { offset: off, num_queries: q as usize, num_reads: rr as usize };
            let ghost out_before = out@;
            out.push(rec);
            proof {
                assert(spec_parse_record(orig.subrange(basei, basei + 24)) == Option::Some(rec));
                match spec_parse_records(orig, basei + 24, (n - k - 1) as int) {
                    Option::Some(rest2) => {
                        assert(spec_parse_records(orig, basei, (n - k) as int) == Option::Some(
                            Seq::<SplitRecord>::empty().push(rec) + rest2,
                        ));
                        assert(out_before + (Seq::<SplitRecord>::empty().push(rec) + rest2) =~= out@
                            + rest2);
                    },
                    Option::None => {
                        assert(spec_parse_records(orig, basei, (n - k) as int) is None);
                    },
                }
            }
            k = k + 1;
        }
        proof {
            assert(spec_parse_records(orig, c8 as int + 24 * (n as int), 0) == Option::Some(
                Seq::<SplitRecord>::empty(),
            ));
            assert(out@ + Seq::<SplitRecord>::empty() =~= out@);
        }
        let consumed = c8 + 24 * n;
        let tail = bytes.split_off(consumed);
        *bytes = tail;
        proof {
            assert(bytes@ =~= orig.skip(consumed as int));
        }
        Ok(SplitIndex { split_records: out })
    }

    /// Build a split index by walking a record stream once. Bins never split
    /// query groups. Because the totals are unknown in advance, the bin
    /// width grows as `max(1, queries_so_far / num_bins)`, so the raw bin
    /// count grows only logarithmically past the request and a later
    /// downsize interpolates it back down. When a passthrough writer is
    /// supplied, every record read is also written to it. An empty source
    /// yields an empty, valid index. The result is a valid index for the
    /// reader's stream and offsets.
    pub fn build<R, Reader, Writer>(
        mut reader: Reader,
        writer: &mut Option<Writer>,
        num_bins: usize,
        _update_interval: u64,
    ) -> (r: Result<SplitIndex, SplitError>)
        where
            R: ChunkableRecord,
            Reader: ChunkableRecordReader<R>,
            Writer: ChunkableRecordWriter<R>,
        requires
            num_bins >= 1,
            reader.wf(),
            reader.pos() == 0,
        ensures
            (*old(writer)) is None ==> (*final(writer)) is None,
            (*old(writer)) is Some ==> (*final(writer)) is Some,
            r matches Ok(idx) ==> ({
                &&& valid_for(idx@, reader.records(), |i: int| reader.offset_at(i))
                &&& seq_num_queries(idx@) == total_queries(reader.records())
                &&& seq_num_reads(idx@) == reader.records().len()
                &&& idx@.len() >= (if num_bins as int <= total_queries(reader.records()) {
                    num_bins as int
                } else {
                    total_queries(reader.records())
                })
                &&& idx@ == spec_build(
                    reader.records(),
                    |i: int| reader.offset_at(i),
                    num_bins as int,
                )
                &&& ((*old(writer)) matches Some(w) ==> (*final(writer)) matches Some(w2)
                    && w2.written() == w.written() + reader.records())
            }),
    {
        let ghost s = reader.records();
        let ghost off = |i: int| reader.offset_at(i);
        let ghost winit: Option<Writer> = *writer;
        proof {
            reader.lemma_wf();
        }
        let mut record = R::new();
        let mut split_index = SplitIndex::with_capacity(num_bins);
        let mut next_query_bin: usize = 1;
        let mut offset: u64 = match reader.tell() {
            Ok(o) => o,
            Err(e) => {
                return Err(e);
            },
        };
        match reader.read_into(&mut record) {
            Option::None => {
                // Empty source: an empty index is still a valid one.
                proof {
                    assert(s.len() == 0);
                    assert(match winit {
                        Option::Some(w) => w.written() + s =~= w.written(),
                        Option::None => true,
                    });
                }
                return Ok(split_index);
            },
            Option::Some(Err(e)) => {
                return Err(e);
            },
            Option::Some(Ok(())) => {},
        }
        match writer {
            Option::Some(actual_writer) => {
                match actual_writer.write(&record) {
                    Ok(()) => {},
                    Err(e) => {
                        return Err(e);
                    },
                }
                proof {
                    assert(winit matches Some(w) && w.written().push(record@) =~= w.written()
                        + s.subrange(0, 1));
                }
            },
            Option::None => {},
        }
        let mut last_query_name: Vec<u8> = vstd::slice::slice_to_vec(record.qname());
        let mut split_record = split_index.start_next_record(offset);
        offset = match reader.tell() {
            Ok(o) => o,
            Err(e) => {
                return Err(e);
            },
        };
        proof {
            assert(queries_before(s, 0) == 0);
            assert(queries_before(s, 1) == 1);
        }
        loop
            invariant_except_break
                winit == *old(writer),
                reader.wf(),
                reader.records() == s,
                forall|i: int| #[trigger] reader.offset_at(i) == off(i),
                s.len() <= usize::MAX,
                1 <= reader.pos() <= s.len(),
                num_bins >= 1,
                split_record.num_reads as int == reader.pos(),
                split_record.num_queries as int == queries_before(s, reader.pos()),
                last_query_name@ == s[reader.pos() - 1].qname,
                offset == off(reader.pos()),
                forall|i: int|
                    0 <= i < split_index@.len() ==> #[trigger] valid_bin(split_index@, s, off, i),
                split_record.offset == off(seq_num_reads(split_index@)),
                seq_num_reads(split_index@) < split_record.num_reads as int,
                seq_num_queries(split_index@) <= split_record.num_queries as int,
                seq_num_queries(split_index@) < num_bins ==> (seq_num_queries(split_index@)
                    == split_index@.len() && next_query_bin as int == split_index@.len() + 1
                    && split_record.num_queries as int == seq_num_queries(split_index@) + 1),
                seq_num_queries(split_index@) >= num_bins ==> split_index@.len() >= num_bins,
                split_index@ == spec_build_fold(s, off, num_bins as int, reader.pos()).bins,
                split_record == spec_build_fold(s, off, num_bins as int, reader.pos()).cur,
                next_query_bin as int == spec_build_fold(
                    s,
                    off,
                    num_bins as int,
                    reader.pos(),
                ).next_query_bin,
                ((*writer) is Some) == (winit is Some),
                (*writer) matches Some(w) ==> (winit matches Some(wi) && w.written()
                    == wi.written() + s.subrange(0, reader.pos())),
            ensures
                winit == *old(writer),
                reader.wf(),
                reader.records() == s,
                forall|i: int| #[trigger] reader.offset_at(i) == off(i),
                reader.pos() == s.len(),
                1 <= s.len() <= usize::MAX,
                split_record.num_reads as int == reader.pos(),
                split_record.num_queries as int == queries_before(s, reader.pos()),
                forall|i: int|
                    0 <= i < split_index@.len() ==> #[trigger] valid_bin(split_index@, s, off, i),
                split_record.offset == off(seq_num_reads(split_index@)),
                seq_num_reads(split_index@) < split_record.num_reads as int,
                seq_num_queries(split_index@) <= split_record.num_queries as int,
                seq_num_queries(split_index@) < num_bins ==> (seq_num_queries(split_index@)
                    == split_index@.len() && next_query_bin as int == split_index@.len() + 1
                    && split_record.num_queries as int == seq_num_queries(split_index@) + 1),
                seq_num_queries(split_index@) >= num_bins ==> split_index@.len() >= num_bins,
                split_index@ == spec_build_fold(s, off, num_bins as int, reader.pos()).bins,
                split_record == spec_build_fold(s, off, num_bins as int, reader.pos()).cur,
                next_query_bin as int == spec_build_fold(
                    s,
                    off,
                    num_bins as int,
                    reader.pos(),
                ).next_query_bin,
                ((*writer) is Some) == (winit is Some),
                (*writer) matches Some(w) ==> (winit matches Some(wi) && w.written()
                    == wi.written() + s.subrange(0, reader.pos())),
            decreases s.len() - reader.pos(),
        {
            let ghost p = reader.pos();
            match reader.read_into(&mut record) {
                Option::None => {
                    break ;
                },
                Option::Some(Err(e)) => {
                    return Err(e);
                },
                Option::Some(Ok(())) => {},
            }
            match writer {
                Option::Some(actual_writer) => {
                    match actual_writer.write(&record) {
                        Ok(()) => {},
                        Err(e) => {
                            return Err(e);
                        },
                    }
                    proof {
                        assert(winit matches Some(wi) && wi.written() + s.subrange(0, p).push(
                            record@,
                        ) =~= wi.written() + s.subrange(0, p + 1));
                    }
                },
                Option::None => {},
            }
            if bytes_equal(record.qname(), last_query_name.as_slice()) {
                // Still inside a query group: the bin only grows by a record.
                proof {
                    assert(!is_group_start(s, p));
                }
                split_record.num_reads = split_record.num_reads + 1;
            } else if split_record.num_queries < next_query_bin {
                // A new query group, but not yet time to close the bin.
                proof {
                    assert(is_group_start(s, p));
                }
                let fresh_name = vstd::slice::slice_to_vec(record.qname());
                last_query_name = fresh_name;
                split_record.num_reads = split_record.num_reads + 1;
                split_record.num_queries = split_record.num_queries + 1;
            } else {
                // A new query group at the bin threshold: close the bin and
                // open the next one at this record's offset.
                proof {
                    assert(is_group_start(s, p));
                    let ghost prior = split_index@;
                    crate::groups::lemma_queries_before_monotone(s, 0, p + 1);
                }
                let fresh_name = vstd::slice::slice_to_vec(record.qname());
                last_query_name = fresh_name;
                let ghost prior = split_index@;
                split_index.add_record(split_record);
                proof {
                    assert forall|i: int| 0 <= i < split_index@.len() implies #[trigger] valid_bin(
                        split_index@,
                        s,
                        off,
                        i,
                    ) by {
                        if i < prior.len() {
                            assert(valid_bin(prior, s, off, i));
                            assert(bin_start(split_index@, i) == bin_start(prior, i));
                        }
                    }
                }
                let total_so_far = split_index.num_queries();
                proof {
                    if total_so_far < num_bins {
                        vstd::arithmetic::div_mod::lemma_basic_div(
                            total_so_far as int,
                            num_bins as int,
                        );
                    }
                }
                let raw_step = total_so_far / num_bins;
                let step = crate::max_usize(1, raw_step);
                next_query_bin = if next_query_bin <= usize::MAX - step {
                    next_query_bin + step
                } else {
                    usize::MAX
                };
                split_record = split_index.start_next_record(offset);
            }
            offset = match reader.tell() {
                Ok(o) => o,
                Err(e) => {
                    return Err(e);
                },
            };
            proof {
                assert(spec_build_fold(s, off, num_bins as int, reader.pos())
                    == spec_build_step(
                    spec_build_fold(s, off, num_bins as int, reader.pos() - 1),
                    s,
                    off,
                    num_bins as int,
                    reader.pos() - 1,
                ));
            }
        }
        let ghost prior = split_index@;
        split_index.add_record(split_record);
        proof {
            assert forall|i: int| 0 <= i < split_index@.len() implies #[trigger] valid_bin(
                split_index@,
                s,
                off,
                i,
            ) by {
                if i < prior.len() {
                    assert(valid_bin(prior, s, off, i));
                    assert(bin_start(split_index@, i) == bin_start(prior, i));
                }
            }
            assert(valid_for(split_index@, s, off));
            assert(match winit {
                Option::Some(wi) => wi.written() + s.subrange(0, s.len() as int) =~= wi.written()
                    + s,
                Option::None => true,
            });
        }
        Ok(split_index)
    }

    /// Downsize via interpolation to roughly evenly spaced bins. The first
    /// target boundary keeps the first bin's offset; each later bin takes the
    /// original record nearest its evenly spaced query target, carrying the
    /// offset of the chosen record's successor so that every offset still
    /// names the first record of its bin; the last bin reuses the last
    /// original record so the totals are preserved exactly. Asking for at
    /// least as many bins as exist returns the index unchanged.
    pub fn downsize_reads(&self, num_bins: usize) -> (r: Result<Self, SplitError>)
        requires
            num_bins >= 1,
            num_bins < self@.len() ==> wf_counts(self@),
        ensures
            r matches Ok(d) ==> ({
                &&& num_bins as int >= self@.len() ==> d@ == self@
                &&& d@.len() <= num_bins
                &&& self@.len() > 0 ==> d@.len() >= 1 && d@[d@.len() - 1].num_queries
                    == self@[self@.len() - 1].num_queries && d@[d@.len() - 1].num_reads
                    == self@[self@.len() - 1].num_reads
                &&& wf_counts(self@) ==> wf_counts(d@)
                &&& forall|k: int|
                    0 <= k < d@.len() ==> exists|j: int|
                        0 <= j < self@.len() && (#[trigger] d@[k]).num_queries == (
                        #[trigger] self@[j]).num_queries && d@[k].num_reads == self@[j].num_reads
                &&& forall|s: Seq<RecordData>, o: spec_fn(int) -> u64|
                    #[trigger] valid_for(self@, s, o) ==> valid_for(d@, s, o)
                &&& d@ == spec_downsize(self@, num_bins as int)
            }),
            r is Ok,
    {
        let len = self.split_records.len();
        if num_bins >= len {
            // Fewer bins exist than were requested: keep the index as it is.
            let copy = self.copy_records();
            proof {
                assert forall|k: int| 0 <= k < copy@.len() implies exists|j: int|
                    0 <= j < self@.len() && (#[trigger] copy@[k]).num_queries == (
                    #[trigger] self@[j]).num_queries && copy@[k].num_reads
                    == self@[j].num_reads by {
                    assert(0 <= k < self@.len() && copy@[k].num_queries == self@[k].num_queries
                        && copy@[k].num_reads == self@[k].num_reads);
                }
            }
            return Ok(copy);
        }
        let ghost recs = self@;
        let mut downsized = SplitIndex::with_capacity(num_bins);
        let ghost mut chosen: Seq<int> = Seq::empty();
        let mut last_offset: u64 = self.split_records[0].offset;
        let mut last_index: usize = 0;
        let mut has_last: bool = false;
        let mut bin: usize = 1;
        while bin < num_bins
            invariant
                1 <= bin <= num_bins,
                1 <= num_bins < len,
                len == recs.len(),
                recs == self@,
                wf_counts(recs),
                downsized@.len() == chosen.len(),
                chosen.len() <= bin - 1,
                forall|k: int| 0 <= k < chosen.len() ==> 0 <= #[trigger] chosen[k] < len,
                forall|k: int| 0 <= k < chosen.len() - 1 ==> #[trigger] chosen[k] < chosen[k + 1],
                forall|k: int|
                    0 <= k < chosen.len() ==> (#[trigger] downsized@[k]).num_queries
                        == recs[chosen[k]].num_queries && downsized@[k].num_reads
                        == recs[chosen[k]].num_reads,
                chosen.len() > 0 ==> downsized@[0].offset == recs[0].offset,
                forall|k: int|
                    1 <= k < chosen.len() ==> (#[trigger] downsized@[k]).offset == recs[chosen[k
                        - 1] + 1].offset,
                has_last ==> chosen.len() > 0 && chosen[chosen.len() - 1] == last_index as int
                    && last_index + 1 < len && last_offset == recs[last_index as int + 1].offset,
                !has_last ==> chosen.len() == 0 && last_offset == recs[0].offset,
                ({
                    let st = spec_downsize_fold(recs, num_bins as int, bin as int);
                    &&& !st.done
                    &&& st.out == downsized@
                    &&& st.carried_offset == last_offset
                    &&& st.has_last == has_last
                    &&& (st.has_last ==> st.last_index == last_index as int)
                }),
            decreases num_bins - bin,
        {
            let target_num_queries = match self.get_chunk_query_start(bin, num_bins) {
                Ok(t) => t,
                Err(e) => {
                    return Err(e);
                },
            };
            proof {
                lemma_first_at_least(recs, target_num_queries as int);
                let t = seq_num_queries(recs);
                vstd::arithmetic::mul::lemma_mul_inequality(bin as int, num_bins as int, t);
                vstd::arithmetic::div_mod::lemma_div_is_ordered(
                    bin as int * t,
                    num_bins as int * t,
                    num_bins as int,
                );
                vstd::arithmetic::div_mod::lemma_div_multiples_vanish(t, num_bins as int);
                assert(target_num_queries as int <= t);
                if first_at_least(recs, target_num_queries as int) == len {
                    assert(recs[len - 1].num_queries < target_num_queries);
                    assert(false);
                }
            }
            let mut index = self.bisect_left(target_num_queries);
            if index > 0 && target_num_queries - self.split_records[index - 1].num_queries
                <= self.split_records[index].num_queries - target_num_queries {
                index = index - 1;
            }
            if has_last && index <= last_index {
                // The original index is sparser than the request here; the
                // nearest record was already taken, so this boundary is
                // skipped.
            } else {
                let mut new_record = self.split_records[index];
                new_record.offset = last_offset;
                downsized.add_record(new_record);
                proof {
                    chosen = chosen.push(index as int);
                }
                if index + 1 < len {
                    last_offset = self.split_records[index + 1].offset;
                } else {
                    // The walk reached the last original record early;
                    // return what was gathered, totals intact.
                    proof {
                        lemma_downsize_valid(recs, downsized@, chosen);
                        assert(spec_downsize_fold(recs, num_bins as int, bin as int + 1)
                            == spec_downsize_step(
                            recs,
                            num_bins as int,
                            spec_downsize_fold(recs, num_bins as int, bin as int),
                            bin as int,
                        ));
                        lemma_downsize_fold_done(
                            recs,
                            num_bins as int,
                            bin as int + 1,
                            num_bins as int,
                        );
                    }
                    return Ok(downsized);
                }
                last_index = index;
                has_last = true;
            }
            proof {
                assert(spec_downsize_fold(recs, num_bins as int, bin as int + 1)
                    == spec_downsize_step(
                    recs,
                    num_bins as int,
                    spec_downsize_fold(recs, num_bins as int, bin as int),
                    bin as int,
                ));
            }
            bin = bin + 1;
        }
        let mut new_record = self.split_records[len - 1];
        new_record.offset = last_offset;
        downsized.add_record(new_record);
        proof {
            chosen = chosen.push(len as int - 1);
            lemma_downsize_valid(recs, downsized@, chosen);
        }
        Ok(downsized)
    }

    /// The split range of the bin at `index`, or nothing past the end.
    fn index_to_bin_range(&self, index: usize) -> (r: Option<SplitRange>)
        ensures
            index < self@.len() ==> r == Some(spec_bin_range(self@, index as int)),
            index >= self@.len() ==> r is None,
    {
        if index >= self.split_records.len() {
            return None;
        }
        let split_record = self.split_records[index];
        if index == 0 {
            Some(
                SplitRange {
                    offset: split_record.offset,
                    num_previous_queries: 0,
                    num_end_queries: split_record.num_queries,
                    num_previous_reads: 0,
                    num_end_reads: split_record.num_reads,
                },
            )
        } else {
            let previous_record = self.split_records[index - 1];
            Some(
                SplitRange {
                    offset: split_record.offset,
                    num_previous_queries: previous_record.num_queries,
                    num_end_queries: split_record.num_queries,
                    num_previous_reads: previous_record.num_reads,
                    num_end_reads: split_record.num_reads,
                },
            )
        }
    }

    /// Binary search for the first bin whose end-of-bin query count reaches
    /// `target`.
    fn bisect_left(&self, target: usize) -> (r: usize)
        requires
            wf_counts(self@),
        ensures
            r == first_at_least(self@, target as int),
    {
        let n = self.split_records.len();
        let mut lo: usize = 0;
        let mut hi: usize = n;
        while lo < hi
            invariant
                0 <= lo <= hi <= n,
                n == self@.len(),
                wf_counts(self@),
                forall|i: int| 0 <= i < lo ==> (#[trigger] self@[i].num_queries) < target,
                forall|i: int| hi <= i < n ==> (#[trigger] self@[i].num_queries) >= target,
            decreases hi - lo,
        {
            let mid = lo + (hi - lo) / 2;
            if self.split_records[mid].num_queries < target {
                assert forall|i: int| 0 <= i <= mid implies (#[trigger] self@[i].num_queries)
                    < target by {
                    if i < mid {
                        assert(self@[i].num_queries < self@[mid as int].num_queries);
                    }
                }
                lo = mid + 1;
            } else {
                assert forall|i: int| mid <= i < n implies (#[trigger] self@[i].num_queries)
                    >= target by {
                    if mid < i {
                        assert(self@[mid as int].num_queries < self@[i].num_queries);
                    }
                }
                hi = mid;
            }
        }
        proof {
            lemma_first_at_least(self@, target as int);
            let f = first_at_least(self@, target as int);
            if f < lo {
                assert(self@[f].num_queries < target);
            }
            if lo < f {
                assert(self@[lo as int].num_queries >= target);
            }
        }
        lo
    }
}

impl PartialEq for SplitIndex {
    /// Two indexes are equal when they hold the same records in the same
    /// order.
    fn eq(&self, other: &Self) -> (r: bool) {
        let n = self.split_records.len();
        if n != other.split_records.len() {
            return false;
        }
        let mut k: usize = 0;
        while k < n
            invariant
                0 <= k <= n,
                n == self@.len() == other@.len(),
                forall|i: int| 0 <= i < k ==> self@[i] == other@[i],
            decreases n - k,
        {
            if self.split_records[k] != other.split_records[k] {
                return false;
            }
            k = k + 1;
        }
        proof {
            assert(self@ =~= other@);
        }
        true
    }
}

impl vstd::std_specs::cmp::PartialEqSpecImpl for SplitIndex {
    open spec fn obeys_eq_spec() -> bool {
        true
    }

    open spec fn eq_spec(&self, other: &Self) -> bool {
        self@ == other@
    }
}

impl FastForwardIndex for SplitIndex {
    open spec fn index_records(&self) -> Seq<SplitRecord> {
        self@
    }

    /// The exact query ordinal opening chunk `chunk_index` of `num_chunks`:
    /// `chunk_index * total / num_chunks`, computed without overflow or
    /// rounding drift.
    fn get_chunk_query_start(&self, chunk_index: usize, num_chunks: usize) -> (r: Result<
        usize,
        SplitError,
    >) {
        if chunk_index <= num_chunks {
            let t = self.num_queries();
            let d = t / num_chunks;
            let rem = t % num_chunks;
            proof {
                vstd::arithmetic::div_mod::lemma_fundamental_div_mod(t as int, num_chunks as int);
                vstd::arithmetic::mul::lemma_mul_inequality(
                    chunk_index as int,
                    num_chunks as int,
                    d as int,
                );
                vstd::arithmetic::mul::lemma_mul_inequality(
                    chunk_index as int,
                    num_chunks as int,
                    rem as int,
                );
                vstd::arithmetic::div_mod::lemma_div_multiples_vanish(
                    rem as int,
                    num_chunks as int,
                );
                vstd::arithmetic::div_mod::lemma_div_is_ordered(
                    chunk_index as int * rem as int,
                    num_chunks as int * rem as int,
                    num_chunks as int,
                );
            }
            assert((chunk_index as u128) * (rem as u128) <= u128::MAX) by (nonlinear_arith)
                requires
                    0 <= chunk_index as u128 <= u64::MAX as u128,
                    0 <= rem as u128 <= u64::MAX as u128,
            ;
            let scaled128: u128 = (chunk_index as u128) * (rem as u128) / (num_chunks as u128);
            assert(scaled128 as int == (chunk_index as int * rem as int) / (num_chunks as int));
            assert(scaled128 <= rem as u128);
            let scaled: usize = scaled128 as usize;
            let start = chunk_index * d + scaled;
            proof {
                let ci = chunk_index as int;
                let nn = num_chunks as int;
                let ti = t as int;
                assert(ci * ti == (ci * (d as int)) * nn + ci * (rem as int))
                    by (nonlinear_arith)
                    requires
                        ti == nn * (d as int) + (rem as int),
                ;
                vstd::arithmetic::div_mod::lemma_hoist_over_denominator(
                    ci * (rem as int),
                    ci * (d as int),
                    num_chunks as nat,
                );
            }
            Ok(start)
        } else {
            Err(SplitError::InvalidChunkArgs)
        }
    }

    /// The range of the bin containing the query ordinal `num_queries`,
    /// found by binary search.
    fn get_record_for_num_queries(&self, num_queries: usize) -> (r: Option<SplitRange>) {
        proof {
            lemma_first_at_least(self@, num_queries as int);
        }
        let index = self.bisect_left(num_queries);
        self.index_to_bin_range(index)
    }
}

} // verus!
