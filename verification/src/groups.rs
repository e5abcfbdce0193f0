//! Mathematical model of a record stream and its query groups.
//!
//! A record stream is a sequence of records, each carrying a query name,
//! a sequence, and qualities. A *query group* is a maximal run of adjacent
//! records sharing the same query name; groups are the atomic unit that a
//! split of the stream must never cut through.

use vstd::prelude::*;

verus! {

/// Abstract content of one record: the three byte strings every supported
/// format carries. Format-specific residue is deliberately absent.
pub ghost struct RecordData {
    /// Query name; adjacent records with equal names form one query group.
    pub qname: Seq<u8>,
    /// Base sequence, opaque passthrough data for this library.
    pub seq: Seq<u8>,
    /// Base qualities, opaque passthrough data for this library.
    pub qual: Seq<u8>,
}

/// Does record `i` open a query group: it is the first record, or its query
/// name differs from its predecessor's.
pub open spec fn is_group_start(s: Seq<RecordData>, i: int) -> bool {
    0 <= i < s.len() && (i == 0 || s[i].qname != s[i - 1].qname)
}

/// Number of query groups begun among the first `n` records.
pub open spec fn queries_before(s: Seq<RecordData>, n: int) -> int
    decreases n,
{
    if n <= 0 {
        0
    } else {
        queries_before(s, n - 1) + if is_group_start(s, n - 1) {
            1int
        } else {
            0int
        }
    }
}

/// Total number of query groups in the stream.
pub open spec fn total_queries(s: Seq<RecordData>) -> int {
    queries_before(s, s.len() as int)
}

/// Is `n` a cut that does not split a query group: the very start, the very
/// end, or the start of a group.
pub open spec fn is_group_boundary(s: Seq<RecordData>, n: int) -> bool {
    n == 0 || n == s.len() || is_group_start(s, n)
}

/// The index of the first record of the `q`-th query group (groups counted
/// from zero); meaningful for `0 <= q < total_queries(s)`.
pub open spec fn group_first_record(s: Seq<RecordData>, q: int) -> int {
    choose|i: int| is_group_start(s, i) && queries_before(s, i) == q
}

/// The first record of group `q`, extended past the last group: every group
/// ordinal at or past the total maps to the stream's length. Chunk bounds are
/// stated with this cut.
pub open spec fn group_cut(s: Seq<RecordData>, q: int) -> int {
    if q >= total_queries(s) {
        s.len() as int
    } else {
        group_first_record(s, q)
    }
}

/// Counting groups never runs backwards and gains at most one group per
/// record.
pub proof fn lemma_queries_before_monotone(s: Seq<RecordData>, m: int, n: int)
    requires
        0 <= m <= n,
    ensures
        queries_before(s, m) <= queries_before(s, n) <= queries_before(s, m) + (n - m),
    decreases n - m,
{
    if n > m {
        lemma_queries_before_monotone(s, m, n - 1);
    }
}

/// Any nonempty prefix of a nonempty stream holds at least one group: the
/// very first record always opens one.
pub proof fn lemma_queries_before_pos(s: Seq<RecordData>, n: int)
    requires
        1 <= n,
        s.len() >= 1,
    ensures
        queries_before(s, n) >= 1,
{
    assert(queries_before(s, 0) == 0);
    assert(queries_before(s, 1) == 1);
    lemma_queries_before_monotone(s, 1, n);
}

/// Between two prefixes that hold the same number of groups, no record opens
/// a group.
pub proof fn lemma_no_start_between(s: Seq<RecordData>, m: int, n: int, k: int)
    requires
        0 <= m <= k < n,
        queries_before(s, m) == queries_before(s, n),
    ensures
        !is_group_start(s, k),
{
    lemma_queries_before_monotone(s, m, k);
    lemma_queries_before_monotone(s, k, n);
    assert(queries_before(s, k + 1) == queries_before(s, k) + if is_group_start(s, k) {
        1int
    } else {
        0int
    });
    lemma_queries_before_monotone(s, k + 1, n);
}

/// Records of one group share their query name: if no record in `(i, j]`
/// opens a group, record `j` is named like record `i`.
pub proof fn lemma_same_group_same_qname(s: Seq<RecordData>, i: int, j: int)
    requires
        0 <= i <= j < s.len(),
        forall|k: int| i < k <= j ==> !is_group_start(s, k),
    ensures
        s[j].qname == s[i].qname,
    decreases j - i,
{
    if i < j {
        lemma_same_group_same_qname(s, i, j - 1);
        assert(!is_group_start(s, j));
    }
}

/// Every group ordinal below the total is opened by exactly one record, and
/// `group_first_record` designates it.
pub proof fn lemma_group_first_record(s: Seq<RecordData>, q: int)
    requires
        0 <= q < total_queries(s),
    ensures
        is_group_start(s, group_first_record(s, q)),
        queries_before(s, group_first_record(s, q)) == q,
        forall|i: int|
            is_group_start(s, i) && queries_before(s, i) == q ==> i == group_first_record(s, q),
{
    lemma_group_start_exists(s, q, s.len() as int);
    let w = group_first_record(s, q);
    assert(is_group_start(s, w) && queries_before(s, w) == q);
    assert forall|i: int|
        is_group_start(s, i) && queries_before(s, i) == q implies i == w by {
        if i < w {
            lemma_queries_before_monotone(s, i + 1, w);
        }
        if w < i {
            lemma_queries_before_monotone(s, w + 1, i);
        }
    }
}

/// Helper: among the first `n` records there is a record opening group `q`
/// whenever `q` groups are complete by `n`.
proof fn lemma_group_start_exists(s: Seq<RecordData>, q: int, n: int)
    requires
        0 <= q,
        0 <= n <= s.len(),
        q < queries_before(s, n),
    ensures
        exists|i: int| is_group_start(s, i) && queries_before(s, i) == q,
    decreases n,
{
    if n > 0 {
        if queries_before(s, n - 1) > q {
            lemma_group_start_exists(s, q, n - 1);
        } else {
            assert(is_group_start(s, n - 1) && queries_before(s, n - 1) == q);
        }
    }
}

/// The records strictly between a group's first record and the next cut all
/// share that group's name, and the record at the next cut (if any) does not.
pub proof fn lemma_group_run(s: Seq<RecordData>, q: int)
    requires
        0 <= q < total_queries(s),
    ensures
        group_first_record(s, q) < group_cut(s, q + 1) <= s.len(),
        forall|k: int|
            group_first_record(s, q) <= k < group_cut(s, q + 1) ==> #[trigger] s[k].qname
                == s[group_first_record(s, q)].qname,
        group_cut(s, q + 1) < s.len() ==> is_group_start(s, group_cut(s, q + 1)),
{
    lemma_group_first_record(s, q);
    let w = group_first_record(s, q);
    let c = group_cut(s, q + 1);
    if q + 1 < total_queries(s) {
        lemma_group_first_record(s, q + 1);
        let w2 = group_first_record(s, q + 1);
        if w2 <= w {
            lemma_queries_before_monotone(s, w2, w);
            assert(false);
        }
        assert(queries_before(s, w + 1) == q + 1);
        lemma_queries_before_monotone(s, w + 1, w2);
        assert forall|k: int| w <= k < c implies s[k].qname == s[w].qname by {
            assert forall|t: int| w < t <= k implies !is_group_start(s, t) by {
                lemma_no_start_between(s, w + 1, w2, t);
            }
            lemma_same_group_same_qname(s, w, k);
        }
    } else {
        assert(c == s.len());
        lemma_queries_before_monotone(s, w + 1, s.len() as int);
        assert(queries_before(s, w + 1) == q + 1);
        assert(w < c);
        assert forall|k: int| w <= k < c implies s[k].qname == s[w].qname by {
            assert forall|t: int| w < t <= k implies !is_group_start(s, t) by {
                lemma_no_start_between(s, w + 1, s.len() as int, t);
            }
            lemma_same_group_same_qname(s, w, k);
        }
    }
}

/// Group cuts are ordered: a later group never begins earlier.
pub proof fn lemma_group_cut_monotone(s: Seq<RecordData>, p: int, q: int)
    requires
        0 <= p <= q,
    ensures
        0 <= group_cut(s, p) <= group_cut(s, q) <= s.len(),
    decreases q - p,
{
    lemma_group_cut_in_range(s, p);
    lemma_group_cut_in_range(s, q);
    if p < q {
        lemma_group_cut_monotone(s, p, q - 1);
        lemma_group_cut_monotone_step(s, q - 1);
    }
}

/// A single step of cut monotonicity.
proof fn lemma_group_cut_monotone_step(s: Seq<RecordData>, q: int)
    requires
        0 <= q,
    ensures
        group_cut(s, q) <= group_cut(s, q + 1),
{
    lemma_group_cut_in_range(s, q);
    lemma_group_cut_in_range(s, q + 1);
    if q + 1 < total_queries(s) {
        lemma_group_first_record(s, q);
        lemma_group_first_record(s, q + 1);
        let w = group_first_record(s, q);
        let w2 = group_first_record(s, q + 1);
        if w2 < w {
            lemma_queries_before_monotone(s, w2 + 1, w);
        }
    } else if q < total_queries(s) {
        lemma_group_first_record(s, q);
    }
}

/// Cuts stay within the stream.
pub proof fn lemma_group_cut_in_range(s: Seq<RecordData>, q: int)
    requires
        0 <= q,
    ensures
        0 <= group_cut(s, q) <= s.len(),
        is_group_boundary(s, group_cut(s, q)),
        queries_before(s, group_cut(s, q)) == if q <= total_queries(s) {
            q
        } else {
            total_queries(s)
        },
{
    if q < total_queries(s) {
        lemma_group_first_record(s, q);
        lemma_queries_before_monotone(s, group_first_record(s, q), s.len() as int);
    }
}

} // verus!
