//! The whole run over data held in memory: plan the ranges, scan each of
//! them, and reduce the tables to one.

use vstd::prelude::*;
use vstd::slice::slice_subrange;
use rayon::iter::IntoParallelRefIterator;
use rayon::iter::ParallelIterator;
use crate::number::VALUE_LIMIT;
use crate::plan::{
    between_rows, get_ranges, in_bounds, is_plan, lemma_plan_aligned, lemma_starts, plan_defined, plan_spec,
    slice_of, start_of, ByteRange, PlanError,
};
use crate::scan::{
    after_first_row, combine, find_stats, first_index, lemma_combine_empty, lemma_first_index,
    lemma_scan_split, row_table, scan_spec, scanned_bounded, ScanError, Scanned, LINE_END,
};
use crate::station::{lemma_join_bounded, Summary};
use crate::table::{can_merge_maps, can_record, map_bounded, merge_maps, merge_stats, StationTable};

verus! {

/// Why a run has no table.
#[derive(Clone, Copy, Debug, PartialEq, Eq, Structural)]
pub enum AggregateError {
    /// The ranges could not be planned.
    Plan(PlanError),
    /// A row could not be read.
    Scan(ScanError),
}

/// The outcome of a scan.
pub type ScanResult = Result<StationTable, ScanError>;

/// An outcome as a mathematical value: the table by its view.
pub open spec fn scanned_of(r: ScanResult) -> Scanned {
    match r {
        Ok(table) => Ok(table@),
        Err(e) => Err(e),
    }
}

/// Whether an outcome holds a well-formed table, if it holds one.
pub open spec fn result_wf(r: ScanResult) -> bool {
    r is Ok ==> r->Ok_0.wf()
}

/// The outcomes as mathematical values.
pub open spec fn scanned_all(rs: Seq<ScanResult>) -> Seq<Scanned> {
    Seq::new(rs.len(), |i: int| scanned_of(rs[i]))
}

/// What the ranges of `data` contribute, each scanned by itself.
pub open spec fn pieces(data: Seq<u8>, ranges: Seq<ByteRange>) -> Seq<Scanned> {
    Seq::new(ranges.len(), |i: int| scan_spec(slice_of(data, ranges[i])))
}

/// The outcomes combined in their order: the merge of all tables, or the
/// first error.
pub open spec fn fold_scanned(s: Seq<Scanned>) -> Scanned
    decreases s.len(),
{
    if s.len() == 0 {
        Ok(Map::empty())
    } else {
        combine(s[0], fold_scanned(s.skip(1)))
    }
}

/// Whether two outcomes can be combined within the range of a station's
/// counter and sum.
pub open spec fn can_combine(a: Scanned, b: Scanned) -> bool {
    a is Ok && b is Ok ==> can_merge_maps(a->Ok_0, b->Ok_0)
}

/// Whether the outcome at `i` can be combined with what follows it.
pub open spec fn fits_at(s: Seq<Scanned>, i: int) -> bool {
    can_combine(s[i], fold_scanned(s.skip(i + 1)))
}

/// Whether each outcome can be combined with what follows it.
pub open spec fn fold_fits(s: Seq<Scanned>) -> bool {
    forall|i: int| 0 <= i < s.len() ==> #[trigger] fits_at(s, i)
}

/// Folding from `n` on is combining the outcome at `n` with the fold of what
/// follows it.
pub proof fn lemma_fold_step(s: Seq<Scanned>, n: int)
    requires
        0 <= n < s.len(),
    ensures
        fold_scanned(s.skip(n)) == combine(s[n], fold_scanned(s.skip(n + 1))),
{
    assert(s.skip(n)[0] == s[n]);
    assert(s.skip(n).skip(1) == s.skip(n + 1));
}

/// Merging bounded tables gives a table bounded by the sum of their rows.
pub proof fn lemma_merge_maps_bounded(
    a: Map<Seq<u8>, Summary>,
    b: Map<Seq<u8>, Summary>,
    rows_a: int,
    rows_b: int,
    limit: int,
)
    requires
        0 <= rows_a,
        0 <= rows_b,
        map_bounded(a, rows_a, limit),
        map_bounded(b, rows_b, limit),
    ensures
        map_bounded(merge_maps(a, b), rows_a + rows_b, limit),
{
    let m = merge_maps(a, b);
    assert forall|k: Seq<u8>| #[trigger] m.contains_key(k) implies m[k].bounded(
        rows_a + rows_b,
        limit,
    ) by {
        if a.contains_key(k) && b.contains_key(k) {
            lemma_join_bounded(a[k], b[k], rows_a, rows_b, limit);
        } else if a.contains_key(k) {
            assert(a[k].bounded(rows_a, limit));
        } else {
            assert(b[k].bounded(rows_b, limit));
        }
    }
}

/// Tables bounded by rows that together fit a station's counter can be
/// merged.
pub proof fn lemma_bounded_can_merge(
    a: Map<Seq<u8>, Summary>,
    b: Map<Seq<u8>, Summary>,
    rows_a: int,
    rows_b: int,
)
    requires
        map_bounded(a, rows_a, VALUE_LIMIT as int),
        map_bounded(b, rows_b, VALUE_LIMIT as int),
        rows_a + rows_b <= u32::MAX,
    ensures
        can_merge_maps(a, b),
{
    assert forall|k: Seq<u8>| #[trigger] b.contains_key(k) implies can_record(a, k, b[k]) by {
        assert(b[k].bounded(rows_b, VALUE_LIMIT as int));
        if a.contains_key(k) {
            assert(a[k].bounded(rows_a, VALUE_LIMIT as int));
        }
    }
}

/// The table of any data holds, under each key, at most as many observations
/// as the data have bytes, each within the value limit.
#[verifier::rlimit(40)]
pub proof fn lemma_scan_bounded(data: Seq<u8>)
    ensures
        scanned_bounded(scan_spec(data), data.len() as int),
    decreases data.len(),
{
    if data.len() > 0 {
        let n = first_index(data, LINE_END);
        lemma_first_index(data, LINE_END, n);
        let rest = after_first_row(data);
        lemma_scan_bounded(rest);
        let row = row_table(data.take(n));
        if row is Ok && scan_spec(rest) is Ok {
            assert(map_bounded(row->Ok_0, 1, VALUE_LIMIT as int));
            lemma_merge_maps_bounded(
                row->Ok_0,
                scan_spec(rest)->Ok_0,
                1,
                rest.len() as int,
                VALUE_LIMIT as int,
            );
            let m = scan_spec(data)->Ok_0;
            assert forall|k: Seq<u8>| #[trigger] m.contains_key(k) implies m[k].bounded(
                data.len() as int,
                VALUE_LIMIT as int,
            ) by {
                assert(m[k].bounded(1 + rest.len() as int, VALUE_LIMIT as int));
            }
        }
    }
}

/// However the data are cut between rows, the ranges' tables combine to the
/// table of the data as a whole: what comes from position `i` on is what the
/// ranges from `i` on contribute.
#[verifier::rlimit(40)]
pub proof fn lemma_plan_suffix(data: Seq<u8>, ranges: Seq<ByteRange>, i: int)
    requires
        is_plan(data, ranges),
        0 <= i <= ranges.len(),
    ensures
        0 <= start_of(data, ranges, i) <= data.len(),
        fold_scanned(pieces(data, ranges).skip(i)) == scan_spec(
            data.skip(start_of(data, ranges, i)),
        ),
    decreases ranges.len() - i,
{
    let ps = pieces(data, ranges);
    if i == ranges.len() {
        assert(ps.skip(i).len() == 0);
    } else {
        lemma_plan_suffix(data, ranges, i + 1);
        let from = start_of(data, ranges, i);
        let to = start_of(data, ranges, i + 1);
        assert(ranges[i].offset + ranges[i].length == to);
        let a = data.subrange(from, to);
        let b = data.skip(to);
        lemma_fold_step(ps, i);
        assert(ps[i] == scan_spec(a));
        assert(a + b == data.skip(from));
        if b.len() == 0 {
            assert(a + b == a);
            lemma_combine_empty(scan_spec(a));
        } else {
            if a.len() > 0 {
                assert(i + 1 < ranges.len());
                assert(between_rows(data, ranges[i + 1].offset as int));
                assert(a.last() == data[to - 1]);
            }
            lemma_scan_split(a, b);
        }
    }
}

/// Partition independence: for every way of cutting the data between rows,
/// combining the tables of the ranges gives the table of the data scanned in
/// one piece, and the same error where a row cannot be read.
pub proof fn lemma_partition_independent(data: Seq<u8>, ranges: Seq<ByteRange>)
    requires
        is_plan(data, ranges),
    ensures
        fold_scanned(pieces(data, ranges)) == scan_spec(data),
{
    lemma_plan_suffix(data, ranges, 0);
    assert(pieces(data, ranges).skip(0) == pieces(data, ranges));
    assert(data.skip(0) == data);
}

/// The number of partitions does not matter: wherever two numbers of
/// partitions can both be planned, their ranges combine to the same outcome,
/// that of scanning the data in one piece.
pub proof fn lemma_partition_count_irrelevant(data: Seq<u8>, p: int, q: int)
    requires
        p >= 1,
        q >= 1,
        data.len() <= u64::MAX,
        plan_defined(data, p),
        plan_defined(data, q),
    ensures
        fold_scanned(pieces(data, plan_spec(data, p))) == scan_spec(data),
        fold_scanned(pieces(data, plan_spec(data, p))) == fold_scanned(
            pieces(data, plan_spec(data, q)),
        ),
{
    lemma_plan_aligned(data, p);
    lemma_plan_aligned(data, q);
    lemma_partition_independent(data, plan_spec(data, p));
    lemma_partition_independent(data, plan_spec(data, q));
}

/// A range without rows changes nothing: its table is empty, and combining
/// with it leaves the other side as it was.
pub proof fn lemma_empty_range(other: Scanned)
    ensures
        scan_spec(Seq::<u8>::empty()) == Ok::<Map<Seq<u8>, Summary>, ScanError>(Map::empty()),
        combine(scan_spec(Seq::<u8>::empty()), other) == other,
        combine(other, scan_spec(Seq::<u8>::empty())) == other,
{
    lemma_combine_empty(other);
}

/// The ranges of a plan over data short enough can be folded within the
/// range of a station's counter and sum.
#[verifier::rlimit(40)]
pub proof fn lemma_plan_fits(data: Seq<u8>, ranges: Seq<ByteRange>)
    requires
        is_plan(data, ranges),
        data.len() <= u32::MAX,
    ensures
        fold_fits(pieces(data, ranges)),
{
    let ps = pieces(data, ranges);
    assert forall|i: int| 0 <= i < ps.len() implies #[trigger] fits_at(ps, i) by {
        lemma_plan_suffix(data, ranges, i);
        lemma_plan_suffix(data, ranges, i + 1);
        let from = start_of(data, ranges, i);
        let to = start_of(data, ranges, i + 1);
        assert(ranges[i].offset + ranges[i].length == to);
        lemma_scan_bounded(data.subrange(from, to));
        lemma_scan_bounded(data.skip(to));
        if ps[i] is Ok && fold_scanned(ps.skip(i + 1)) is Ok {
            lemma_bounded_can_merge(
                ps[i]->Ok_0,
                fold_scanned(ps.skip(i + 1))->Ok_0,
                to - from,
                data.len() - to,
            );
        }
    }
}

/// Scans the rows of one range of `data`.
pub fn scan_range(data: &[u8], range: &ByteRange) -> (scanned: ScanResult)
    requires
        in_bounds(data@, *range),
        data@.len() <= u32::MAX,
    ensures
        result_wf(scanned),
        scanned_of(scanned) == scan_spec(slice_of(data@, *range)),
{
    let from: usize = range.offset as usize;
    let to: usize = (range.offset + range.length) as usize;
    find_stats(slice_subrange(data, from, to))
}

/// Scans every range of `data`, the ranges spread over the worker threads.
///
/// This hands the ranges to rayon: `par_iter` on the slice of ranges, `map`
/// with a closure that calls `scan_range`, and `collect` into a vector. The
/// contract claims of rayon that the vector holds, at each index, what the
/// closure returned for the range at that index.
#[verifier::external_body]
pub(crate) fn scan_ranges(data: &[u8], ranges: &Vec<ByteRange>) -> (results: Vec<ScanResult>)
    requires
        data@.len() <= u32::MAX,
        forall|i: int| 0 <= i < ranges@.len() ==> in_bounds(data@, #[trigger] ranges@[i]),
    ensures
        results@.len() == ranges@.len(),
        forall|i: int| 0 <= i < results@.len() ==> result_wf(#[trigger] results@[i]),
        forall|i: int|
            0 <= i < results@.len() ==> scanned_of(#[trigger] results@[i]) == scan_spec(
                slice_of(data@, ranges@[i]),
            ),
{
    ranges.par_iter().map(|range| scan_range(data, range)).collect()
}

/// Combines two outcomes: the merge of two tables, or the error of the first
/// outcome that has one.
pub fn combine_tables(first: ScanResult, second: ScanResult) -> (both: ScanResult)
    requires
        result_wf(first),
        result_wf(second),
        can_combine(scanned_of(first), scanned_of(second)),
    ensures
        result_wf(both),
        scanned_of(both) == combine(scanned_of(first), scanned_of(second)),
{
    match first {
        Err(e) => Err(e),
        Ok(a) => match second {
            Err(e) => Err(e),
            Ok(b) => Ok(merge_stats(a, b)),
        },
    }
}

/// Reduces the outcomes of the ranges to one: the key-wise merge of all the
/// tables, or the error of the first range that has one.
#[verifier::rlimit(40)]
pub fn reduce_tables(results: Vec<ScanResult>) -> (reduced: ScanResult)
    requires
        results@.len() >= 1,
        forall|i: int| 0 <= i < results@.len() ==> result_wf(#[trigger] results@[i]),
        fold_fits(scanned_all(results@)),
    ensures
        result_wf(reduced),
        scanned_of(reduced) == fold_scanned(scanned_all(results@)),
{
    let ghost all = scanned_all(results@);
    let ghost given = results@;
    let mut rest = results;
    let mut acc: ScanResult = rest.pop().unwrap();
    proof {
        let n = given.len() - 1;
        lemma_fold_step(all, n);
        assert(all.skip(n + 1).len() == 0);
        lemma_combine_empty(scanned_of(acc));
    }
    while rest.len() > 0
        invariant
            all == scanned_all(given),
            rest@.len() < given.len(),
            rest@ == given.take(rest@.len() as int),
            forall|i: int| 0 <= i < given.len() ==> result_wf(#[trigger] given[i]),
            fold_fits(all),
            result_wf(acc),
            scanned_of(acc) == fold_scanned(all.skip(rest@.len() as int)),
        decreases rest@.len(),
    {
        let ghost n = rest@.len() - 1;
        let earlier = rest.pop().unwrap();
        proof {
            assert(earlier == given[n]);
            assert(rest@ =~= given.take(n));
            assert(all[n] == scanned_of(earlier));
            assert(fits_at(all, n));
            lemma_fold_step(all, n);
        }
        acc = combine_tables(earlier, acc);
    }
    proof {
        assert(all.skip(0) == all);
    }
    acc
}

/// The statistics of `data`, computed over `partitions` ranges. Whatever the
/// number of ranges, the outcome is that of scanning the data in one piece;
/// the run fails before any scan where the ranges cannot be planned.
#[verifier::rlimit(40)]
pub fn aggregate(data: &[u8], partitions: u64) -> (outcome: Result<StationTable, AggregateError>)
    requires
        1 <= partitions,
        data@.len() <= u32::MAX,
    ensures
        match outcome {
            Ok(table) => {
                &&& table.wf()
                &&& plan_defined(data@, partitions as int)
                &&& scan_spec(data@) == Ok::<_, ScanError>(table@)
            },
            Err(AggregateError::Plan(e)) => {
                &&& e == PlanError::RowTooLong
                &&& !plan_defined(data@, partitions as int)
            },
            Err(AggregateError::Scan(e)) => {
                &&& plan_defined(data@, partitions as int)
                &&& scan_spec(data@) == Err::<Map<Seq<u8>, Summary>, _>(e)
            },
        },
{
    let ranges = match get_ranges(data, partitions) {
        Ok(ranges) => ranges,
        Err(e) => {
            return Err(AggregateError::Plan(e));
        },
    };
    proof {
        assert forall|i: int| 0 <= i < ranges@.len() implies in_bounds(
            data@,
            #[trigger] ranges@[i],
        ) by {
            lemma_starts(data@, ranges@, i);
        }
    }
    let results = scan_ranges(data, &ranges);
    proof {
        assert(scanned_all(results@) =~= pieces(data@, ranges@));
        lemma_plan_fits(data@, ranges@);
        lemma_partition_independent(data@, ranges@);
    }
    match reduce_tables(results) {
        Ok(table) => Ok(table),
        Err(e) => Err(AggregateError::Scan(e)),
    }
}

} // verus!
