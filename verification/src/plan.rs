//! Planning the ranges: contiguous stretches of the input that begin and end
//! between rows.

use vstd::prelude::*;
use vstd::arithmetic::div_mod::lemma_div_is_ordered;
use vstd::slice::slice_subrange;
use crate::scan::{find_byte, first_index, lemma_first_index, LINE_END};

verus! {

/// How far past a hint a line end is looked for. No row may be longer.
pub const LOOKAHEAD: usize = 256;

/// The half-open stretch `[offset, offset + length)` of the input.
#[derive(Clone, Copy, Debug, PartialEq, Eq, Structural)]
pub struct ByteRange {
    pub offset: u64,
    pub length: u64,
}

/// Why the input cannot be planned.
#[derive(Clone, Copy, Debug, PartialEq, Eq, Structural)]
pub enum PlanError {
    /// No line end stands within the lookahead of a hint: a row is longer
    /// than the planner allows for.
    RowTooLong,
}

/// Where the boundary `k` of `partitions` would stand if rows did not matter.
pub open spec fn hint(len: int, partitions: int, k: int) -> int {
    k * len / partitions
}

/// The bytes that are searched for a line end from the hint `h` on.
pub open spec fn window_of(data: Seq<u8>, h: int) -> Seq<u8> {
    data.subrange(
        h,
        if h + LOOKAHEAD <= data.len() {
            h + LOOKAHEAD
        } else {
            data.len() as int
        },
    )
}

/// The boundary for a hint whose window is `window`: one past the window's
/// first line end, if it has one.
pub open spec fn snap_spec(window: Seq<u8>, h: int) -> Option<int> {
    let p = first_index(window, LINE_END);
    if p < window.len() {
        Some(h + p + 1)
    } else {
        None
    }
}

/// The boundary `k` of `partitions` over `data`: the two outer ones are the
/// ends of the data, an inner one is its hint moved past the next line end.
pub open spec fn boundary(data: Seq<u8>, partitions: int, k: int) -> Option<int> {
    if k <= 0 {
        Some(0)
    } else if k >= partitions {
        Some(data.len() as int)
    } else {
        let h = hint(data.len() as int, partitions, k);
        snap_spec(window_of(data, h), h)
    }
}

/// Whether every inner boundary finds its line end.
pub open spec fn plan_defined(data: Seq<u8>, partitions: int) -> bool {
    forall|k: int| 0 < k < partitions ==> (#[trigger] boundary(data, partitions, k)) is Some
}

/// The range between the boundaries `i` and `i + 1`.
pub open spec fn range_spec(data: Seq<u8>, partitions: int, i: int) -> ByteRange {
    let from = boundary(data, partitions, i)->0;
    let to = boundary(data, partitions, i + 1)->0;
    ByteRange { offset: from as u64, length: (to - from) as u64 }
}

/// The ranges of `data` for `partitions`.
pub open spec fn plan_spec(data: Seq<u8>, partitions: int) -> Seq<ByteRange> {
    Seq::new(partitions as nat, |i: int| range_spec(data, partitions, i))
}

/// Where the range `i` of `ranges` begins; past the last range, where the
/// data end.
pub open spec fn start_of(data: Seq<u8>, ranges: Seq<ByteRange>, i: int) -> int {
    if i < ranges.len() {
        ranges[i].offset as int
    } else {
        data.len() as int
    }
}

/// Whether a row begins at `at`, or would: at the very beginning, or right
/// after a line end.
pub open spec fn between_rows(data: Seq<u8>, at: int) -> bool {
    at == 0 || (1 <= at <= data.len() && data[at - 1] == LINE_END)
}

/// Whether `ranges` cut `data` between rows: the first begins at 0, each ends
/// where the next begins, the last ends with the data, and every range
/// begins where a row does.
pub open spec fn is_plan(data: Seq<u8>, ranges: Seq<ByteRange>) -> bool {
    &&& ranges.len() >= 1
    &&& ranges[0].offset == 0
    &&& forall|i: int|
        0 <= i < ranges.len() ==> (#[trigger] ranges[i]).offset + ranges[i].length == start_of(
            data,
            ranges,
            i + 1,
        )
    &&& forall|i: int| 0 < i < ranges.len() ==> between_rows(data, (#[trigger] ranges[i]).offset as int)
}

/// The bytes of `data` that `range` covers.
pub open spec fn slice_of(data: Seq<u8>, range: ByteRange) -> Seq<u8> {
    data.subrange(range.offset as int, range.offset + range.length)
}

/// Whether `range` lies within `data`.
pub open spec fn in_bounds(data: Seq<u8>, range: ByteRange) -> bool {
    range.offset + range.length <= data.len()
}

/// The bytes of the first `n` ranges, laid end to end.
pub open spec fn joined(data: Seq<u8>, ranges: Seq<ByteRange>, n: int) -> Seq<u8>
    decreases n,
{
    if n <= 0 {
        Seq::empty()
    } else {
        joined(data, ranges, n - 1) + slice_of(data, ranges[n - 1])
    }
}

/// In a plan every range begins within the data, and none before the one
/// that precedes it.
pub proof fn lemma_starts(data: Seq<u8>, ranges: Seq<ByteRange>, i: int)
    requires
        is_plan(data, ranges),
        0 <= i <= ranges.len(),
    ensures
        0 <= start_of(data, ranges, i) <= data.len(),
        i < ranges.len() ==> start_of(data, ranges, i) <= start_of(data, ranges, i + 1),
        i < ranges.len() ==> in_bounds(data, ranges[i]),
    decreases ranges.len() - i,
{
    if i < ranges.len() {
        lemma_starts(data, ranges, i + 1);
        assert(ranges[i].offset + ranges[i].length == start_of(data, ranges, i + 1));
    }
}

/// The ranges of a plan lose no byte and repeat none: laid end to end, the
/// first `n` of them are the data up to where the next begins.
pub proof fn lemma_joined(data: Seq<u8>, ranges: Seq<ByteRange>, n: int)
    requires
        is_plan(data, ranges),
        0 <= n <= ranges.len(),
    ensures
        joined(data, ranges, n) == data.take(start_of(data, ranges, n)),
    decreases n,
{
    lemma_starts(data, ranges, n);
    if n == 0 {
        assert(data.take(0) == Seq::<u8>::empty());
    } else {
        lemma_joined(data, ranges, n - 1);
        lemma_starts(data, ranges, n - 1);
        let from = start_of(data, ranges, n - 1);
        let to = start_of(data, ranges, n);
        assert(ranges[n - 1].offset + ranges[n - 1].length == to);
        assert(data.take(from) + data.subrange(from, to) == data.take(to));
    }
}

/// The ranges of a plan, laid end to end, are the data.
pub proof fn lemma_plan_covers(data: Seq<u8>, ranges: Seq<ByteRange>)
    requires
        is_plan(data, ranges),
    ensures
        joined(data, ranges, ranges.len() as int) == data,
{
    lemma_joined(data, ranges, ranges.len() as int);
    assert(data.take(data.len() as int) == data);
}

/// One partition is always planned, and is the whole of the data.
pub proof fn lemma_single_partition(data: Seq<u8>)
    requires
        data.len() <= u64::MAX,
    ensures
        plan_defined(data, 1),
        plan_spec(data, 1) == seq![ByteRange { offset: 0, length: data.len() as u64 }],
{
    assert(plan_spec(data, 1) =~= seq![ByteRange { offset: 0, length: data.len() as u64 }]);
}

/// The hint lies within the data and does not fall as `k` grows.
pub proof fn lemma_hint(len: int, partitions: int, k: int)
    requires
        0 <= len,
        0 <= k < partitions,
    ensures
        0 <= hint(len, partitions, k) <= hint(len, partitions, k + 1) <= len,
{
    assert(0 <= k * len <= (k + 1) * len <= partitions * len) by (nonlinear_arith)
        requires
            0 <= len,
            0 <= k < partitions,
    ;
    lemma_div_is_ordered(0, k * len, partitions);
    lemma_div_is_ordered(k * len, (k + 1) * len, partitions);
    lemma_div_is_ordered((k + 1) * len, partitions * len, partitions);
    assert(partitions * len / partitions == len) by (nonlinear_arith)
        requires
            partitions > 0,
    ;
    assert(0int / partitions == 0) by (nonlinear_arith)
        requires
            partitions > 0,
    ;
}

/// A boundary found from the hint `h` lies past `h` and right after the first
/// line end from `h` on.
pub proof fn lemma_snap(data: Seq<u8>, h: int)
    requires
        0 <= h <= data.len(),
        snap_spec(window_of(data, h), h) is Some,
    ensures
        ({
            let b = snap_spec(window_of(data, h), h)->0;
            &&& h < b <= data.len()
            &&& data[b - 1] == LINE_END
            &&& forall|j: int| h <= j < b - 1 ==> data[j] != LINE_END
        }),
{
    let w = window_of(data, h);
    let p = first_index(w, LINE_END);
    lemma_first_index(w, LINE_END, p);
    assert(w[p] == data[h + p]);
    assert forall|j: int| h <= j < h + p implies data[j] != LINE_END by {
        assert(w[j - h] == data[j]);
    }
}

/// Boundaries found from two hints stand in the order of the hints.
pub proof fn lemma_snap_ordered(data: Seq<u8>, h1: int, h2: int)
    requires
        0 <= h1 <= h2 <= data.len(),
        snap_spec(window_of(data, h1), h1) is Some,
        snap_spec(window_of(data, h2), h2) is Some,
    ensures
        snap_spec(window_of(data, h1), h1)->0 <= snap_spec(window_of(data, h2), h2)->0,
{
    lemma_snap(data, h1);
    lemma_snap(data, h2);
}

/// Where the plan is defined, its boundaries lie within the data, do not
/// fall, and every inner one stands right after a line end.
#[verifier::rlimit(40)]
pub proof fn lemma_boundaries(data: Seq<u8>, partitions: int, k: int)
    requires
        partitions >= 1,
        plan_defined(data, partitions),
        0 <= k < partitions,
    ensures
        boundary(data, partitions, k) is Some,
        boundary(data, partitions, k + 1) is Some,
        0 <= boundary(data, partitions, k)->0 <= boundary(data, partitions, k + 1)->0
            <= data.len(),
        0 < k ==> boundary(data, partitions, k)->0 >= 1 && data[boundary(data, partitions, k)->0
            - 1] == LINE_END,
{
    let len = data.len() as int;
    lemma_hint(len, partitions, k);
    if 0 < k {
        assert(boundary(data, partitions, k) is Some);
        lemma_snap(data, hint(len, partitions, k));
    }
    if k + 1 < partitions {
        assert(boundary(data, partitions, k + 1) is Some);
        lemma_snap(data, hint(len, partitions, k + 1));
        if 0 < k {
            lemma_snap_ordered(data, hint(len, partitions, k), hint(len, partitions, k + 1));
        }
    }
}

/// Where the plan is defined, its ranges cut the data between rows: laid end
/// to end they give the data back, and none begins inside a row.
pub proof fn lemma_plan_aligned(data: Seq<u8>, partitions: int)
    requires
        partitions >= 1,
        data.len() <= u64::MAX,
        plan_defined(data, partitions),
    ensures
        is_plan(data, plan_spec(data, partitions)),
        plan_spec(data, partitions).len() == partitions,
{
    let ranges = plan_spec(data, partitions);
    assert forall|i: int| 0 <= i < ranges.len() implies (#[trigger] ranges[i]).offset
        + ranges[i].length == start_of(data, ranges, i + 1) by {
        lemma_boundaries(data, partitions, i);
        if i + 1 < partitions {
            lemma_boundaries(data, partitions, i + 1);
        }
    }
    assert forall|i: int| 0 < i < ranges.len() implies between_rows(
        data,
        (#[trigger] ranges[i]).offset as int,
    ) by {
        lemma_boundaries(data, partitions, i);
    }
}

/// The hint of the boundary `k`: `k * len / partitions`, rounded down.
pub fn boundary_hint(len: u64, partitions: u64, k: u64) -> (h: u64)
    requires
        partitions >= 1,
        k <= partitions,
    ensures
        h == hint(len as int, partitions as int, k as int),
        h <= len,
{
    proof {
        assert(0 <= k * len <= partitions * len) by (nonlinear_arith)
            requires
                0 <= len,
                0 <= k <= partitions,
        ;
        assert(partitions * len <= 0xffff_ffff_ffff_ffff * 0xffff_ffff_ffff_ffff)
            by (nonlinear_arith)
            requires
                0 <= len <= 0xffff_ffff_ffff_ffff,
                0 <= partitions <= 0xffff_ffff_ffff_ffff,
        ;
        lemma_div_is_ordered(k * len, partitions * len, partitions as int);
        assert(partitions * len / (partitions as int) == len) by (nonlinear_arith)
            requires
                partitions > 0,
        ;
        assert(0 <= (k * len) / (partitions as int)) by (nonlinear_arith)
            requires
                0 <= k * len,
                partitions > 0,
        ;
    }
    let wide: u128 = (k as u128) * (len as u128) / (partitions as u128);
    wide as u64
}

/// Moves a hint past the first line end of its window.
pub fn snap_boundary(h: u64, window: &[u8]) -> (snapped: Result<u64, PlanError>)
    requires
        h + window@.len() <= u64::MAX,
    ensures
        match snapped {
            Ok(b) => snap_spec(window@, h as int) == Some(b as int),
            Err(e) => e == PlanError::RowTooLong && snap_spec(window@, h as int) is None,
        },
{
    let at: usize = find_byte(window, 0, LINE_END);
    proof {
        assert(window@.skip(0) == window@);
    }
    if at < window.len() {
        Ok(h + at as u64 + 1)
    } else {
        Err(PlanError::RowTooLong)
    }
}

/// The ranges between consecutive positions.
pub fn ranges_from_boundaries(positions: &Vec<u64>) -> (ranges: Vec<ByteRange>)
    requires
        forall|i: int|
            0 <= i < positions@.len() - 1 ==> (#[trigger] positions@[i]) <= positions@[i + 1],
    ensures
        ranges@.len() == (if positions@.len() == 0 {
            0
        } else {
            positions@.len() - 1
        }),
        forall|i: int|
            0 <= i < ranges@.len() ==> (#[trigger] ranges@[i]).offset == positions@[i]
                && ranges@[i].offset + ranges@[i].length == positions@[i + 1],
{
    let mut ranges: Vec<ByteRange> = Vec::new();
    let mut i: usize = 1;
    while i < positions.len()
        invariant
            1 <= i,
            positions@.len() >= 1 ==> i <= positions@.len(),
            positions@.len() == 0 ==> i == 1,
            ranges@.len() == i - 1,
            forall|j: int|
                0 <= j < positions@.len() - 1 ==> (#[trigger] positions@[j]) <= positions@[j + 1],
            forall|j: int|
                0 <= j < ranges@.len() ==> (#[trigger] ranges@[j]).offset == positions@[j]
                    && ranges@[j].offset + ranges@[j].length == positions@[j + 1],
        decreases positions@.len() - i,
    {
        let from: u64 = positions[i - 1];
        let to: u64 = positions[i];
        ranges.push(ByteRange { offset: from, length: to - from });
        i = i + 1;
    }
    ranges
}

/// Whether `positions` are the first boundaries of the plan, in their order.
pub open spec fn marks(data: Seq<u8>, partitions: int, positions: Seq<u64>) -> bool {
    forall|j: int|
        0 <= j < positions.len() ==> #[trigger] boundary(data, partitions, j) == Some(
            positions[j] as int,
        )
}

/// Positions that are all the boundaries of a plan do not fall, and the
/// ranges between them are the plan's.
#[verifier::rlimit(40)]
pub proof fn lemma_marks(
    data: Seq<u8>,
    partitions: int,
    positions: Seq<u64>,
    ranges: Seq<ByteRange>,
)
    requires
        partitions >= 1,
        data.len() <= u64::MAX,
        positions.len() == partitions + 1,
        marks(data, partitions, positions),
    ensures
        plan_defined(data, partitions),
        forall|i: int|
            0 <= i < positions.len() - 1 ==> (#[trigger] positions[i]) <= positions[i + 1],
        ranges.len() == partitions && (forall|i: int|
            0 <= i < ranges.len() ==> (#[trigger] ranges[i]).offset == positions[i]
                && ranges[i].offset + ranges[i].length == positions[i + 1]) ==> ranges
            == plan_spec(data, partitions) && is_plan(data, ranges),
{
    assert forall|k: int| 0 < k < partitions implies (#[trigger] boundary(
        data,
        partitions,
        k,
    )) is Some by {
        assert(boundary(data, partitions, k) == Some(positions[k] as int));
    }
    assert forall|i: int| 0 <= i < positions.len() - 1 implies (#[trigger] positions[i])
        <= positions[i + 1] by {
        lemma_boundaries(data, partitions, i);
        assert(boundary(data, partitions, i) == Some(positions[i] as int));
        assert(boundary(data, partitions, i + 1) == Some(positions[i + 1] as int));
    }
    lemma_plan_aligned(data, partitions);
    if ranges.len() == partitions && (forall|i: int|
        0 <= i < ranges.len() ==> (#[trigger] ranges[i]).offset == positions[i]
            && ranges[i].offset + ranges[i].length == positions[i + 1]) {
        assert forall|i: int| 0 <= i < partitions implies ranges[i] == range_spec(
            data,
            partitions,
            i,
        ) by {
            assert(boundary(data, partitions, i) == Some(positions[i] as int));
            assert(boundary(data, partitions, i + 1) == Some(positions[i + 1] as int));
            assert(ranges[i].offset == positions[i]);
        }
        assert(ranges =~= plan_spec(data, partitions));
    }
}

/// Plans `partitions` ranges over `data`. It fails where an inner boundary
/// finds no line end within the lookahead of its hint, and only there.
#[verifier::rlimit(40)]
pub fn get_ranges(data: &[u8], partitions: u64) -> (planned: Result<Vec<ByteRange>, PlanError>)
    requires
        1 <= partitions,
    ensures
        match planned {
            Ok(ranges) => {
                &&& plan_defined(data@, partitions as int)
                &&& ranges@ == plan_spec(data@, partitions as int)
                &&& is_plan(data@, ranges@)
            },
            Err(e) => e == PlanError::RowTooLong && !plan_defined(data@, partitions as int),
        },
{
    let len: u64 = data.len() as u64;
    let ghost parts = partitions as int;
    let mut positions: Vec<u64> = Vec::new();
    positions.push(0);
    let mut k: u64 = 1;
    while k < partitions
        invariant
            1 <= k <= partitions,
            parts == partitions,
            len == data@.len(),
            data@.len() <= usize::MAX,
            positions@.len() == k,
            marks(data@, parts, positions@),
        decreases partitions - k,
    {
        let h: u64 = boundary_hint(len, partitions, k);
        let stop: u64 = if len - h > LOOKAHEAD as u64 {
            h + LOOKAHEAD as u64
        } else {
            len
        };
        let window = slice_subrange(data, h as usize, stop as usize);
        proof {
            assert(window@ == window_of(data@, h as int));
        }
        let ghost before = positions@;
        match snap_boundary(h, window) {
            Ok(b) => {
                positions.push(b);
                proof {
                    assert forall|j: int| 0 <= j < positions@.len() implies #[trigger] boundary(
                        data@,
                        parts,
                        j,
                    ) == Some(positions@[j] as int) by {
                        if j < k {
                            assert(positions@[j] == before[j]);
                        }
                    }
                }
            },
            Err(e) => {
                proof {
                    assert(boundary(data@, parts, k as int) is None);
                }
                return Err(e);
            },
        }
        k = k + 1;
    }
    let ghost before = positions@;
    positions.push(len);
    proof {
        assert forall|j: int| 0 <= j < positions@.len() implies #[trigger] boundary(
            data@,
            parts,
            j,
        ) == Some(positions@[j] as int) by {
            if j < k {
                assert(positions@[j] == before[j]);
            }
        }
        lemma_marks(data@, parts, positions@, Seq::empty());
    }
    let ranges = ranges_from_boundaries(&positions);
    proof {
        lemma_marks(data@, parts, positions@, ranges@);
    }
    Ok(ranges)
}

} // verus!
