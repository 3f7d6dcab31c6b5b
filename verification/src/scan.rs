//! Scanning a stretch of rows into a table.

use vstd::prelude::*;
use vstd::slice::{slice_subrange, slice_to_vec};
use crate::number::{as_chars, field_accepted, field_value, parse_field, VALUE_LIMIT};
use crate::station::{join, lemma_join_bounded, single, Station, Summary};
use crate::table::{
    lemma_merge_maps_associative, lemma_merge_maps_empty, lemma_record_is_merge, map_bounded,
    merge_maps, record, StationTable,
};

verus! {

/// The byte between a row's key and its value.
pub const DELIMITER: u8 = 59;

/// The byte that ends a row.
pub const LINE_END: u8 = 10;

/// Why a stretch of rows cannot be scanned.
#[derive(Clone, Copy, Debug, PartialEq, Eq, Structural)]
pub enum ScanError {
    /// A row holds no delimiter.
    MissingDelimiter,
    /// A row's value field holds no digit, or a magnitude beyond the limit.
    BadValue,
}

/// The index of the first `b` in `s`, or the length of `s` where it has none.
pub open spec fn first_index(s: Seq<u8>, b: u8) -> int
    decreases s.len(),
{
    if s.len() == 0 {
        0
    } else if s[0] == b {
        0
    } else {
        1 + first_index(s.skip(1), b)
    }
}

/// Whether `n` is where the first `b` of `s` stands, or the length of `s`
/// where it has none.
pub open spec fn is_first_index(s: Seq<u8>, b: u8, n: int) -> bool {
    &&& 0 <= n <= s.len()
    &&& forall|j: int| 0 <= j < n ==> s[j] != b
    &&& n < s.len() ==> s[n] == b
}

/// `first_index` is the one index that `is_first_index` describes.
pub proof fn lemma_first_index(s: Seq<u8>, b: u8, n: int)
    ensures
        is_first_index(s, b, first_index(s, b)),
        is_first_index(s, b, n) ==> n == first_index(s, b),
    decreases s.len(),
{
    if s.len() == 0 {
    } else if s[0] == b {
    } else {
        let t = s.skip(1);
        lemma_first_index(t, b, n - 1);
        let m = first_index(t, b);
        assert forall|j: int| 0 <= j < m + 1 implies s[j] != b by {
            if j > 0 {
                assert(t[j - 1] == s[j]);
            }
        }
        if is_first_index(s, b, n) {
            assert forall|j: int| 0 <= j < n - 1 implies t[j] != b by {
                assert(t[j] == s[j + 1]);
            }
            assert(is_first_index(t, b, n - 1));
        }
    }
}

/// The table of a stretch of rows, or the reason why it has none.
pub type Scanned = Result<Map<Seq<u8>, Summary>, ScanError>;

/// What one row contributes: its key with the summary of its value.
pub open spec fn row_table(line: Seq<u8>) -> Scanned {
    let d = first_index(line, DELIMITER);
    if d == line.len() {
        Err(ScanError::MissingDelimiter)
    } else {
        let field = as_chars(line.skip(d + 1));
        if !field_accepted(field) {
            Err(ScanError::BadValue)
        } else {
            Ok(Map::empty().insert(line.take(d), single(field_value(field))))
        }
    }
}

/// What two stretches contribute together: the merge of their tables, or the
/// error of the first one that has one.
pub open spec fn combine(a: Scanned, b: Scanned) -> Scanned {
    match a {
        Err(e) => Err(e),
        Ok(x) => match b {
            Err(e) => Err(e),
            Ok(y) => Ok(merge_maps(x, y)),
        },
    }
}

/// What is left of `data` after its first row.
pub open spec fn after_first_row(data: Seq<u8>) -> Seq<u8> {
    let n = first_index(data, LINE_END);
    if 0 <= n < data.len() {
        data.skip(n + 1)
    } else {
        Seq::empty()
    }
}

/// The table of the rows of `data`. A row ends at a line end or with the
/// data; its key is what stands before its first delimiter.
pub open spec fn scan_spec(data: Seq<u8>) -> Scanned
    decreases data.len(),
{
    if data.len() == 0 {
        Ok(Map::empty())
    } else {
        let n = first_index(data, LINE_END);
        combine(row_table(data.take(n)), scan_spec(after_first_row(data)))
    }
}

/// The key of a row: what stands before its first delimiter.
pub open spec fn row_key(line: Seq<u8>) -> Seq<u8> {
    line.take(first_index(line, DELIMITER))
}

/// The keys of the rows of `data`.
pub open spec fn row_keys(data: Seq<u8>) -> Set<Seq<u8>>
    decreases data.len(),
{
    if data.len() == 0 {
        Set::empty()
    } else {
        row_keys(after_first_row(data)).insert(row_key(data.take(first_index(data, LINE_END))))
    }
}

/// The table of data that can be scanned holds exactly the keys of the rows.
pub proof fn lemma_scan_keys(data: Seq<u8>)
    requires
        scan_spec(data) is Ok,
    ensures
        scan_spec(data)->Ok_0.dom() == row_keys(data),
    decreases data.len(),
{
    if data.len() == 0 {
        assert(scan_spec(data)->Ok_0.dom() =~= row_keys(data));
    } else {
        lemma_scan_keys(after_first_row(data));
        assert(scan_spec(data)->Ok_0.dom() =~= row_keys(data));
    }
}

/// Whether every summary of a scanned table is bounded by `rows` observations
/// within the value limit.
pub open spec fn scanned_bounded(s: Scanned, rows: int) -> bool {
    s is Ok ==> map_bounded(s->Ok_0, rows, VALUE_LIMIT as int)
}

/// Combining is associative.
pub proof fn lemma_combine_associative(a: Scanned, b: Scanned, c: Scanned)
    ensures
        combine(combine(a, b), c) == combine(a, combine(b, c)),
{
    if a is Ok && b is Ok && c is Ok {
        lemma_merge_maps_associative(a->Ok_0, b->Ok_0, c->Ok_0);
    }
}

/// The empty table is neutral on either side.
pub proof fn lemma_combine_empty(a: Scanned)
    ensures
        combine(Ok(Map::empty()), a) == a,
        combine(a, Ok(Map::empty())) == a,
{
    if a is Ok {
        lemma_merge_maps_empty(a->Ok_0);
    }
}

/// Rows are scanned independently: where `a` is empty or ends with a line
/// end, the table of `a` followed by `b` is the merge of the table of `a` and
/// the table of `b`.
#[verifier::rlimit(40)]
pub proof fn lemma_scan_split(a: Seq<u8>, b: Seq<u8>)
    requires
        a.len() == 0 || a.last() == LINE_END,
    ensures
        scan_spec(a + b) == combine(scan_spec(a), scan_spec(b)),
    decreases a.len(),
{
    if a.len() == 0 {
        assert(a + b == b);
        lemma_combine_empty(scan_spec(b));
    } else {
        let n = first_index(a, LINE_END);
        lemma_first_index(a, LINE_END, n);
        assert(n < a.len());
        let ab = a + b;
        assert(is_first_index(ab, LINE_END, n));
        lemma_first_index(ab, LINE_END, n);
        assert(ab.take(n) == a.take(n));
        let rest = a.skip(n + 1);
        assert(ab.skip(n + 1) == rest + b);
        if rest.len() > 0 {
            assert(rest.last() == a.last());
        }
        lemma_scan_split(rest, b);
        lemma_combine_associative(row_table(a.take(n)), scan_spec(rest), scan_spec(b));
    }
}

/// Recording one more value within the limit keeps a table bounded, with one
/// more row.
#[verifier::rlimit(40)]
pub proof fn lemma_record_bounded(
    m: Map<Seq<u8>, Summary>,
    k: Seq<u8>,
    value: int,
    rows: int,
    next: int,
)
    requires
        map_bounded(m, rows, VALUE_LIMIT as int),
        -VALUE_LIMIT <= value <= VALUE_LIMIT,
        0 <= rows,
        rows + 1 <= next,
    ensures
        map_bounded(record(m, k, single(value)), next, VALUE_LIMIT as int),
{
    let after = record(m, k, single(value));
    assert forall|q: Seq<u8>| #[trigger] after.contains_key(q) implies after[q].bounded(
        next,
        VALUE_LIMIT as int,
    ) by {
        assert(single(value).bounded(1, VALUE_LIMIT as int));
        if m.contains_key(q) {
            assert(m[q].bounded(rows, VALUE_LIMIT as int));
            if q == k {
                lemma_join_bounded(m[q], single(value), rows, 1, VALUE_LIMIT as int);
                assert(after[q] == join(m[q], single(value)));
                assert(after[q].bounded(rows + 1, VALUE_LIMIT as int));
            } else {
                assert(after[q] == m[q]);
            }
        } else {
            assert(q == k);
            assert(after[q] == single(value));
        }
    }
}

/// One step of a scan: the table so far, then the first row of what is left,
/// then the rest.
pub proof fn lemma_scan_step(
    whole: Scanned,
    before: Map<Seq<u8>, Summary>,
    tail: Seq<u8>,
    key: Seq<u8>,
    value: int,
)
    requires
        tail.len() > 0,
        whole == combine(Ok(before), scan_spec(tail)),
        row_table(tail.take(first_index(tail, LINE_END))) == Ok::<_, ScanError>(
            Map::<Seq<u8>, Summary>::empty().insert(key, single(value)),
        ),
    ensures
        whole == combine(Ok(record(before, key, single(value))), scan_spec(after_first_row(tail))),
{
    let row = Map::<Seq<u8>, Summary>::empty().insert(key, single(value));
    lemma_record_is_merge(before, key, single(value));
    lemma_combine_associative(Ok(before), Ok(row), scan_spec(after_first_row(tail)));
}

/// The index of the first `b` in `data` at or after `from`, or the length of
/// `data` where none follows.
pub fn find_byte(data: &[u8], from: usize, b: u8) -> (at: usize)
    requires
        from <= data@.len(),
    ensures
        from <= at <= data@.len(),
        at - from == first_index(data@.skip(from as int), b),
        forall|j: int| from <= j < at ==> data@[j] != b,
        at < data@.len() ==> data@[at as int] == b,
{
    let mut i: usize = from;
    while i < data.len() && data[i] != b
        invariant
            from <= i <= data@.len(),
            forall|j: int| from <= j < i ==> data@[j] != b,
        decreases data@.len() - i,
    {
        i = i + 1;
    }
    proof {
        let tail = data@.skip(from as int);
        assert(is_first_index(tail, b, i - from));
        lemma_first_index(tail, b, i - from);
    }
    i
}

/// Scans the rows of `data` into a table: each row is split at its first
/// delimiter, its value field is read as a fixed-point number, and the value
/// is folded into the station of its key. The first row that cannot be read
/// ends the scan with its error.
#[verifier::rlimit(40)]
pub fn find_stats(data: &[u8]) -> (scanned: Result<StationTable, ScanError>)
    requires
        data@.len() <= u32::MAX,
    ensures
        match scanned {
            Ok(table) => table.wf() && scan_spec(data@) == Ok::<_, ScanError>(table@),
            Err(e) => scan_spec(data@) == Err::<Map<Seq<u8>, Summary>, _>(e),
        },
        scanned_bounded(scan_spec(data@), data@.len() as int),
{
    let mut table = StationTable::new();
    let mut pos: usize = 0;
    proof {
        assert(data@.skip(0) == data@);
        lemma_combine_empty(scan_spec(data@));
    }
    while pos < data.len()
        invariant
            data@.len() <= u32::MAX,
            0 <= pos <= data@.len(),
            table.wf(),
            scan_spec(data@) == combine(Ok(table@), scan_spec(data@.skip(pos as int))),
            map_bounded(table@, pos as int, VALUE_LIMIT as int),
        decreases data@.len() - pos,
    {
        let ghost tail = data@.skip(pos as int);
        let ghost before = table@;
        let end: usize = find_byte(data, pos, LINE_END);
        let line = slice_subrange(data, pos, end);
        let next: usize = if end < data.len() { end + 1 } else { end };
        proof {
            assert(line@ == tail.take(end - pos));
            assert(after_first_row(tail) =~= data@.skip(next as int));
        }
        let at: usize = find_byte(line, 0, DELIMITER);
        proof {
            assert(line@.skip(0) == line@);
        }
        if at == line.len() {
            return Err(ScanError::MissingDelimiter);
        }
        let key = slice_to_vec(slice_subrange(line, 0, at));
        let field = slice_subrange(line, at + 1, line.len());
        proof {
            assert(key@ == line@.take(at as int));
            assert(field@ == line@.skip(at + 1));
        }
        let value: i64 = match parse_field(field) {
            Some(v) => v,
            None => {
                return Err(ScanError::BadValue);
            },
        };
        let station = Station::new(value);
        proof {
            if before.contains_key(key@) {
                assert(before[key@].bounded(pos as int, VALUE_LIMIT as int));
            }
        }
        table.absorb(key, station);
        proof {
            lemma_scan_step(scan_spec(data@), before, tail, key@, value as int);
            lemma_record_bounded(before, key@, value as int, pos as int, next as int);
        }
        pos = next;
    }
    proof {
        assert(data@.skip(pos as int).len() == 0);
        lemma_combine_empty(Ok(table@));
    }
    Ok(table)
}

} // verus!
