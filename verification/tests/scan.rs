use station_stats::scan::{find_byte, find_stats, ScanError};
use station_stats::table::StationTable;

fn listing(t: &StationTable) -> Vec<(Vec<u8>, u32, i64, i64, i64)> {
    let mut out = Vec::new();
    for e in t.entries.iter() {
        out.push((e.key.clone(), e.station.cnt, e.station.sum, e.station.min, e.station.max));
    }
    out
}

#[test]
fn find_byte_gives_the_first_place() {
    assert_eq!(find_byte(b"ab;cd;", 0, b';'), 2);
    assert_eq!(find_byte(b"ab;cd;", 2, b';'), 2);
    assert_eq!(find_byte(b"ab;cd;", 3, b';'), 5);
    assert_eq!(find_byte(b"ab;cd;", 6, b';'), 6);
    assert_eq!(find_byte(b"abcd", 0, b';'), 4);
    assert_eq!(find_byte(b"", 0, b';'), 0);
}

#[test]
fn scan_folds_rows_by_key() {
    let t = find_stats(b"A;1.0\nB;2.0\nA;3.0\n").unwrap();
    assert_eq!(
        listing(&t),
        vec![(b"A".to_vec(), 2, 40, 10, 30), (b"B".to_vec(), 1, 20, 20, 20)]
    );
}

#[test]
fn scan_of_nothing_is_an_empty_table() {
    let t = find_stats(b"").unwrap();
    assert_eq!(t.len(), 0);
}

#[test]
fn scan_reads_a_last_row_without_line_end() {
    let t = find_stats(b"A;1.0\nA;-2.5").unwrap();
    assert_eq!(listing(&t), vec![(b"A".to_vec(), 2, -15, -25, 10)]);
}

#[test]
fn scan_lists_keys_in_ascending_order_without_repeats() {
    let t = find_stats(b"b;1\na;2\nab;3\nb;4\n;5\nB;6\n").unwrap();
    let keys: Vec<Vec<u8>> = t.entries.iter().map(|e| e.key.clone()).collect();
    assert_eq!(
        keys,
        vec![b"".to_vec(), b"B".to_vec(), b"a".to_vec(), b"ab".to_vec(), b"b".to_vec()]
    );
    assert_eq!(t.get(b"b").unwrap().cnt, 2);
}

#[test]
fn scan_splits_at_the_first_delimiter() {
    let t = find_stats(b"k;1;2\n").unwrap();
    assert_eq!(listing(&t), vec![(b"k".to_vec(), 1, 12, 12, 12)]);
}

#[test]
fn scan_passes_over_a_carriage_return() {
    let t = find_stats(b"k;1.5\r\nk;2.5\r\n").unwrap();
    assert_eq!(listing(&t), vec![(b"k".to_vec(), 2, 40, 15, 25)]);
}

#[test]
fn scan_stops_at_a_row_without_delimiter() {
    assert_eq!(find_stats(b"A;1.0\nB2.0\n").unwrap_err(), ScanError::MissingDelimiter);
    assert_eq!(find_stats(b"\n").unwrap_err(), ScanError::MissingDelimiter);
    assert_eq!(find_stats(b"A;1.0\n\nB;2.0\n").unwrap_err(), ScanError::MissingDelimiter);
}

#[test]
fn scan_stops_at_a_value_without_digits() {
    assert_eq!(find_stats(b"A;\n").unwrap_err(), ScanError::BadValue);
    assert_eq!(find_stats(b"A;-\n").unwrap_err(), ScanError::BadValue);
    assert_eq!(find_stats(b"A;1.0\nB;x.y\n").unwrap_err(), ScanError::BadValue);
}

#[test]
fn scan_stops_at_a_value_beyond_the_limit() {
    assert_eq!(find_stats(b"A;100000000.0\n").unwrap_err(), ScanError::BadValue);
    assert!(find_stats(b"A;99999999.9\n").is_ok());
}

#[test]
fn scan_reports_the_first_bad_row() {
    assert_eq!(find_stats(b"A;x\nB\n").unwrap_err(), ScanError::BadValue);
    assert_eq!(find_stats(b"B\nA;x\n").unwrap_err(), ScanError::MissingDelimiter);
}
