use station_stats::pipeline::{aggregate, combine_tables, reduce_tables, scan_range, AggregateError};
use station_stats::plan::{ByteRange, PlanError};
use station_stats::scan::{find_stats, ScanError};
use station_stats::table::StationTable;

fn listing(t: &StationTable) -> Vec<(Vec<u8>, u32, i64, i64, i64)> {
    let mut out = Vec::new();
    for e in t.entries.iter() {
        out.push((e.key.clone(), e.station.cnt, e.station.sum, e.station.min, e.station.max));
    }
    out
}

fn expected_abc() -> Vec<(Vec<u8>, u32, i64, i64, i64)> {
    vec![(b"A".to_vec(), 2, 40, 10, 30), (b"B".to_vec(), 1, 20, 20, 20)]
}

#[test]
fn one_range_and_two_ranges_agree() {
    let data = b"A;1.0\nB;2.0\nA;3.0\n";
    let whole = scan_range(data, &ByteRange { offset: 0, length: 18 }).unwrap();
    assert_eq!(listing(&whole), expected_abc());
    for cut in [0u64, 6, 12, 18] {
        let first = scan_range(data, &ByteRange { offset: 0, length: cut });
        let second = scan_range(data, &ByteRange { offset: cut, length: 18 - cut });
        let both = combine_tables(first, second).unwrap();
        assert_eq!(listing(&both), expected_abc());
        let first = scan_range(data, &ByteRange { offset: 0, length: cut });
        let second = scan_range(data, &ByteRange { offset: cut, length: 18 - cut });
        let swapped = combine_tables(second, first).unwrap();
        assert_eq!(listing(&swapped), expected_abc());
    }
}

#[test]
fn aggregate_does_not_depend_on_the_partition_count() {
    let data = b"A;1.0\nB;2.0\nA;3.0\n";
    for partitions in 1..=6u64 {
        let t = aggregate(data, partitions).unwrap();
        assert_eq!(listing(&t), expected_abc());
    }
}

#[test]
fn aggregate_agrees_with_a_single_scan() {
    let mut data: Vec<u8> = Vec::new();
    for i in 0..500u32 {
        let sign = if i % 3 == 0 { "-" } else { "" };
        data.extend_from_slice(
            format!("city{};{}{}.{}\n", (i * 7) % 23, sign, i % 100, i % 10).as_bytes(),
        );
    }
    let single = listing(&find_stats(&data).unwrap());
    assert_eq!(single.len(), 23);
    for partitions in [1u64, 2, 3, 8, 17, 64, 500, 501] {
        assert_eq!(listing(&aggregate(&data, partitions).unwrap()), single);
    }
}

#[test]
fn empty_ranges_contribute_nothing() {
    let data = b"A;1.0\n";
    let t = aggregate(data, 5).unwrap();
    assert_eq!(listing(&t), vec![(b"A".to_vec(), 1, 10, 10, 10)]);
    let empty = scan_range(data, &ByteRange { offset: 6, length: 0 }).unwrap();
    assert_eq!(empty.len(), 0);
}

#[test]
fn aggregate_reports_a_planning_failure() {
    let data = vec![b'x'; 1000];
    assert_eq!(aggregate(&data, 2).unwrap_err(), AggregateError::Plan(PlanError::RowTooLong));
    assert_eq!(
        aggregate(&data, 1).unwrap_err(),
        AggregateError::Scan(ScanError::MissingDelimiter)
    );
}

#[test]
fn aggregate_reports_the_first_bad_row() {
    let data = b"A;1.0\nB;\nC\nD;4.0\n";
    for partitions in 1..=4u64 {
        assert_eq!(
            aggregate(data, partitions).unwrap_err(),
            AggregateError::Scan(ScanError::BadValue)
        );
    }
    let data = b"A;1.0\nC\nB;\nD;4.0\n";
    for partitions in 1..=4u64 {
        assert_eq!(
            aggregate(data, partitions).unwrap_err(),
            AggregateError::Scan(ScanError::MissingDelimiter)
        );
    }
}

#[test]
fn reduce_merges_in_every_grouping() {
    let parts: [&[u8]; 3] = [b"A;1.0\nB;2.0\n", b"", b"A;3.0\nC;-0.5\n"];
    let expected = vec![
        (b"A".to_vec(), 2, 40, 10, 30),
        (b"B".to_vec(), 1, 20, 20, 20),
        (b"C".to_vec(), 1, -5, -5, -5),
    ];
    let all: Vec<_> = parts.iter().map(|p| find_stats(p)).collect();
    assert_eq!(listing(&reduce_tables(all).unwrap()), expected);
    let left = combine_tables(combine_tables(find_stats(parts[0]), find_stats(parts[1])), find_stats(parts[2]));
    assert_eq!(listing(&left.unwrap()), expected);
    let right = combine_tables(find_stats(parts[0]), combine_tables(find_stats(parts[1]), find_stats(parts[2])));
    assert_eq!(listing(&right.unwrap()), expected);
    let reversed: Vec<_> = parts.iter().rev().map(|p| find_stats(p)).collect();
    assert_eq!(listing(&reduce_tables(reversed).unwrap()), expected);
}

#[test]
fn reduce_gives_the_first_error() {
    let results = vec![find_stats(b"A;1\n"), find_stats(b"B;\n"), find_stats(b"C\n")];
    assert_eq!(reduce_tables(results).unwrap_err(), ScanError::BadValue);
    let results = vec![find_stats(b"C\n"), find_stats(b"B;\n"), find_stats(b"A;1\n")];
    assert_eq!(reduce_tables(results).unwrap_err(), ScanError::MissingDelimiter);
}
