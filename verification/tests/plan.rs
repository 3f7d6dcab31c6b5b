use station_stats::plan::{
    boundary_hint, get_ranges, ranges_from_boundaries, snap_boundary, ByteRange, PlanError,
    LOOKAHEAD,
};

fn pairs(ranges: &[ByteRange]) -> Vec<(u64, u64)> {
    ranges.iter().map(|r| (r.offset, r.length)).collect()
}

#[test]
fn hint_is_the_rounded_down_share() {
    assert_eq!(boundary_hint(100, 3, 0), 0);
    assert_eq!(boundary_hint(100, 3, 1), 33);
    assert_eq!(boundary_hint(100, 3, 2), 66);
    assert_eq!(boundary_hint(100, 3, 3), 100);
    assert_eq!(boundary_hint(u64::MAX, 4, 2), u64::MAX / 2);
    assert_eq!(boundary_hint(u64::MAX, u64::MAX, u64::MAX), u64::MAX);
    assert_eq!(boundary_hint(0, 5, 3), 0);
}

#[test]
fn snap_moves_past_the_first_line_end() {
    assert_eq!(snap_boundary(9, b"2.0\nA;3.0\n"), Ok(13));
    assert_eq!(snap_boundary(5, b"\nB;2.0\n"), Ok(6));
    assert_eq!(snap_boundary(0, b"abc\n"), Ok(4));
}

#[test]
fn snap_fails_without_a_line_end() {
    assert_eq!(snap_boundary(7, b"abcdef"), Err(PlanError::RowTooLong));
    assert_eq!(snap_boundary(7, b""), Err(PlanError::RowTooLong));
}

#[test]
fn ranges_lie_between_consecutive_positions() {
    assert_eq!(pairs(&ranges_from_boundaries(&vec![0, 12, 12, 18])), vec![(0, 12), (12, 0), (12, 6)]);
    assert_eq!(pairs(&ranges_from_boundaries(&vec![0, 7])), vec![(0, 7)]);
    assert_eq!(pairs(&ranges_from_boundaries(&vec![5])), vec![]);
    assert_eq!(pairs(&ranges_from_boundaries(&vec![])), vec![]);
}

#[test]
fn one_partition_is_the_whole_input() {
    let data = b"A;1.0\nB;2.0\nA;3.0\n";
    assert_eq!(pairs(&get_ranges(data, 1).unwrap()), vec![(0, 18)]);
    assert_eq!(pairs(&get_ranges(b"", 1).unwrap()), vec![(0, 0)]);
    let long = vec![b'x'; 1000];
    assert_eq!(pairs(&get_ranges(&long, 1).unwrap()), vec![(0, 1000)]);
}

#[test]
fn inner_boundaries_follow_line_ends() {
    let data = b"A;1.0\nB;2.0\nA;3.0\n";
    assert_eq!(pairs(&get_ranges(data, 2).unwrap()), vec![(0, 12), (12, 6)]);
    assert_eq!(pairs(&get_ranges(data, 3).unwrap()), vec![(0, 12), (12, 6), (18, 0)]);
    assert_eq!(
        pairs(&get_ranges(data, 4).unwrap()),
        vec![(0, 6), (6, 6), (12, 6), (18, 0)]
    );
}

#[test]
fn ranges_cover_the_input_and_cut_no_row() {
    let mut data: Vec<u8> = Vec::new();
    for i in 0..40u32 {
        data.extend_from_slice(format!("station{};{}.{}\n", i % 7, i * 3, i % 10).as_bytes());
    }
    for partitions in 1..=40u64 {
        let ranges = get_ranges(&data, partitions).unwrap();
        assert_eq!(ranges.len() as u64, partitions);
        let mut at: u64 = 0;
        for r in ranges.iter() {
            assert_eq!(r.offset, at);
            if at > 0 {
                assert_eq!(data[(at - 1) as usize], b'\n');
            }
            at += r.length;
        }
        assert_eq!(at, data.len() as u64);
    }
}

#[test]
fn planning_fails_where_a_row_is_longer_than_the_lookahead() {
    assert_eq!(LOOKAHEAD, 256);
    let mut data = vec![b'x'; 600];
    data.push(b'\n');
    assert_eq!(get_ranges(&data, 2), Err(PlanError::RowTooLong));
    let mut short = vec![b'x'; 300];
    short.push(b'\n');
    assert_eq!(pairs(&get_ranges(&short, 2).unwrap()), vec![(0, 301), (301, 0)]);
}

#[test]
fn planning_fails_on_empty_input_with_inner_boundaries() {
    assert_eq!(get_ranges(b"", 2), Err(PlanError::RowTooLong));
}

#[test]
fn line_end_at_the_edge_of_the_window_is_found() {
    let mut data = vec![b'x'; 2 * 255];
    data.push(b'\n');
    data.extend_from_slice(&[b'y'; 2]);
    data.push(b'\n');
    // 514 bytes: the hint of the inner boundary is 257, the line end stands at 510.
    assert_eq!(pairs(&get_ranges(&data, 2).unwrap()), vec![(0, 511), (511, 3)]);
}
