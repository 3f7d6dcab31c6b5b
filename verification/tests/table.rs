use station_stats::key::{compare_keys, KeyOrder};
use station_stats::station::Station;
use station_stats::table::{merge_stats, StationTable};

fn listing(t: &StationTable) -> Vec<(Vec<u8>, u32, i64, i64, i64)> {
    let mut out = Vec::new();
    for e in t.entries.iter() {
        out.push((e.key.clone(), e.station.cnt, e.station.sum, e.station.min, e.station.max));
    }
    out
}

#[test]
fn keys_compare_byte_by_byte() {
    assert_eq!(compare_keys(b"a", b"b"), KeyOrder::Before);
    assert_eq!(compare_keys(b"b", b"a"), KeyOrder::After);
    assert_eq!(compare_keys(b"abc", b"abc"), KeyOrder::Same);
    assert_eq!(compare_keys(b"", b""), KeyOrder::Same);
    assert_eq!(compare_keys(b"", b"a"), KeyOrder::Before);
    assert_eq!(compare_keys(b"ab", b"a"), KeyOrder::After);
    assert_eq!(compare_keys(b"a", b"ab"), KeyOrder::Before);
    assert_eq!(compare_keys(b"Z", b"a"), KeyOrder::Before);
    assert_eq!(compare_keys(&[0xff], &[0x7f, 0x01]), KeyOrder::After);
}

#[test]
fn empty_table_has_no_keys() {
    let t = StationTable::new();
    assert_eq!(t.len(), 0);
    assert!(t.get(b"a").is_none());
    assert_eq!(t.locate(b"a"), (false, 0));
}

#[test]
fn absorb_keeps_the_keys_ascending() {
    let mut t = StationTable::new();
    t.absorb(b"m".to_vec(), Station::new(1));
    t.absorb(b"z".to_vec(), Station::new(2));
    t.absorb(b"a".to_vec(), Station::new(3));
    t.absorb(b"mm".to_vec(), Station::new(4));
    t.absorb(b"m".to_vec(), Station::new(5));
    assert_eq!(t.len(), 4);
    assert_eq!(
        listing(&t),
        vec![
            (b"a".to_vec(), 1, 3, 3, 3),
            (b"m".to_vec(), 2, 6, 1, 5),
            (b"mm".to_vec(), 1, 4, 4, 4),
            (b"z".to_vec(), 1, 2, 2, 2),
        ]
    );
    assert_eq!(t.locate(b"m"), (true, 1));
    assert_eq!(t.locate(b"n"), (false, 3));
    assert_eq!(t.locate(b"zz"), (false, 4));
    let m = t.get(b"m").unwrap();
    assert_eq!((m.cnt, m.sum, m.min, m.max), (2, 6, 1, 5));
    assert!(t.get(b"q").is_none());
}

#[test]
fn merge_stats_joins_shared_keys_and_keeps_the_others() {
    let mut a = StationTable::new();
    a.absorb(b"A".to_vec(), Station::new(10));
    a.absorb(b"B".to_vec(), Station::new(20));
    let mut b = StationTable::new();
    b.absorb(b"A".to_vec(), Station::new(30));
    b.absorb(b"C".to_vec(), Station::new(-5));
    let m = merge_stats(a, b);
    assert_eq!(
        listing(&m),
        vec![
            (b"A".to_vec(), 2, 40, 10, 30),
            (b"B".to_vec(), 1, 20, 20, 20),
            (b"C".to_vec(), 1, -5, -5, -5),
        ]
    );
}

#[test]
fn merge_stats_with_an_empty_table_changes_nothing() {
    let mut a = StationTable::new();
    a.absorb(b"A".to_vec(), Station::new(10));
    let left = merge_stats(StationTable::new(), a);
    assert_eq!(listing(&left), vec![(b"A".to_vec(), 1, 10, 10, 10)]);
    let right = merge_stats(left, StationTable::new());
    assert_eq!(listing(&right), vec![(b"A".to_vec(), 1, 10, 10, 10)]);
}

#[test]
fn merge_stats_gives_the_same_table_in_either_order() {
    let make_a = || {
        let mut a = StationTable::new();
        a.absorb(b"x".to_vec(), Station::new(1));
        a.absorb(b"y".to_vec(), Station::new(2));
        a
    };
    let make_b = || {
        let mut b = StationTable::new();
        b.absorb(b"y".to_vec(), Station::new(3));
        b.absorb(b"w".to_vec(), Station::new(4));
        b
    };
    assert_eq!(listing(&merge_stats(make_a(), make_b())), listing(&merge_stats(make_b(), make_a())));
}
