use station_stats::station::Station;

fn fields(s: &Station) -> (u32, i64, i64, i64) {
    (s.cnt, s.sum, s.min, s.max)
}

#[test]
fn new_station_holds_one_value() {
    assert_eq!(fields(&Station::new(42)), (1, 42, 42, 42));
    assert_eq!(fields(&Station::new(-7)), (1, -7, -7, -7));
    assert_eq!(fields(&Station::new(i64::MIN)), (1, i64::MIN, i64::MIN, i64::MIN));
}

#[test]
fn observe_folds_a_value() {
    let mut s = Station::new(10);
    s.observe(30);
    assert_eq!(fields(&s), (2, 40, 10, 30));
    s.observe(-5);
    assert_eq!(fields(&s), (3, 35, -5, 30));
    s.observe(12);
    assert_eq!(fields(&s), (4, 47, -5, 30));
}

#[test]
fn merge_adds_counts_and_sums() {
    let mut a = Station::new(10);
    a.observe(20);
    let mut b = Station::new(-3);
    b.observe(50);
    b.observe(7);
    a.merge(&b);
    assert_eq!(fields(&a), (5, 84, -3, 50));
}

#[test]
fn merge_is_commutative() {
    let mut a = Station::new(1);
    a.observe(9);
    let b = Station::new(-4);
    let mut ab = a;
    ab.merge(&b);
    let mut ba = b;
    ba.merge(&a);
    assert_eq!(fields(&ab), fields(&ba));
    assert_eq!(fields(&ab), (3, 6, -4, 9));
}

#[test]
fn merge_is_associative() {
    let a = Station::new(5);
    let b = Station::new(-2);
    let c = Station::new(11);
    let mut left = a;
    left.merge(&b);
    left.merge(&c);
    let mut bc = b;
    bc.merge(&c);
    let mut right = a;
    right.merge(&bc);
    assert_eq!(fields(&left), fields(&right));
    assert_eq!(fields(&left), (3, 14, -2, 11));
}

#[test]
fn merge_reaches_the_ends_of_the_ranges() {
    let mut a = Station { cnt: u32::MAX - 1, sum: i64::MAX - 1, min: 0, max: i64::MAX };
    a.merge(&Station::new(1));
    assert_eq!(fields(&a), (u32::MAX, i64::MAX, 0, i64::MAX));
}
