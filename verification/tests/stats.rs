use batch_stats::stats::TempStats;

#[test]
fn new_holds_one_reading() {
    let s = TempStats::new(10_000_000);
    assert_eq!(s.min(), 10_000_000);
    assert_eq!(s.max(), 10_000_000);
    assert_eq!(s.sum(), 10_000_000);
    assert_eq!(s.count(), 1);
    assert_eq!(s.mean(), 10_000_000);
}

#[test]
fn update_folds_a_reading_in() {
    let mut s = TempStats::new(1_000_000);
    s.update(5_000_000);
    s.update(-3_000_000);
    assert_eq!(s.min(), -3_000_000);
    assert_eq!(s.max(), 5_000_000);
    assert_eq!(s.sum(), 3_000_000);
    assert_eq!(s.count(), 3);
    assert_eq!(s.mean(), 1_000_000);
}

#[test]
fn merge_combines_two_accumulators() {
    let mut a = TempStats::new(4);
    a.update(8);
    let mut b = TempStats::new(-2);
    b.update(20);
    b.update(3);
    a.merge(&b);
    assert_eq!(a.min(), -2);
    assert_eq!(a.max(), 20);
    assert_eq!(a.sum(), 33);
    assert_eq!(a.count(), 5);
}

fn fold(values: &[i64]) -> TempStats {
    let mut s = TempStats::new(values[0]);
    for v in &values[1..] {
        s.update(*v);
    }
    s
}

fn same(a: &TempStats, b: &TempStats) -> bool {
    a.min() == b.min() && a.max() == b.max() && a.sum() == b.sum() && a.count() == b.count()
}

#[test]
fn merge_is_commutative() {
    let a = fold(&[3, -7, 12]);
    let b = fold(&[100, 5]);
    let mut ab = a;
    ab.merge(&b);
    let mut ba = b;
    ba.merge(&a);
    assert!(same(&ab, &ba));
}

#[test]
fn merge_is_associative() {
    let a = fold(&[3, -7, 12]);
    let b = fold(&[100, 5]);
    let c = fold(&[-40]);
    let mut left = a;
    left.merge(&b);
    left.merge(&c);
    let mut bc = b;
    bc.merge(&c);
    let mut right = a;
    right.merge(&bc);
    assert!(same(&left, &right));
}

#[test]
fn merge_equals_fold_of_both_groups_in_any_order() {
    let first = [3, -7, 12];
    let second = [100, 5];
    let mut merged = fold(&first);
    merged.merge(&fold(&second));
    assert!(same(&merged, &fold(&[3, -7, 12, 100, 5])));
    assert!(same(&merged, &fold(&[100, 5, 3, -7, 12])));
    assert!(same(&merged, &fold(&[5, 12, -7, 100, 3])));
    assert_eq!(merged.min(), -7);
    assert_eq!(merged.max(), 100);
    assert_eq!(merged.sum(), 113);
    assert_eq!(merged.count(), 5);
}

#[test]
fn merge_with_itself_doubles_sum_and_count() {
    let a = fold(&[3, -7, 12]);
    let mut twice = a;
    twice.merge(&a);
    assert_eq!(twice.count(), 6);
    assert_eq!(twice.sum(), 16);
    assert_eq!(twice.min(), -7);
    assert_eq!(twice.max(), 12);
}

#[test]
fn mean_rounds_down() {
    assert_eq!(fold(&[1, 2]).mean(), 1);
    assert_eq!(fold(&[-1, -2]).mean(), -2);
    assert_eq!(fold(&[-1, 1]).mean(), 0);
    assert_eq!(fold(&[-1, 0]).mean(), -1);
    assert_eq!(fold(&[-3, -3, -3]).mean(), -3);
    assert_eq!(fold(&[7, 7, 8]).mean(), 7);
    assert_eq!(fold(&[-7, -7, -8]).mean(), -8);
}

#[test]
fn extremes_do_not_overflow() {
    let mut s = TempStats::new(i64::MAX);
    s.update(i64::MAX);
    s.update(i64::MAX);
    assert_eq!(s.sum(), 3 * (i64::MAX as i128));
    assert_eq!(s.mean(), i64::MAX);
    let mut t = TempStats::new(i64::MIN);
    t.update(i64::MIN);
    assert_eq!(t.sum(), 2 * (i64::MIN as i128));
    assert_eq!(t.mean(), i64::MIN);
    assert_eq!(t.min(), i64::MIN);
    s.merge(&t);
    assert_eq!(s.min(), i64::MIN);
    assert_eq!(s.max(), i64::MAX);
    assert_eq!(s.count(), 5);
    assert_eq!(s.sum(), 3 * (i64::MAX as i128) + 2 * (i64::MIN as i128));
}

#[test]
fn mean_as_a_float() {
    let s = fold(&[1_000_000, 5_000_000, -3_000_000]);
    let mean = s.sum() as f64 / s.count() as f64 / 1_000_000.0;
    assert_eq!(mean, 1.0);
}
