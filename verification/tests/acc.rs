use station_stats::acc::Acc;

fn fields(a: &Acc) -> (i32, i32, i128, u64) {
    (a.min, a.max, a.total, a.count)
}

fn between(a: &Acc) -> bool {
    let count = a.count as i128;
    count >= 1 && count * (a.min as i128) <= a.total && a.total <= count * (a.max as i128)
}

#[test]
fn a_first_observation() {
    let a = Acc::from(1200);
    assert_eq!(fields(&a), (1200, 1200, 1200, 1));
    let b = Acc::from(-320);
    assert_eq!(fields(&b), (-320, -320, -320, 1));
}

#[test]
fn update_keeps_the_extremes_and_sums() {
    let mut a = Acc::from(1200);
    a.update(1400);
    assert_eq!(fields(&a), (1200, 1400, 2600, 2));
    a.update(-50);
    assert_eq!(fields(&a), (-50, 1400, 2550, 3));
    a.update(300);
    assert_eq!(fields(&a), (-50, 1400, 2850, 4));
}

#[test]
fn add_assign_joins_two_records() {
    let mut a = Acc::from(100);
    a.update(300);
    let mut b = Acc::from(-200);
    b.update(500);
    b.update(0);
    a.add_assign(b);
    assert_eq!(fields(&a), (-200, 500, 700, 5));
}

#[test]
fn add_assign_in_either_order() {
    let mut a = Acc::from(100);
    a.update(300);
    let mut b = Acc::from(-200);
    b.update(500);
    let mut ab = a;
    ab.add_assign(b);
    let mut ba = b;
    ba.add_assign(a);
    assert_eq!(fields(&ab), fields(&ba));
}

#[test]
fn add_assign_in_either_grouping() {
    let a = Acc::from(-9990);
    let mut b = Acc::from(40);
    b.update(50);
    let c = Acc::from(9990);
    let mut left = a;
    left.add_assign(b);
    left.add_assign(c);
    let mut right = b;
    right.add_assign(c);
    let mut whole = a;
    whole.add_assign(right);
    assert_eq!(fields(&left), fields(&whole));
    assert_eq!(fields(&left), (-9990, 9990, 90, 4));
}

#[test]
fn update_is_add_assign_of_one() {
    let mut a = Acc::from(10);
    a.update(-30);
    let mut b = Acc::from(10);
    b.add_assign(Acc::from(-30));
    assert_eq!(fields(&a), fields(&b));
}

#[test]
fn the_mean_stays_between_the_extremes() {
    let mut a = Acc::from(0);
    assert!(between(&a));
    let mut v: i32 = 17;
    for _ in 0..10_000 {
        v = (v.wrapping_mul(1_103_515_245).wrapping_add(12_345)) % 10_000;
        a.update(v);
        assert!(between(&a));
    }
    let mut b = Acc::from(-9990);
    b.update(-9990);
    a.add_assign(b);
    assert!(between(&a));
    assert_eq!(a.count, 10_003);
}

#[test]
fn the_sum_outgrows_32_bits() {
    let mut a = Acc::from(i32::MAX);
    a.update(i32::MAX);
    a.update(i32::MAX);
    assert_eq!(a.total, 3 * (i32::MAX as i128));
    let mut b = Acc::from(i32::MIN);
    b.update(i32::MIN);
    assert_eq!(b.total, 2 * (i32::MIN as i128));
    b.add_assign(a);
    assert_eq!(fields(&b), (i32::MIN, i32::MAX, (i32::MAX as i128) - 2, 5));
}
