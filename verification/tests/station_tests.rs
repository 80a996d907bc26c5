use station_stats::station::round_to;
use station_stats::station::Station;
use station_stats::wide::rounded_div;

fn parts(s: &Station) -> (i128, i128, i128, u64) {
    (s.min(), s.max(), s.total().to_i128().unwrap(), s.count())
}

fn merged(a: Station, b: Station) -> Station {
    let mut r = a;
    r.add(b);
    r
}

fn of(values: &[i128]) -> Station {
    let mut r = Station::identity();
    for v in values {
        r.add(Station::new(*v));
    }
    r
}

#[test]
fn new_holds_one_observation() {
    assert_eq!(parts(&Station::new(42)), (42, 42, 42, 1));
    assert_eq!(parts(&Station::new(-7)), (-7, -7, -7, 1));
}

#[test]
fn identity_is_empty() {
    assert_eq!(parts(&Station::identity()), (0, 0, 0, 0));
}

#[test]
fn add_combines_extremes_total_and_count() {
    let r = merged(of(&[100, 200]), of(&[50, 150, 300]));
    assert_eq!(parts(&r), (50, 300, 800, 5));
}

#[test]
fn identity_law_holds() {
    let a = of(&[5, -3, 12]);
    assert_eq!(parts(&merged(a, Station::identity())), parts(&a));
    assert_eq!(parts(&merged(Station::identity(), a)), parts(&a));
    let e = Station::identity();
    assert_eq!(parts(&merged(e, e)), parts(&e));
}

#[test]
fn identity_does_not_pull_extremes_to_zero() {
    let a = of(&[50, 70]);
    assert_eq!(parts(&merged(Station::identity(), a)), (50, 70, 120, 2));
    let b = of(&[-70, -50]);
    assert_eq!(parts(&merged(b, Station::identity())), (-70, -50, -120, 2));
}

#[test]
fn merge_is_associative() {
    let a = of(&[1, 9]);
    let b = of(&[-4]);
    let c = of(&[30, 2, 2]);
    assert_eq!(
        parts(&merged(merged(a, b), c)),
        parts(&merged(a, merged(b, c)))
    );
}

#[test]
fn merge_is_commutative() {
    let a = of(&[1, 9]);
    let b = of(&[-4, 100]);
    assert_eq!(parts(&merged(a, b)), parts(&merged(b, a)));
    assert_eq!(parts(&merged(a, b)), (-4, 100, 106, 4));
}

#[test]
fn merged_value_lies_within_new_bounds() {
    let a = of(&[10, 20]);
    for v in [-5i128, 10, 15, 20, 99] {
        let r = merged(a, Station::new(v));
        assert!(r.min() <= v && v <= r.max());
        assert!(r.min() <= a.min());
        assert!(r.max() >= a.max());
        assert_eq!(r.count(), a.count() + 1);
        assert_eq!(r.total().to_i128(), Some(a.total().to_i128().unwrap() + v));
    }
}

#[test]
fn count_is_conserved() {
    let a = of(&[1, 2, 3]);
    let b = of(&[4, 5]);
    assert_eq!(merged(a, b).count(), 5);
}

#[test]
fn mean_is_exact_when_it_divides() {
    assert_eq!(of(&[100, 200]).mean_in(1), 150);
    assert_eq!(of(&[-50, 50]).mean_in(1), 0);
    assert_eq!(of(&[7]).mean_in(1), 7);
}

#[test]
fn mean_rounds_half_away_from_zero() {
    assert_eq!(of(&[0, 1]).mean_in(1), 1);
    assert_eq!(of(&[0, -1]).mean_in(1), -1);
    assert_eq!(of(&[0, 0, 1]).mean_in(1), 0);
    assert_eq!(of(&[0, 1, 1]).mean_in(1), 1);
    assert_eq!(of(&[0, 0, -1]).mean_in(1), 0);
    assert_eq!(of(&[0, -1, -1]).mean_in(1), -1);
    assert_eq!(of(&[2, 3]).mean_in(1), 3);
    assert_eq!(of(&[-2, -3]).mean_in(1), -3);
}

#[test]
fn totals_of_extreme_values_do_not_overflow() {
    let a = of(&[i128::MAX, i128::MAX, i128::MAX]);
    assert_eq!(a.total().to_i128(), None);
    assert_eq!(a.mean_in(1), i128::MAX);
    assert_eq!(a.mean_in(3), 56713727820156410577229101238628035242);
    let b = of(&[i128::MIN, i128::MIN]);
    assert_eq!(b.total().to_i128(), None);
    assert_eq!(b.mean_in(1), i128::MIN);
    assert_eq!(b.mean_in(2), i128::MIN / 2);
    let c = merged(a, b);
    assert_eq!(c.count(), 5);
    assert_eq!(c.total().to_i128(), Some(i128::MAX - 2));
    assert_eq!(c.mean_in(1), 34028236692093846346337460743176821145);
    assert_eq!((c.min(), c.max()), (i128::MIN, i128::MAX));
}

#[test]
fn mean_in_steps_rounds_once() {
    assert_eq!(of(&[25, 0]).mean_in(10), 1);
    assert_eq!(of(&[5, 0]).mean_in(10), 0);
    assert_eq!(of(&[10, 0]).mean_in(10), 1);
    assert_eq!(of(&[9, 0]).mean_in(10), 0);
    assert_eq!(of(&[-10, 0]).mean_in(10), -1);
    assert_eq!(of(&[-9, 0]).mean_in(10), 0);
    assert_eq!(of(&[149, 0, 0]).mean_in(10), 5);
    assert_eq!(of(&[i64::MAX as i128, i64::MAX as i128]).mean_in(u64::MAX), 0);
    assert_eq!(of(&[i64::MAX as i128, i64::MAX as i128]).mean_in(i64::MAX as u64), 1);
    assert_eq!(of(&[i64::MIN as i128, i64::MIN as i128]).mean_in(100_000_000), -92233720369);
}

#[test]
fn round_to_rounds_half_away_from_zero() {
    assert_eq!(round_to(14, 10), 1);
    assert_eq!(round_to(15, 10), 2);
    assert_eq!(round_to(-14, 10), -1);
    assert_eq!(round_to(-15, 10), -2);
    assert_eq!(round_to(0, 10), 0);
    assert_eq!(round_to(7, 1), 7);
    assert_eq!(round_to(i128::MAX, 1), i128::MAX);
    assert_eq!(round_to(i128::MIN, 1), i128::MIN);
    assert_eq!(round_to(i128::MIN, 2), i128::MIN / 2);
    assert_eq!(round_to(i128::MAX, 2), i128::MAX / 2 + 1);
    assert_eq!(round_to(1, u64::MAX), 0);
}

#[test]
fn rounded_div_is_exact_on_wide_values() {
    assert_eq!(rounded_div(i128::MAX, 1), i128::MAX);
    assert_eq!(rounded_div(i128::MIN, 1), i128::MIN);
    assert_eq!(rounded_div(3, 2), 2);
    assert_eq!(rounded_div(-3, 2), -2);
    assert_eq!(rounded_div(1, 3), 0);
    assert_eq!(rounded_div(2, 3), 1);
    assert_eq!(rounded_div(i128::MAX, u128::MAX), 0);
    assert_eq!(rounded_div(i128::MAX, i128::MAX as u128), 1);
    assert_eq!(rounded_div(i128::MIN, 1u128 << 127), -1);
    assert_eq!(rounded_div(i128::MIN, u128::MAX), -1);
}
