use station_stats::wide::Wide;

fn sum(values: &[i128]) -> Wide {
    let mut total = Wide::from_i128(0);
    for v in values {
        total = total.plus(Wide::from_i128(*v));
    }
    total
}

#[test]
fn wide_holds_every_128_bit_value() {
    for v in [
        0i128,
        1,
        -1,
        u64::MAX as i128,
        u64::MAX as i128 + 1,
        -(u64::MAX as i128),
        -(u64::MAX as i128) - 1,
        -(u64::MAX as i128) - 2,
        i128::MAX,
        i128::MIN,
        i128::MIN + 1,
    ] {
        assert_eq!(Wide::from_i128(v).to_i128(), Some(v));
    }
}

#[test]
fn wide_sums_are_exact() {
    assert_eq!(sum(&[1, 2, 3]).to_i128(), Some(6));
    assert_eq!(sum(&[u64::MAX as i128, 1]).to_i128(), Some(u64::MAX as i128 + 1));
    assert_eq!(sum(&[-1, 1]).to_i128(), Some(0));
    assert_eq!(sum(&[-(u64::MAX as i128), -5, 7]).to_i128(), Some(-(u64::MAX as i128) + 2));
    assert_eq!(sum(&[i128::MAX, 1]).to_i128(), None);
    assert_eq!(sum(&[i128::MAX, 1, -1]).to_i128(), Some(i128::MAX));
    assert_eq!(sum(&[i128::MIN, -1]).to_i128(), None);
    assert_eq!(sum(&[i128::MIN, -1, 1]).to_i128(), Some(i128::MIN));
    assert_eq!(sum(&[i128::MAX, i128::MAX, i128::MIN, i128::MIN]).to_i128(), Some(-2));
}

#[test]
fn wide_division_rounds_once() {
    assert_eq!(sum(&[7]).rounded_div(2, 1), 4);
    assert_eq!(sum(&[-7]).rounded_div(2, 1), -4);
    assert_eq!(sum(&[7]).rounded_div(1, 2), 4);
    assert_eq!(sum(&[149]).rounded_div(3, 10), 5);
    assert_eq!(sum(&[150]).rounded_div(3, 10), 5);
    assert_eq!(sum(&[135]).rounded_div(3, 10), 5);
    assert_eq!(sum(&[134]).rounded_div(3, 10), 4);
    assert_eq!(sum(&[i128::MAX, i128::MAX, i128::MAX]).rounded_div(3, 1), i128::MAX);
    assert_eq!(sum(&[i128::MIN, i128::MIN, i128::MIN]).rounded_div(3, 1), i128::MIN);
    assert_eq!(
        sum(&[i128::MAX, i128::MAX, i128::MAX, i128::MAX]).rounded_div(4, 1_000_000_000),
        170141183460469231731687303716
    );
    assert_eq!(
        sum(&[i128::MAX; 7]).rounded_div(u64::MAX, u64::MAX),
        4
    );
    assert_eq!(sum(&[i128::MAX; 6]).rounded_div(u64::MAX, u64::MAX), 3);
    assert_eq!(sum(&[i128::MIN; 7]).rounded_div(u64::MAX, u64::MAX), -4);
    assert_eq!(sum(&[0]).rounded_div(u64::MAX, u64::MAX), 0);
}
