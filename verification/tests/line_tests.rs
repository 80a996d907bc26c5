use station_stats::line::find_byte;
use station_stats::line::fits;
use station_stats::line::parse_line;
use station_stats::line::read_value;
use station_stats::line::Reading;

const ONE: i128 = 1_000_000_000;

fn value(field: &[u8]) -> Option<i128> {
    match read_value(field) {
        Reading::Value(units) => Some(units),
        _ => None,
    }
}

fn malformed(field: &[u8]) -> bool {
    matches!(read_value(field), Reading::Malformed)
}

fn too_large(field: &[u8]) -> bool {
    matches!(read_value(field), Reading::TooLarge)
}

#[test]
fn parses_name_and_value() {
    assert_eq!(parse_line(b"Hamburg;12.3"), Some((b"Hamburg".to_vec(), 12_300_000_000)));
}

#[test]
fn parses_negative_value() {
    assert_eq!(parse_line(b"Oslo;-5.0"), Some((b"Oslo".to_vec(), -5 * ONE)));
}

#[test]
fn parses_value_with_exponent() {
    assert_eq!(parse_line(b"A;1e3"), Some((b"A".to_vec(), 1000 * ONE)));
    assert_eq!(parse_line(b"A;2.5E-1;x"), Some((b"A".to_vec(), 250_000_000)));
}

#[test]
fn line_without_delimiter_is_dropped() {
    assert_eq!(parse_line(b"garbage"), None);
    assert_eq!(parse_line(b""), None);
    assert!(fits(b"garbage"));
    assert!(fits(b""));
}

#[test]
fn line_with_bad_value_is_dropped() {
    for line in [
        &b"A;abc"[..],
        b"A;",
        b"A; 1.0",
        b"A;1.0 ",
        b"A;1,0",
        b"A;1.0.0",
        b"A;--1",
        b"A;1e",
        b"A;1e+",
        b"A;e3",
        b"A;.e3",
        b"A;1e3.5",
        b"A;1e3e4",
        b"A;0x10",
        b"A;inf",
        b"A;-infinity",
        b"A;nan",
        b"A;NaN",
    ] {
        assert_eq!(parse_line(line), None);
        assert!(fits(line));
        assert!(malformed(&line[2..]));
    }
}

#[test]
fn extra_fields_are_ignored() {
    assert_eq!(parse_line(b"A;1.5;rest;more"), Some((b"A".to_vec(), 1_500_000_000)));
    assert_eq!(parse_line(b"A;1.5;"), Some((b"A".to_vec(), 1_500_000_000)));
}

#[test]
fn second_field_decides() {
    assert_eq!(parse_line(b"A;;1.5"), None);
    assert_eq!(parse_line(b"A;x;1.5"), None);
}

#[test]
fn name_is_taken_verbatim() {
    assert_eq!(parse_line(b";1.0"), Some((Vec::new(), ONE)));
    assert_eq!(parse_line(b" St. John's ;1.0"), Some((b" St. John's ".to_vec(), ONE)));
    assert_eq!(
        parse_line("Zürich;1.0".as_bytes()),
        Some(("Zürich".as_bytes().to_vec(), ONE))
    );
}

#[test]
fn values_of_plain_decimals() {
    assert_eq!(value(b"0"), Some(0));
    assert_eq!(value(b"7"), Some(7 * ONE));
    assert_eq!(value(b"10.0"), Some(10 * ONE));
    assert_eq!(value(b"99.9"), Some(99_900_000_000));
    assert_eq!(value(b"007.5"), Some(7_500_000_000));
    assert_eq!(value(b"+3.2"), Some(3_200_000_000));
    assert_eq!(value(b"-3.2"), Some(-3_200_000_000));
    assert_eq!(value(b"-0.0"), Some(0));
}

#[test]
fn values_without_whole_or_fraction() {
    assert_eq!(value(b"5."), Some(5 * ONE));
    assert_eq!(value(b".5"), Some(500_000_000));
    assert_eq!(value(b"-.5"), Some(-500_000_000));
    assert_eq!(value(b"5.e1"), Some(50 * ONE));
    assert!(malformed(b"."));
    assert!(malformed(b""));
    assert!(malformed(b"+"));
    assert!(malformed(b"-"));
    assert!(malformed(b"-."));
}

#[test]
fn values_are_read_exactly() {
    assert_eq!(value(b"0.25"), Some(250_000_000));
    assert_eq!(value(b"1.24"), Some(1_240_000_000));
    assert_eq!(value(b"-1.25"), Some(-1_250_000_000));
    assert_eq!(value(b"0.05"), Some(50_000_000));
    assert_eq!(value(b"0.000000001"), Some(1));
    assert_eq!(value(b"-0.123456789"), Some(-123_456_789));
    assert_eq!(value(b"1.2500000000000000"), Some(1_250_000_000));
    assert!(malformed(b"1.25x"));
}

#[test]
fn exponents_move_the_point() {
    assert_eq!(value(b"1e3"), Some(1000 * ONE));
    assert_eq!(value(b"1E3"), Some(1000 * ONE));
    assert_eq!(value(b"1e+3"), Some(1000 * ONE));
    assert_eq!(value(b"1e0"), Some(ONE));
    assert_eq!(value(b"1e-9"), Some(1));
    assert_eq!(value(b"12.5e-1"), Some(1_250_000_000));
    assert_eq!(value(b"-12.5e1"), Some(-125 * ONE));
    assert_eq!(value(b"0.001e3"), Some(ONE));
    assert_eq!(value(b"100e-11"), Some(1));
    assert_eq!(value(b"1000000000000000000000e-21"), Some(ONE));
    assert_eq!(value(b"0.000000000000000000001e21"), Some(ONE));
    assert_eq!(value(b"0e5"), Some(0));
    assert_eq!(value(b"0e-1000000"), Some(0));
    assert_eq!(value(b"1e0000000002"), Some(100 * ONE));
}

#[test]
fn values_at_the_bounds() {
    assert_eq!(value(b"170141183460469231731687303715.884105727"), Some(i128::MAX));
    assert_eq!(value(b"-170141183460469231731687303715.884105727"), Some(-i128::MAX));
    assert_eq!(value(b"1.70141183460469231731687303715884105727e29"), Some(i128::MAX));
    assert!(too_large(b"170141183460469231731687303715.884105728"));
    assert!(too_large(b"-170141183460469231731687303715.884105728"));
    assert!(too_large(b"170141183460469231731687303715.8841057275"));
    assert_eq!(value(b"170141183460469231731687303715.8841057274"), Some(i128::MAX));
    assert!(too_large(b"170141183460469231731687303716"));
    assert_eq!(value(b"9223372037"), Some(9223372037 * ONE));
    assert_eq!(value(b"1e10"), Some(10_000_000_000 * ONE));
    assert_eq!(value(b"1e19"), Some(10_000_000_000_000_000_000 * ONE));
    assert_eq!(value(b"1e29"), Some(100_000_000_000_000_000_000_000_000_000 * ONE));
    assert!(too_large(b"2e29"));
    assert!(too_large(b"1e30"));
    assert!(too_large(b"99999999999999999999999999999999"));
    assert_eq!(value(b"000000000000000000000000000000000000000000001.5"), Some(1_500_000_000));
}

#[test]
fn values_finer_than_a_unit_are_rounded_to_the_unit() {
    assert_eq!(value(b"0.0000000001"), Some(0));
    assert_eq!(value(b"1e-10"), Some(0));
    assert_eq!(value(b"0.0000000005"), Some(1));
    assert_eq!(value(b"5e-10"), Some(1));
    assert_eq!(value(b"-0.0000000005"), Some(-1));
    assert_eq!(value(b"0.00000000049999"), Some(0));
    assert_eq!(value(b"0.30000000000000004"), Some(300_000_000));
    assert_eq!(value(b"0.1234567891"), Some(123_456_789));
    assert_eq!(value(b"0.1234567895"), Some(123_456_790));
    assert_eq!(value(b"-0.1234567895"), Some(-123_456_790));
    assert_eq!(value(b"0.9999999995"), Some(ONE));
    assert_eq!(value(b"12345.6789e-13"), Some(1));
    assert_eq!(value(b"0.0000000000000000000"), Some(0));
    assert_eq!(value(b"1.0000000000000000000"), Some(ONE));
}

#[test]
fn exponents_of_any_size_are_read() {
    assert_eq!(value(b"0e1000000"), Some(0));
    assert_eq!(value(b"0e1000001"), Some(0));
    assert_eq!(value(b"0e-1000001"), Some(0));
    assert_eq!(value(b"0.000e99999999999999999999999999999999"), Some(0));
    assert_eq!(value(b"-0e99999999999999999999999999999999"), Some(0));
    assert_eq!(value(b"1e-99999999999999999999999999999999"), Some(0));
    assert_eq!(value(b"123.456e-1000"), Some(0));
    assert!(too_large(b"1e99999999999999999999999999"));
    assert!(too_large(b"0.0001e1000000000000000000000000"));
    assert!(too_large(b"1e1000"));
    assert!(too_large(b"1e39"));
    assert_eq!(value(b"0.000000000000000000000000000000000000001e39"), Some(ONE));
}

#[test]
fn fits_tells_lines_apart() {
    assert!(fits(b"A;1.5"));
    assert!(fits(b"A;1e3"));
    assert!(fits(b"A;1e19"));
    assert!(fits(b"A;1e-10"));
    assert!(fits(b"A;x"));
    assert!(fits(b"no delimiter"));
    assert!(!fits(b"A;1e30"));
    assert!(!fits(b"A;1e30;1"));
    assert!(fits(b"A;1;1e30"));
}

#[test]
fn find_byte_gives_first_place_or_length() {
    assert_eq!(find_byte(b"a;b;c", 0, b';'), 1);
    assert_eq!(find_byte(b"a;b;c", 1, b';'), 1);
    assert_eq!(find_byte(b"a;b;c", 2, b';'), 3);
    assert_eq!(find_byte(b"a;b;c", 4, b';'), 5);
    assert_eq!(find_byte(b"", 0, b';'), 0);
    assert_eq!(find_byte(b"abc", 3, b'a'), 3);
}
