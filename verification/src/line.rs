//! One measurement line: a station name, the delimiter, a decimal value.
//!
//! A value is held as a whole number of units of one billionth. A decimal
//! that is written finer than that is rounded to the nearest unit, halves
//! away from zero. The only decimal that cannot be held is one whose
//! magnitude, so rounded, is beyond `MAX_UNITS`.

use crate::station::rounded_quotient;
use crate::wide::lemma_rounding;
use vstd::prelude::*;
use vstd::slice::slice_subrange;
use vstd::slice::slice_to_vec;

verus! {

/// The byte that separates the fields of a line: `;`.
pub const DELIMITER: u8 = 59;

/// The decimal point: `.`.
pub const POINT: u8 = 46;

/// The sign of a negative value: `-`.
pub const MINUS: u8 = 45;

/// The optional sign of a positive value: `+`.
pub const PLUS: u8 = 43;

/// The digit `0`; the other digits follow it in order.
pub const ZERO: u8 = 48;

/// Starts the exponent: `e`.
pub const LOWER_E: u8 = 101;

/// Starts the exponent as well: `E`.
pub const UPPER_E: u8 = 69;

/// Decimal places that a measurement keeps: a unit is `10^-SCALE`.
pub const SCALE: u64 = 9;

/// Largest magnitude of a measurement, in units.
pub const MAX_UNITS: u128 = 170_141_183_460_469_231_731_687_303_715_884_105_727;

pub open spec fn is_digit(b: u8) -> bool {
    ZERO <= b <= ZERO + 9
}

pub open spec fn is_sign(b: u8) -> bool {
    b == MINUS || b == PLUS
}

pub open spec fn is_exponent_mark(b: u8) -> bool {
    b == LOWER_E || b == UPPER_E
}

pub open spec fn all_digits(s: Seq<u8>) -> bool {
    forall|i: int| 0 <= i < s.len() ==> is_digit(#[trigger] s[i])
}

pub open spec fn digit_of(b: u8) -> nat {
    (b - ZERO) as nat
}

/// Ten to the power `n`.
pub open spec fn pow10(n: nat) -> nat
    decreases n,
{
    if n == 0 {
        1
    } else {
        10 * pow10((n - 1) as nat)
    }
}

/// Value of a run of decimal digits; zero for the empty run.
pub open spec fn digits_value(s: Seq<u8>) -> nat
    decreases s.len(),
{
    if s.len() == 0 {
        0
    } else {
        digits_value(s.drop_last()) * 10 + digit_of(s.last())
    }
}

/// End of the run of digits that starts at `from`.
pub open spec fn digit_run(s: Seq<u8>, from: int) -> int
    decreases s.len() - from,
{
    if 0 <= from < s.len() && is_digit(s[from]) {
        digit_run(s, from + 1)
    } else {
        from
    }
}

/// A decimal as it is written: the digits of its mantissa without the point,
/// the number of them that stand after the point, and the exponent. It
/// denotes the number of the digits times ten to the power
/// `exponent - places`, negated where `negative`.
pub struct Decimal {
    pub negative: bool,
    pub digits: Seq<u8>,
    pub places: int,
    pub exponent: int,
}

/// Where the mantissa starts: after the sign, if there is one.
pub open spec fn mantissa_start(s: Seq<u8>) -> int {
    if s.len() > 0 && is_sign(s[0]) {
        1
    } else {
        0
    }
}

/// Where the digits before the point end.
pub open spec fn whole_end(s: Seq<u8>) -> int {
    digit_run(s, mantissa_start(s))
}

/// Where the digits after the point start: behind the point, if there is
/// one at the end of the digits before it.
pub open spec fn fraction_start(s: Seq<u8>) -> int {
    if whole_end(s) < s.len() && s[whole_end(s)] == POINT {
        whole_end(s) + 1
    } else {
        whole_end(s)
    }
}

/// Where the mantissa ends.
pub open spec fn mantissa_end(s: Seq<u8>) -> int {
    digit_run(s, fraction_start(s))
}

/// The digits of the mantissa, without the point.
pub open spec fn mantissa_digits(s: Seq<u8>) -> Seq<u8> {
    s.subrange(mantissa_start(s), whole_end(s)) + s.subrange(fraction_start(s), mantissa_end(s))
}

/// The exponent that is written from `at` to the end of `s`: zero where
/// nothing is written there; else what an exponent mark, an optional sign
/// and one or more digits denote. `None` where something else is written.
pub open spec fn exponent_of(s: Seq<u8>, at: int) -> Option<int> {
    if at >= s.len() {
        Some(0)
    } else if !is_exponent_mark(s[at]) {
        None
    } else {
        let signed = at + 1 < s.len() && is_sign(s[at + 1]);
        let from: int = if signed { at + 2 } else { at + 1 };
        let to = digit_run(s, from);
        let size = digits_value(s.subrange(from, to)) as int;
        if from < to && to == s.len() {
            Some(if signed && s[at + 1] == MINUS { -size } else { size })
        } else {
            None
        }
    }
}

/// The decimal that a value field writes: an optional sign; digits,
/// optionally with a point among, before or after them, at least one digit
/// in all; optionally an exponent. `None` for every other field: the words
/// `inf`, `infinity` and `nan` among them, which write no decimal.
pub open spec fn decimal_of(s: Seq<u8>) -> Option<Decimal> {
    if mantissa_digits(s).len() == 0 {
        None
    } else {
        match exponent_of(s, mantissa_end(s)) {
            Some(exponent) => Some(
                Decimal {
                    negative: mantissa_start(s) == 1 && s[0] == MINUS,
                    digits: mantissa_digits(s),
                    places: mantissa_end(s) - fraction_start(s),
                    exponent,
                },
            ),
            None => None,
        }
    }
}

/// The number that `digits` denote times `10^shift`: exact where `shift` is
/// not negative, else rounded to the nearest integer, halves away from zero,
/// by the rule that rounds the numbers of a summary.
pub open spec fn scaled_magnitude(digits: Seq<u8>, shift: int) -> nat {
    if shift >= 0 {
        digits_value(digits) * pow10(shift as nat)
    } else {
        rounded_quotient(digits_value(digits) as int, pow10((-shift) as nat) as int) as nat
    }
}

/// The same number read digit by digit, as `lemma_rounded_units` shows.
/// First the whole units that `digits` denote when the last of them counts
/// `10^shift` units and each digit counts ten times the one after it: the
/// sum of what the digits that count a unit or more are worth.
pub open spec fn whole_units(digits: Seq<u8>, shift: int) -> nat
    decreases digits.len(),
{
    if digits.len() == 0 {
        0
    } else {
        whole_units(digits.drop_last(), shift + 1) + if shift >= 0 {
            digit_of(digits.last()) * pow10(shift as nat)
        } else {
            0
        }
    }
}

/// Whether what `digits` denote below a unit is half a unit or more: the
/// digit that counts a tenth of a unit is five or more.
pub open spec fn rounds_up(digits: Seq<u8>, shift: int) -> bool {
    let tenth = digits.len() + shift;
    shift < 0 && 0 <= tenth < digits.len() && digit_of(digits[tenth]) >= 5
}

/// The units that `digits` denote, rounded to the nearest unit, halves up.
pub open spec fn rounded_units(digits: Seq<u8>, shift: int) -> nat {
    whole_units(digits, shift) + if rounds_up(digits, shift) { 1nat } else { 0nat }
}

/// The magnitude of a decimal in units: exact where the decimal is a whole
/// number of units, else rounded to the nearest unit, halves away from zero.
pub open spec fn magnitude_of(d: Decimal) -> nat {
    scaled_magnitude(d.digits, d.exponent - d.places + SCALE)
}

/// The value of a decimal in units: exact where the decimal is a whole
/// number of units, else rounded to the nearest unit, halves away from
/// zero. `None` only where the magnitude is beyond `MAX_UNITS`.
pub open spec fn units_of(d: Decimal) -> Option<int> {
    if magnitude_of(d) <= MAX_UNITS {
        Some(if d.negative { -(magnitude_of(d) as int) } else { magnitude_of(d) as int })
    } else {
        None
    }
}

/// The bytes of `s` before its first delimiter, or all of `s` if it has none.
pub open spec fn first_field(s: Seq<u8>) -> Seq<u8> {
    match s.index_of_first(DELIMITER) {
        Some(i) => s.subrange(0, i),
        None => s,
    }
}

/// Name and value of a line, as written. The name is everything before the
/// first delimiter; the value field runs from there to the next delimiter or
/// to the end of the line, and whatever follows it is ignored. `None` when
/// the line has no delimiter or its value field writes no decimal.
pub open spec fn parse_line_spec(line: Seq<u8>) -> Option<(Seq<u8>, Decimal)> {
    match line.index_of_first(DELIMITER) {
        Some(i) => match decimal_of(first_field(line.subrange(i + 1, line.len() as int))) {
            Some(d) => Some((line.subrange(0, i), d)),
            None => None,
        },
        None => None,
    }
}

/// A line fits unless it writes a value whose magnitude is beyond
/// `MAX_UNITS`.
pub open spec fn line_fits(line: Seq<u8>) -> bool {
    match parse_line_spec(line) {
        Some((_, d)) => units_of(d) is Some,
        None => true,
    }
}

/// Name of a line and its value in units. For a line that fits this is
/// `None` exactly when the line writes no name and value.
pub open spec fn line_units(line: Seq<u8>) -> Option<(Seq<u8>, int)> {
    match parse_line_spec(line) {
        Some((name, d)) => match units_of(d) {
            Some(units) => Some((name, units)),
            None => None,
        },
        None => None,
    }
}

/// A line without a delimiter yields nothing, and so does a line whose
/// value field writes no decimal.
pub proof fn lemma_malformed_line(line: Seq<u8>)
    ensures
        !line.contains(DELIMITER) ==> parse_line_spec(line) is None,
        forall|i: int|
            line.index_of_first(DELIMITER) == Some(i) && decimal_of(
                first_field(line.subrange(i + 1, line.len() as int)),
            ) is None ==> parse_line_spec(line) is None,
        parse_line_spec(line) is None ==> line_units(line) is None && line_fits(line),
{
    line.index_of_first_ensures(DELIMITER);
}

/// A position that holds `needle` and has none before it is the first one.
pub proof fn lemma_first_index(s: Seq<u8>, needle: u8, at: int)
    requires
        0 <= at <= s.len(),
        forall|j: int| 0 <= j < at ==> s[j] != needle,
        at < s.len() ==> s[at] == needle,
    ensures
        s.index_of_first(needle) == (if at < s.len() { Some(at) } else { None::<int> }),
{
    s.index_of_first_ensures(needle);
}

/// A run of digits is worth at least as much as any of its prefixes.
proof fn lemma_digits_value_prefix(s: Seq<u8>, k: int)
    requires
        0 <= k <= s.len(),
    ensures
        digits_value(s.subrange(0, k)) <= digits_value(s),
    decreases s.len(),
{
    if k == s.len() {
        assert(s.subrange(0, k) == s);
    } else {
        lemma_digits_value_prefix(s.drop_last(), k);
        assert(s.drop_last().subrange(0, k) == s.subrange(0, k));
    }
}

/// Powers of ten are positive; from the thirty-ninth on they are beyond
/// every magnitude that 128 bits hold.
proof fn lemma_pow10(n: nat)
    ensures
        pow10(n) >= 1,
        n >= 39 ==> pow10(n) >= 1_000_000_000_000_000_000_000_000_000_000_000_000_000,
    decreases n,
{
    if n > 0 {
        lemma_pow10((n - 1) as nat);
    }
    if n == 39 {
        reveal_with_fuel(pow10, 40);
    }
}

/// Powers of ten grow with the exponent.
proof fn lemma_pow10_grows(a: nat, b: nat)
    requires
        a <= b,
    ensures
        pow10(a) <= pow10(b),
    decreases b,
{
    lemma_pow10(a);
    if a < b {
        lemma_pow10_grows(a, (b - 1) as nat);
    }
}

/// Digits whose last counts `10^shift` units are worth their number times
/// `10^shift`.
proof fn lemma_whole_units_scaled(digits: Seq<u8>, shift: int)
    requires
        shift >= 0,
    ensures
        whole_units(digits, shift) == digits_value(digits) * pow10(shift as nat),
    decreases digits.len(),
{
    let unit = pow10(shift as nat);
    if digits.len() == 0 {
        assert(0 * unit == 0) by (nonlinear_arith);
    } else {
        lemma_whole_units_scaled(digits.drop_last(), shift + 1);
        let high = digits_value(digits.drop_last());
        let last = digit_of(digits.last());
        assert(pow10((shift + 1) as nat) == 10 * unit);
        assert(high * (10 * unit) + last * unit == (high * 10 + last) * unit) by (nonlinear_arith);
    }
}

/// Where the last digit counts less than a unit, the whole units are the
/// number of the digits that count a unit or more.
proof fn lemma_whole_units_prefix(digits: Seq<u8>, shift: int)
    requires
        shift < 0,
    ensures
        whole_units(digits, shift) == digits_value(
            digits.subrange(0, if digits.len() + shift > 0 { digits.len() + shift } else { 0 }),
        ),
    decreases digits.len(),
{
    let n = digits.len() as int;
    if n == 0 {
        assert(digits.subrange(0, 0) == digits);
    } else if shift == -1 {
        lemma_whole_units_scaled(digits.drop_last(), 0);
        assert(digits_value(digits.drop_last()) * 1 == digits_value(digits.drop_last()));
        assert(digits.subrange(0, n - 1) == digits.drop_last());
    } else {
        lemma_whole_units_prefix(digits.drop_last(), shift + 1);
        let kept = if n + shift > 0 { n + shift } else { 0 };
        assert(digits.drop_last().subrange(0, kept) == digits.subrange(0, kept));
    }
}

/// The number of a run of digits is that of its first `m` digits, moved
/// left by the length of the rest, plus that of the rest.
proof fn lemma_digits_value_split(digits: Seq<u8>, m: int)
    requires
        0 <= m <= digits.len(),
    ensures
        digits_value(digits) == digits_value(digits.subrange(0, m)) * pow10(
            (digits.len() - m) as nat,
        ) + digits_value(digits.subrange(m, digits.len() as int)),
    decreases digits.len(),
{
    let n = digits.len() as int;
    let head = digits.subrange(0, m);
    let tail = digits.subrange(m, n);
    if m == n {
        assert(head == digits);
        assert(digits_value(digits) * 1 == digits_value(digits));
    } else {
        let short = digits.drop_last();
        lemma_digits_value_split(short, m);
        assert(short.subrange(0, m) == head);
        assert(short.subrange(m, n - 1) == tail.drop_last());
        assert(tail.last() == digits.last());
        let unit = pow10((n - 1 - m) as nat);
        assert(pow10((n - m) as nat) == 10 * unit);
        let h = digits_value(head);
        let t = digits_value(tail.drop_last());
        let last = digit_of(digits.last());
        assert((h * unit + t) * 10 + last == h * (10 * unit) + (t * 10 + last))
            by (nonlinear_arith);
    }
}

/// A run of `n` digits denotes a number below `10^n`.
proof fn lemma_digits_value_bound(digits: Seq<u8>)
    requires
        all_digits(digits),
    ensures
        digits_value(digits) < pow10(digits.len()),
    decreases digits.len(),
{
    if digits.len() > 0 {
        lemma_digits_value_bound(digits.drop_last());
        assert(is_digit(digits[digits.len() - 1]));
    }
}

/// The units of a run of digits are their number times a power of ten
/// where the last digit counts a unit or more, and else their number over a
/// power of ten, rounded to the nearest integer, halves away from zero.
pub proof fn lemma_rounded_units(digits: Seq<u8>, shift: int)
    requires
        all_digits(digits),
    ensures
        shift >= 0 ==> rounded_units(digits, shift) == digits_value(digits) * pow10(shift as nat),
        shift < 0 ==> rounded_units(digits, shift) == rounded_quotient(
            digits_value(digits) as int,
            pow10((-shift) as nat) as int,
        ),
{
    let n = digits.len() as int;
    let number = digits_value(digits);
    if shift >= 0 {
        lemma_whole_units_scaled(digits, shift);
    } else {
        let places = (-shift) as nat;
        let unit = pow10(places);
        lemma_pow10(places);
        lemma_whole_units_prefix(digits, shift);
        if places > n {
            lemma_digits_value_bound(digits);
            lemma_pow10_grows(n as nat, (places - 1) as nat);
            assert(unit == 10 * pow10((places - 1) as nat));
            assert(digits.subrange(0, 0) == Seq::<u8>::empty());
            assert(number == unit * 0 + number) by (nonlinear_arith);
            lemma_rounding(number as int, unit as int, 0, number as int);
        } else {
            let m = n - places;
            let head = digits.subrange(0, m);
            let tail = digits.subrange(m, n);
            lemma_digits_value_split(digits, m);
            assert(all_digits(tail)) by {
                assert forall|i: int| 0 <= i < tail.len() implies is_digit(#[trigger] tail[i]) by {
                    assert(is_digit(digits[m + i]));
                }
            }
            lemma_digits_value_bound(tail);
            // the first digit of the tail decides the rounding
            lemma_digits_value_split(tail, 1);
            let rest = tail.subrange(1, tail.len() as int);
            assert(all_digits(rest)) by {
                assert forall|i: int| 0 <= i < rest.len() implies is_digit(#[trigger] rest[i]) by {
                    assert(is_digit(tail[1 + i]));
                }
            }
            lemma_digits_value_bound(rest);
            let first = tail.subrange(0, 1);
            assert(first.drop_last() == Seq::<u8>::empty());
            assert(digits_value(first.drop_last()) == 0);
            assert(digits_value(first) == digit_of(tail[0]));
            assert(tail[0] == digits[m]);
            let small = pow10((places - 1) as nat);
            assert(unit == 10 * small);
            let low = digits_value(tail);
            let d = digit_of(tail[0]);
            assert((low >= unit - low) == (d >= 5)) by (nonlinear_arith)
                requires
                    low == d * small + digits_value(rest),
                    0 <= digits_value(rest) < small,
                    unit == 10 * small,
                    d >= 0,
            ;
            assert(number == unit * digits_value(head) + low) by (nonlinear_arith)
                requires
                    number == digits_value(head) * unit + low,
            ;
            lemma_rounding(number as int, unit as int, digits_value(head) as int, low as int);
        }
    }
}

/// A decimal that is a whole number of units is read exactly: where the
/// power of ten divides the number of the digits, nothing is rounded away.
pub proof fn lemma_scaled_magnitude_exact(digits: Seq<u8>, shift: int)
    requires
        shift < 0,
        digits_value(digits) % pow10((-shift) as nat) == 0,
    ensures
        scaled_magnitude(digits, shift) * pow10((-shift) as nat) == digits_value(digits),
{
    let number = digits_value(digits) as int;
    let unit = pow10((-shift) as nat) as int;
    lemma_pow10((-shift) as nat);
    vstd::arithmetic::div_mod::lemma_fundamental_div_mod(number, unit);
    vstd::arithmetic::div_mod::lemma_div_pos_is_pos(number, unit);
    lemma_rounding(number, unit, number / unit, 0);
    assert((number / unit) * unit == unit * (number / unit)) by (nonlinear_arith);
}

/// Digits that are all zero are worth nothing.
proof fn lemma_whole_units_zero(digits: Seq<u8>, shift: int)
    requires
        forall|i: int| 0 <= i < digits.len() ==> digit_of(#[trigger] digits[i]) == 0,
    ensures
        whole_units(digits, shift) == 0,
    decreases digits.len(),
{
    if digits.len() > 0 {
        lemma_whole_units_zero(digits.drop_last(), shift + 1);
        assert(digit_of(digits[digits.len() - 1]) == 0);
        if shift >= 0 {
            assert(0 * pow10(shift as nat) == 0) by (nonlinear_arith);
        }
    }
}

/// A digit other than zero that counts `10^39` units or more is worth more
/// than 128 bits hold.
proof fn lemma_whole_units_above(digits: Seq<u8>, shift: int, i: int)
    requires
        0 <= i < digits.len(),
        digit_of(digits[i]) >= 1,
        shift >= 39,
    ensures
        whole_units(digits, shift) >= 1_000_000_000_000_000_000_000_000_000_000_000_000_000,
    decreases digits.len(),
{
    if i == digits.len() - 1 {
        lemma_pow10(shift as nat);
        assert(digit_of(digits.last()) * pow10(shift as nat) >= pow10(shift as nat))
            by (nonlinear_arith)
            requires
                digit_of(digits.last()) >= 1,
        ;
    } else {
        lemma_whole_units_above(digits.drop_last(), shift + 1, i);
    }
}

/// Digits that all count less than a tenth of a unit round to nothing.
proof fn lemma_whole_units_below(digits: Seq<u8>, shift: int)
    requires
        shift + digits.len() < 0,
    ensures
        rounded_units(digits, shift) == 0,
    decreases digits.len(),
{
    if digits.len() > 0 {
        lemma_whole_units_below(digits.drop_last(), shift + 1);
    }
}

/// Index of the first `needle` at or after `from`, or the length of `bytes`.
pub fn find_byte(bytes: &[u8], from: usize, needle: u8) -> (at: usize)
    requires
        from <= bytes.len(),
    ensures
        from <= at <= bytes.len(),
        forall|j: int| from <= j < at ==> bytes@[j] != needle,
        at < bytes.len() ==> bytes@[at as int] == needle,
{
    let mut at = from;
    while at < bytes.len() && bytes[at] != needle
        invariant
            from <= at <= bytes.len(),
            forall|j: int| from <= j < at ==> bytes@[j] != needle,
        decreases bytes.len() - at,
    {
        at += 1;
    }
    at
}

/// End of the run of digits that starts at `from`.
fn digit_run_end(bytes: &[u8], from: usize) -> (at: usize)
    requires
        from <= bytes.len(),
    ensures
        from <= at <= bytes.len(),
        at == digit_run(bytes@, from as int),
        all_digits(bytes@.subrange(from as int, at as int)),
{
    let mut at = from;
    while at < bytes.len() && ZERO <= bytes[at] && bytes[at] <= ZERO + 9
        invariant
            from <= at <= bytes.len(),
            digit_run(bytes@, from as int) == digit_run(bytes@, at as int),
            all_digits(bytes@.subrange(from as int, at as int)),
        decreases bytes.len() - at,
    {
        at += 1;
    }
    at
}

/// Value of the digits in `bytes[from..to]`, unless it exceeds `limit`.
fn bounded_value(bytes: &[u8], from: usize, to: usize, limit: u128) -> (r: Option<u128>)
    requires
        from <= to <= bytes.len(),
        all_digits(bytes@.subrange(from as int, to as int)),
        limit <= 1_000_000_000_000_000_000_000_000_000_000,
    ensures
        match r {
            Some(v) => v == digits_value(bytes@.subrange(from as int, to as int)) && v <= limit,
            None => digits_value(bytes@.subrange(from as int, to as int)) > limit,
        },
{
    let ghost run = bytes@.subrange(from as int, to as int);
    let mut value: u128 = 0;
    let mut at = from;
    while at < to
        invariant
            from <= at <= to <= bytes.len(),
            run == bytes@.subrange(from as int, to as int),
            all_digits(run),
            value == digits_value(run.subrange(0, at - from)),
            value <= limit <= 1_000_000_000_000_000_000_000_000_000_000,
        decreases to - at,
    {
        assert(is_digit(run[at - from]) && run[at - from] == bytes@[at as int]);
        let digit = (bytes[at] - ZERO) as u128;
        proof {
            let next = run.subrange(0, at - from + 1);
            assert(next.drop_last() == run.subrange(0, at - from));
        }
        value = value * 10 + digit;
        at += 1;
        if value > limit {
            proof {
                lemma_digits_value_prefix(run, at - from);
            }
            return None;
        }
    }
    proof {
        assert(run.subrange(0, at - from) == run);
    }
    Some(value)
}

/// Tells whether the digits in `bytes[from..to]` are all zero.
fn zero_run(bytes: &[u8], from: usize, to: usize) -> (r: bool)
    requires
        from <= to <= bytes.len(),
    ensures
        r == forall|j: int| from <= j < to ==> bytes@[j] == ZERO,
{
    let mut at = from;
    while at < to
        invariant
            from <= at <= to <= bytes.len(),
            forall|j: int| from <= j < at ==> bytes@[j] == ZERO,
        decreases to - at,
    {
        if bytes[at] != ZERO {
            return false;
        }
        at += 1;
    }
    true
}

/// What a value field holds.
pub enum Reading {
    /// A decimal, in units.
    Value(i128),
    /// No decimal.
    Malformed,
    /// A decimal whose magnitude is beyond `MAX_UNITS`.
    TooLarge,
}

/// The reading of a value field.
pub open spec fn reading_of(field: Seq<u8>) -> Reading {
    match decimal_of(field) {
        Some(d) => match units_of(d) {
            Some(units) => Reading::Value(units as i128),
            None => Reading::TooLarge,
        },
        None => Reading::Malformed,
    }
}

/// Units of the mantissa whose digits are `bytes[start..whole_end]` and
/// `bytes[fraction_start..end]`, the last digit counting `10^shift` units,
/// rounded to the nearest unit; `None` where they exceed `MAX_UNITS`.
fn mantissa_units(
    bytes: &[u8],
    start: usize,
    whole_end: usize,
    fraction_start: usize,
    end: usize,
    shift: i128,
) -> (r: Option<u128>)
    requires
        start <= whole_end <= fraction_start <= end <= bytes.len(),
        all_digits(bytes@.subrange(start as int, whole_end as int)),
        all_digits(bytes@.subrange(fraction_start as int, end as int)),
        -0x1_0000_0000_0000_0000_0000_0000 <= shift <= 0x1_0000_0000_0000_0000_0000_0000,
    ensures
        ({
            let units = rounded_units(
                bytes@.subrange(start as int, whole_end as int) + bytes@.subrange(
                    fraction_start as int,
                    end as int,
                ),
                shift as int,
            );
            if units <= MAX_UNITS {
                r == Some(units as u128)
            } else {
                r is None
            }
        }),
{
    let ghost digits = bytes@.subrange(start as int, whole_end as int) + bytes@.subrange(
        fraction_start as int,
        end as int,
    );
    let whole_len = whole_end - start;
    let count = whole_len + (end - fraction_start);
    let mut acc: u128 = 0;
    let mut bad = false;
    let mut at: usize = 0;
    proof {
        assert(digits.subrange(0, 0) == Seq::<u8>::empty());
        assert(0 * pow10((shift + count) as nat) == 0) by (nonlinear_arith);
    }
    while at < count
        invariant
            start <= whole_end <= fraction_start <= end <= bytes.len(),
            whole_len == whole_end - start,
            count == whole_len + (end - fraction_start),
            digits == bytes@.subrange(start as int, whole_end as int) + bytes@.subrange(
                fraction_start as int,
                end as int,
            ),
            all_digits(bytes@.subrange(start as int, whole_end as int)),
            all_digits(bytes@.subrange(fraction_start as int, end as int)),
            -0x1_0000_0000_0000_0000_0000_0000 <= shift <= 0x1_0000_0000_0000_0000_0000_0000,
            at <= count,
            acc <= MAX_UNITS,
            ({
                let units = whole_units(digits.subrange(0, at as int), shift + count - at);
                if bad {
                    units > MAX_UNITS
                } else if shift + count - at >= 0 {
                    units == acc * pow10((shift + count - at) as nat)
                } else {
                    units == acc
                }
            }),
        decreases count - at,
    {
        let place: usize = if at < whole_len { start + at } else { fraction_start + (at - whole_len) };
        let weight: i128 = shift + (count - at - 1) as i128;
        proof {
            if at < whole_len {
                assert(is_digit(bytes@.subrange(start as int, whole_end as int)[at as int]));
            } else {
                assert(is_digit(
                    bytes@.subrange(fraction_start as int, end as int)[at - whole_len],
                ));
            }
            assert(digits[at as int] == bytes@[place as int]);
            let next = digits.subrange(0, at + 1);
            assert(next.drop_last() == digits.subrange(0, at as int));
            assert(next.last() == digits[at as int]);
            lemma_pow10((if weight >= 0 { weight } else { 0 }) as nat);
        }
        let digit = (bytes[place] - ZERO) as u128;
        if !bad {
            if weight >= 0 {
                let ghost unit = pow10(weight as nat);
                assert(pow10((weight + 1) as nat) == 10 * unit);
                assert(acc * (10 * unit) + digit * unit == (acc * 10 + digit) * unit
                    && (acc * 10 + digit) * unit >= acc * 10 + digit) by (nonlinear_arith)
                    requires
                        unit >= 1,
                        acc >= 0,
                        digit >= 0,
                ;
                if acc > (MAX_UNITS - digit) / 10 {
                    bad = true;
                } else {
                    acc = acc * 10 + digit;
                }
            } else {
                assert(weight + 1 >= 0 ==> pow10((weight + 1) as nat) == 1);
                assert(acc * 1 == acc);
            }
        }
        at += 1;
    }
    proof {
        assert(digits.subrange(0, count as int) == digits);
    }
    if bad {
        return None;
    }
    if shift < 0 {
        let tenth: i128 = count as i128 + shift;
        let up = if 0 <= tenth {
            let at = tenth as usize;
            let place: usize = if at < whole_len { start + at } else { fraction_start + (at - whole_len) };
            proof {
                if at < whole_len {
                    assert(is_digit(bytes@.subrange(start as int, whole_end as int)[at as int]));
                } else {
                    assert(is_digit(
                        bytes@.subrange(fraction_start as int, end as int)[at - whole_len],
                    ));
                }
                assert(digits[at as int] == bytes@[place as int]);
            }
            bytes[place] >= ZERO + 5
        } else {
            false
        };
        return if !up {
            Some(acc)
        } else if acc < MAX_UNITS {
            Some(acc + 1)
        } else {
            None
        };
    }
    if shift == 0 || acc == 0 {
        proof {
            assert(acc == 0 ==> acc * pow10(shift as nat) == 0) by (nonlinear_arith);
            assert(acc * 1 == acc);
        }
        return Some(acc);
    }
    if shift > 38 {
        proof {
            lemma_pow10(shift as nat);
            assert(acc * pow10(shift as nat) >= pow10(shift as nat)) by (nonlinear_arith)
                requires
                    acc >= 1,
            ;
        }
        return None;
    }
    let mut units: u128 = acc;
    let mut left: i128 = shift;
    while left > 0
        invariant
            0 <= left <= shift <= 38,
            units <= MAX_UNITS,
            units * pow10(left as nat) == acc * pow10(shift as nat),
            digits == bytes@.subrange(start as int, whole_end as int) + bytes@.subrange(
                fraction_start as int,
                end as int,
            ),
            rounded_units(digits, shift as int) == acc * pow10(shift as nat),
        decreases left,
    {
        proof {
            let unit = pow10((left - 1) as nat);
            lemma_pow10((left - 1) as nat);
            assert(units * (10 * unit) == (units * 10) * unit && (units * 10) * unit >= units * 10)
                by (nonlinear_arith)
                requires
                    unit >= 1,
                    units >= 0,
            ;
        }
        if units > MAX_UNITS / 10 {
            return None;
        }
        units = units * 10;
        left = left - 1;
    }
    proof {
        assert(units * 1 == units);
    }
    Some(units)
}

/// Above this magnitude an exponent moves every digit beyond the units
/// that can be held, on one side or the other.
const EXPONENT_CAP: u128 = 1_000_000_000_000_000_000_000_000;

/// How an exponent stands to `EXPONENT_CAP`.
enum Exponent {
    Exact(i128),
    Above,
    Below,
}

/// The standing of an exponent.
spec fn exponent_standing(exponent: int) -> Exponent {
    if exponent > EXPONENT_CAP {
        Exponent::Above
    } else if exponent < -EXPONENT_CAP {
        Exponent::Below
    } else {
        Exponent::Exact(exponent as i128)
    }
}

/// Reads the exponent written from `at` to the end of `field`; `None`
/// where something else is written there.
fn read_exponent(field: &[u8], at: usize) -> (r: Option<Exponent>)
    requires
        at <= field.len(),
    ensures
        match exponent_of(field@, at as int) {
            Some(exponent) => r == Some(exponent_standing(exponent)),
            None => r is None,
        },
{
    let len = field.len();
    if at == len {
        return Some(Exponent::Exact(0));
    }
    if field[at] != LOWER_E && field[at] != UPPER_E {
        return None;
    }
    let signed = at + 1 < len && (field[at + 1] == MINUS || field[at + 1] == PLUS);
    let negative = signed && field[at + 1] == MINUS;
    let from: usize = if signed { at + 2 } else { at + 1 };
    let to = digit_run_end(field, from);
    if from == to || to < len {
        return None;
    }
    match bounded_value(field, from, to, EXPONENT_CAP) {
        Some(size) => if negative {
            Some(Exponent::Exact(0 - size as i128))
        } else {
            Some(Exponent::Exact(size as i128))
        },
        None => if negative {
            Some(Exponent::Below)
        } else {
            Some(Exponent::Above)
        },
    }
}

/// Units of a mantissa under an exponent of the given standing, rounded to
/// the nearest unit; `None` where they exceed `MAX_UNITS`.
fn scaled_units(
    bytes: &[u8],
    start: usize,
    whole_end: usize,
    fraction_start: usize,
    end: usize,
    standing: Exponent,
    Ghost(exponent): Ghost<int>,
) -> (r: Option<u128>)
    requires
        start <= whole_end <= fraction_start <= end <= bytes.len(),
        all_digits(bytes@.subrange(start as int, whole_end as int)),
        all_digits(bytes@.subrange(fraction_start as int, end as int)),
        standing == exponent_standing(exponent),
    ensures
        ({
            let units = scaled_magnitude(
                bytes@.subrange(start as int, whole_end as int) + bytes@.subrange(
                    fraction_start as int,
                    end as int,
                ),
                exponent - (end - fraction_start) + SCALE,
            );
            if units <= MAX_UNITS {
                r == Some(units as u128)
            } else {
                r is None
            }
        }),
{
    let ghost digits = bytes@.subrange(start as int, whole_end as int) + bytes@.subrange(
        fraction_start as int,
        end as int,
    );
    let ghost shift = exponent - (end - fraction_start) + SCALE;
    proof {
        assert forall|i: int| 0 <= i < digits.len() implies is_digit(#[trigger] digits[i]) by {
            if i < whole_end - start {
                assert(is_digit(bytes@.subrange(start as int, whole_end as int)[i]));
            } else {
                assert(is_digit(
                    bytes@.subrange(fraction_start as int, end as int)[i - (whole_end - start)],
                ));
            }
        }
        lemma_rounded_units(digits, shift);
    }
    match standing {
        Exponent::Exact(exact) => {
            let shift: i128 = exact - (end - fraction_start) as i128 + SCALE as i128;
            mantissa_units(bytes, start, whole_end, fraction_start, end, shift)
        },
        Exponent::Below => {
            proof {
                lemma_whole_units_below(digits, shift);
            }
            Some(0)
        },
        Exponent::Above => {
            if zero_run(bytes, start, whole_end) && zero_run(bytes, fraction_start, end) {
                proof {
                    lemma_whole_units_zero(digits, shift);
                }
                Some(0)
            } else {
                proof {
                    let place = choose|j: int|
                        (start <= j < whole_end || fraction_start <= j < end) && bytes@[j] != ZERO;
                    let i = if place < whole_end {
                        place - start
                    } else {
                        whole_end - start + (place - fraction_start)
                    };
                    if place < whole_end {
                        assert(is_digit(bytes@.subrange(start as int, whole_end as int)[i]));
                    } else {
                        assert(is_digit(
                            bytes@.subrange(fraction_start as int, end as int)[place
                                - fraction_start],
                        ));
                    }
                    assert(digits[i] == bytes@[place]);
                    lemma_whole_units_above(digits, shift, i);
                }
                None
            }
        },
    }
}

/// Reads a value field.
pub fn read_value(field: &[u8]) -> (r: Reading)
    ensures
        r == reading_of(field@),
{
    let len = field.len();
    let signed = len > 0 && (field[0] == MINUS || field[0] == PLUS);
    let start: usize = if signed { 1 } else { 0 };
    let whole_end = digit_run_end(field, start);
    let fraction_start: usize = if whole_end < len && field[whole_end] == POINT {
        whole_end + 1
    } else {
        whole_end
    };
    let end = digit_run_end(field, fraction_start);
    assert(start == mantissa_start(field@) && whole_end == self::whole_end(field@)
        && fraction_start == self::fraction_start(field@) && end == mantissa_end(field@));
    if (whole_end - start) + (end - fraction_start) == 0 {
        return Reading::Malformed;
    }
    match read_exponent(field, end) {
        None => Reading::Malformed,
        Some(standing) => {
            let ghost exponent = exponent_of(field@, end as int).unwrap();
            match scaled_units(
                field,
                start,
                whole_end,
                fraction_start,
                end,
                standing,
                Ghost(exponent),
            ) {
                Some(units) => if signed && field[0] == MINUS {
                    Reading::Value(0 - units as i128)
                } else {
                    Reading::Value(units as i128)
                },
                None => Reading::TooLarge,
            }
        },
    }
}

/// Where the name of a line ends, and the reading of its value field;
/// `None` for a line without a delimiter.
fn read_line(line: &[u8]) -> (r: Option<(usize, Reading)>)
    ensures
        match r {
            Some((name_end, reading)) => line@.index_of_first(DELIMITER) == Some(name_end as int)
                && name_end < line.len() && reading == reading_of(
                first_field(line@.subrange(name_end + 1, line.len() as int)),
            ),
            None => line@.index_of_first(DELIMITER) is None,
        },
{
    let len = line.len();
    let name_end = find_byte(line, 0, DELIMITER);
    proof {
        lemma_first_index(line@, DELIMITER, name_end as int);
    }
    if name_end == len {
        return None;
    }
    let value_end = find_byte(line, name_end + 1, DELIMITER);
    let field = slice_subrange(line, name_end + 1, value_end);
    proof {
        let rest = line@.subrange(name_end + 1, len as int);
        lemma_first_index(rest, DELIMITER, value_end - name_end - 1);
        assert(rest.subrange(0, value_end - name_end - 1) == field@);
        if value_end == len {
            assert(rest == field@);
        }
    }
    Some((name_end, read_value(field)))
}

/// Tells whether a line fits.
pub fn fits(line: &[u8]) -> (r: bool)
    ensures
        r == line_fits(line@),
{
    match read_line(line) {
        Some((_, Reading::TooLarge)) => false,
        _ => true,
    }
}

/// Splits a line into its station name and its value in units. The result
/// is `None` exactly when the line has no delimiter or its value field
/// writes no decimal.
pub fn parse_line(line: &[u8]) -> (r: Option<(Vec<u8>, i128)>)
    requires
        line_fits(line@),
    ensures
        r is Some <==> parse_line_spec(line@) is Some,
        match r {
            Some((name, value)) => line_units(line@) == Some((name@, value as int)),
            None => line_units(line@) is None,
        },
{
    match read_line(line) {
        Some((name_end, Reading::Value(value))) => {
            let name = slice_to_vec(slice_subrange(line, 0, name_end));
            Some((name, value))
        },
        _ => None,
    }
}

} // verus!
