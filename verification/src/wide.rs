//! A signed integer of 192 bits: wide enough for the exact sum of as many
//! 128-bit values as a 64-bit counter can count.

use crate::station::lemma_rounded_quotient_bounds;
use crate::station::rounded_quotient;
use vstd::prelude::*;

verus! {

/// Two to the power 64: what one step of the high part is worth.
pub const BASE: u128 = 0x1_0000_0000_0000_0000;

/// Two to the power 127: one more than the largest 128-bit value.
pub const HALF: u128 = 0x8000_0000_0000_0000_0000_0000_0000_0000;

/// Largest magnitude of a sum that a wide integer is asked to hold: that of
/// `2^64 - 1` values of magnitude `2^127`.
pub open spec fn wide_limit() -> int {
    0x7fff_ffff_ffff_ffff_8000_0000_0000_0000_0000_0000_0000_0000int
}

/// A signed integer of 192 bits. Its value is `high * 2^64 + low`.
#[derive(Clone, Copy, Debug)]
pub struct Wide {
    high: i128,
    low: u64,
}

impl View for Wide {
    type V = int;

    closed spec fn view(&self) -> int {
        self.high * BASE + self.low
    }
}

/// `value / step` rounded to the nearest integer, halves away from zero.
pub fn rounded_div(value: i128, step: u128) -> (r: i128)
    requires
        step >= 1,
    ensures
        r == rounded_quotient(value as int, step as int),
{
    let negative = value < 0;
    let magnitude: u128 = if value == i128::MIN {
        HALF
    } else if negative {
        (0 - value) as u128
    } else {
        value as u128
    };
    let quotient: u128 = magnitude / step;
    let rest: u128 = magnitude % step;
    let up = rest >= step - rest;
    proof {
        vstd::arithmetic::div_mod::lemma_fundamental_div_mod(magnitude as int, step as int);
        assert(quotient <= magnitude && (up ==> quotient + 1 <= magnitude)) by (nonlinear_arith)
            requires
                magnitude as int == step as int * quotient as int + rest as int,
                up == (rest >= step - rest),
                0 <= rest < step,
                quotient >= 0,
        ;
    }
    let rounded: u128 = if up { quotient + 1 } else { quotient };
    proof {
        lemma_rounding(magnitude as int, step as int, quotient as int, rest as int);
    }
    signed(negative, rounded)
}

/// Rounding a quotient by its remainder: from `n == d * q + r` the rounded
/// quotient is `q`, or `q + 1` where the remainder is half of `d` or more.
pub proof fn lemma_rounding(n: int, d: int, q: int, r: int)
    requires
        n >= 0,
        d >= 1,
        n == d * q + r,
        0 <= r < d,
    ensures
        rounded_quotient(n, d) == if r >= d - r { q + 1 } else { q },
        n > 0 ==> rounded_quotient(-n, d) == -(if r >= d - r { q + 1 } else { q }),
{
    let up = r >= d - r;
    let rounded = if up { q + 1 } else { q };
    let rest = if up { 2 * r - d } else { 2 * r + d };
    assert(2 * n + d == rounded * (2 * d) + rest) by (nonlinear_arith)
        requires
            n == d * q + r,
            rounded == if up { q + 1 } else { q },
            rest == if up { 2 * r - d } else { 2 * r + d },
    ;
    vstd::arithmetic::div_mod::lemma_fundamental_div_mod_converse(
        2 * n + d,
        2 * d,
        rounded,
        rest,
    );
}

/// The 128-bit value of a magnitude and a sign.
fn signed(negative: bool, magnitude: u128) -> (r: i128)
    requires
        magnitude <= if negative { HALF } else { (HALF - 1) as u128 },
    ensures
        r == if negative { -(magnitude as int) } else { magnitude as int },
{
    if !negative {
        magnitude as i128
    } else if magnitude == HALF {
        i128::MIN
    } else {
        0 - magnitude as i128
    }
}

impl Wide {
    /// The wide integer of a 128-bit value.
    pub fn from_i128(value: i128) -> (r: Wide)
        ensures
            r@ == value,
    {
        if value >= 0 {
            let magnitude = value as u128;
            Wide { high: (magnitude / BASE) as i128, low: (magnitude % BASE) as u64 }
        } else if value == i128::MIN {
            Wide { high: -0x8000_0000_0000_0000, low: 0 }
        } else {
            let magnitude = (0 - value) as u128;
            let whole = (magnitude / BASE) as i128;
            let rest = magnitude % BASE;
            if rest == 0 {
                Wide { high: 0 - whole, low: 0 }
            } else {
                Wide { high: 0 - whole - 1, low: (BASE - rest) as u64 }
            }
        }
    }

    /// The 128-bit value of a wide integer that has one.
    pub fn to_i128(self) -> (r: Option<i128>)
        ensures
            match r {
                Some(value) => value == self@,
                None => self@ < i128::MIN || self@ > i128::MAX,
            },
    {
        if -0x8000_0000_0000_0000 <= self.high && self.high < 0x8000_0000_0000_0000 {
            let base: i128 = 0x1_0000_0000_0000_0000;
            assert(-0x8000_0000_0000_0000_0000_0000_0000_0000 <= self.high * base
                <= 0x7fff_ffff_ffff_ffff_0000_0000_0000_0000) by (nonlinear_arith)
                requires
                    -0x8000_0000_0000_0000 <= self.high < 0x8000_0000_0000_0000,
                    base == 0x1_0000_0000_0000_0000,
            ;
            Some(self.high * base + self.low as i128)
        } else {
            assert(self.high * BASE <= -0x8000_0000_0000_0001 * 0x1_0000_0000_0000_0000int
                || self.high * BASE >= 0x8000_0000_0000_0000 * 0x1_0000_0000_0000_0000int)
                by (nonlinear_arith)
                requires
                    self.high < -0x8000_0000_0000_0000 || self.high >= 0x8000_0000_0000_0000,
                    BASE == 0x1_0000_0000_0000_0000,
            ;
            None
        }
    }

    /// The sum of two wide integers.
    pub fn plus(self, other: Wide) -> (r: Wide)
        requires
            -wide_limit() <= self@ + other@ <= wide_limit(),
        ensures
            r@ == self@ + other@,
    {
        let low: u128 = self.low as u128 + other.low as u128;
        if low >= BASE {
            Wide { high: self.high + other.high + 1, low: (low - BASE) as u64 }
        } else {
            Wide { high: self.high + other.high, low: low as u64 }
        }
    }

    /// This integer over `count * step`, rounded to the nearest integer,
    /// halves away from zero.
    pub fn rounded_div(self, count: u64, step: u64) -> (r: i128)
        requires
            count >= 1,
            step >= 1,
            -(count * HALF) <= self@ <= count * (HALF - 1),
        ensures
            r == rounded_quotient(self@, count * step),
    {
        let negative = self.high < 0;
        let (top, bottom): (u128, u64) = if !negative {
            (self.high as u128, self.low)
        } else if self.low == 0 {
            ((0 - self.high) as u128, 0)
        } else {
            ((0 - (self.high + 1)) as u128, (BASE - self.low as u128) as u64)
        };
        let ghost magnitude: int = if negative { -self@ } else { self@ };
        assert(magnitude == top * BASE + bottom);
        assert(count * (HALF - 1) <= count * HALF) by (nonlinear_arith);
        assert(top <= count * 0x8000_0000_0000_0000) by (nonlinear_arith)
            requires
                magnitude == top * BASE + bottom,
                bottom >= 0,
                magnitude <= count * HALF,
                BASE == 0x1_0000_0000_0000_0000,
                HALF == 0x8000_0000_0000_0000_0000_0000_0000_0000,
        ;
        let c = count as u128;
        let t = step as u128;
        // by the count, limb by limb
        let a = top / c;
        let ra = top % c;
        let cur = ra * BASE + bottom as u128;
        let b = cur / c;
        let rb = cur % c;
        proof {
            vstd::arithmetic::div_mod::lemma_fundamental_div_mod(top as int, c as int);
            vstd::arithmetic::div_mod::lemma_fundamental_div_mod(cur as int, c as int);
            assert(b < BASE && a <= 0x8000_0000_0000_0000) by (nonlinear_arith)
                requires
                    cur == c * b + rb,
                    0 <= rb < c,
                    cur < c * BASE,
                    top == c * a + ra,
                    0 <= ra,
                    top <= c * 0x8000_0000_0000_0000,
                    c >= 1,
            ;
        }
        // by the step, limb by limb
        let a2 = a / t;
        let ra2 = a % t;
        let cur2 = ra2 * BASE + b;
        let b2 = cur2 / t;
        let rb2 = cur2 % t;
        proof {
            vstd::arithmetic::div_mod::lemma_fundamental_div_mod(a as int, t as int);
            vstd::arithmetic::div_mod::lemma_fundamental_div_mod(cur2 as int, t as int);
            assert(b2 < BASE && a2 <= a && rb2 * c + rb < t * c && t * c <= u128::MAX)
                by (nonlinear_arith)
                requires
                    cur2 == t * b2 + rb2,
                    0 <= rb2 < t,
                    cur2 < t * BASE,
                    a == t * a2 + ra2,
                    0 <= ra2,
                    a2 >= 0,
                    t >= 1,
                    0 <= rb < c,
                    c <= 0xffff_ffff_ffff_ffff,
                    t <= 0xffff_ffff_ffff_ffff,
            ;
        }
        let quotient = a2 * BASE + b2;
        let rest = rb2 * c + rb;
        let divisor = t * c;
        let up = rest >= divisor - rest;
        proof {
            assert(magnitude == divisor * quotient + rest) by (nonlinear_arith)
                requires
                    magnitude == top * BASE + bottom,
                    top == c * a + ra,
                    cur == ra * BASE + bottom,
                    cur == c * b + rb,
                    a == t * a2 + ra2,
                    cur2 == ra2 * BASE + b,
                    cur2 == t * b2 + rb2,
                    quotient == a2 * BASE + b2,
                    rest == rb2 * c + rb,
                    divisor == t * c,
            ;
            lemma_rounding(magnitude, divisor as int, quotient as int, rest as int);
            assert(divisor * (-(HALF as int)) <= self@ <= divisor * (HALF - 1)) by (nonlinear_arith)
                requires
                    divisor == t * c,
                    t >= 1,
                    c >= 1,
                    -(c * HALF) <= self@ <= c * (HALF - 1),
            ;
            lemma_rounded_quotient_bounds(self@, divisor as int, -(HALF as int), HALF - 1);
            assert(count * step == divisor) by (nonlinear_arith)
                requires
                    divisor == t * c,
                    t == step,
                    c == count,
            ;
        }
        let rounded: u128 = if up { quotient + 1 } else { quotient };
        signed(negative, rounded)
    }
}

} // verus!
