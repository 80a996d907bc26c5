//! Running statistics of one station: a commutative monoid under `merge_spec`.

use crate::wide::rounded_div;
use crate::wide::wide_limit;
use crate::wide::HALF;
use crate::wide::Wide;
use vstd::prelude::*;

verus! {

/// Mathematical value of an accumulator. Measurements are whole numbers of
/// units; the total is their exact sum.
pub struct StationView {
    pub min: int,
    pub max: int,
    pub total: int,
    pub count: nat,
}

/// The accumulator that has seen nothing.
pub open spec fn identity_view() -> StationView {
    StationView { min: 0, max: 0, total: 0, count: 0 }
}

/// The accumulator that has seen exactly `value`.
pub open spec fn single_view(value: int) -> StationView {
    StationView { min: value, max: value, total: value, count: 1 }
}

/// Combination of two accumulators. An accumulator without observations is
/// absorbed, so its extremes never take part in a comparison.
pub open spec fn merge_spec(a: StationView, b: StationView) -> StationView {
    if a.count == 0 {
        b
    } else if b.count == 0 {
        a
    } else {
        StationView {
            min: if a.min <= b.min { a.min } else { b.min },
            max: if a.max >= b.max { a.max } else { b.max },
            total: a.total + b.total,
            count: a.count + b.count,
        }
    }
}

/// An accumulator is valid when it is the identity, or when its total lies
/// between `count` times its minimum and `count` times its maximum.
pub open spec fn valid_view(a: StationView) -> bool {
    if a.count == 0 {
        a == identity_view()
    } else {
        &&& a.min <= a.max
        &&& a.count * a.min <= a.total
        &&& a.total <= a.count * a.max
    }
}

/// `total / count` rounded to the nearest integer, halves away from zero.
pub open spec fn rounded_quotient(total: int, count: int) -> int
    recommends
        count > 0,
{
    if total >= 0 {
        (2 * total + count) / (2 * count)
    } else {
        -((2 * (-total) + count) / (2 * count))
    }
}

/// Mean of a non-empty accumulator in steps of `step` units: the exact total
/// over `count * step`, rounded once, halves away from zero.
pub open spec fn mean_in(a: StationView, step: int) -> int
    recommends
        a.count > 0,
        step > 0,
{
    rounded_quotient(a.total, a.count * step)
}

/// The identity is neutral on both sides of a valid accumulator.
pub proof fn lemma_merge_identity(a: StationView)
    requires
        valid_view(a),
    ensures
        merge_spec(a, identity_view()) == a,
        merge_spec(identity_view(), a) == a,
{
}

/// Merging is associative, totals included: they are exact integers.
pub proof fn lemma_merge_associative(a: StationView, b: StationView, c: StationView)
    ensures
        merge_spec(merge_spec(a, b), c) == merge_spec(a, merge_spec(b, c)),
{
}

/// Merging valid accumulators is commutative.
pub proof fn lemma_merge_commutative(a: StationView, b: StationView)
    requires
        valid_view(a),
        valid_view(b),
    ensures
        merge_spec(a, b) == merge_spec(b, a),
{
}

/// No observation is lost or counted twice by a merge.
pub proof fn lemma_merge_count(a: StationView, b: StationView)
    ensures
        merge_spec(a, b).count == a.count + b.count,
{
}

/// After a value is merged in, it lies between the new extremes, and the
/// extremes of an accumulator that had observations have not moved inwards.
pub proof fn lemma_merge_bounds(a: StationView, value: int)
    ensures
        merge_spec(a, single_view(value)).min <= value <= merge_spec(a, single_view(value)).max,
        a.count > 0 ==> merge_spec(a, single_view(value)).min <= a.min,
        a.count > 0 ==> merge_spec(a, single_view(value)).max >= a.max,
        a.count > 0 && a.min <= value ==> merge_spec(a, single_view(value)).min == a.min,
        a.count > 0 && a.max >= value ==> merge_spec(a, single_view(value)).max == a.max,
{
}

/// Merging any two accumulators keeps every extreme seen by either side.
pub proof fn lemma_merge_extremes(a: StationView, b: StationView)
    requires
        a.count > 0,
        b.count > 0,
    ensures
        merge_spec(a, b).min <= a.min,
        merge_spec(a, b).min <= b.min,
        merge_spec(a, b).max >= a.max,
        merge_spec(a, b).max >= b.max,
        merge_spec(a, b).min == a.min || merge_spec(a, b).min == b.min,
        merge_spec(a, b).max == a.max || merge_spec(a, b).max == b.max,
{
}

/// Validity is kept by merging.
pub proof fn lemma_merge_valid(a: StationView, b: StationView)
    requires
        valid_view(a),
        valid_view(b),
    ensures
        valid_view(merge_spec(a, b)),
{
    if a.count > 0 && b.count > 0 {
        let m = merge_spec(a, b);
        assert(a.count * m.min <= a.count * a.min) by (nonlinear_arith)
            requires
                a.count > 0,
                m.min <= a.min,
        ;
        assert(b.count * m.min <= b.count * b.min) by (nonlinear_arith)
            requires
                b.count > 0,
                m.min <= b.min,
        ;
        assert(a.count * a.max <= a.count * m.max) by (nonlinear_arith)
            requires
                a.count > 0,
                a.max <= m.max,
        ;
        assert(b.count * b.max <= b.count * m.max) by (nonlinear_arith)
            requires
                b.count > 0,
                b.max <= m.max,
        ;
        assert((a.count + b.count) * m.min == a.count * m.min + b.count * m.min)
            by (nonlinear_arith);
        assert((a.count + b.count) * m.max == a.count * m.max + b.count * m.max)
            by (nonlinear_arith);
    }
}

/// The rounded quotient of a total that lies between `count * low` and
/// `count * high` lies between `low` and `high`.
pub proof fn lemma_rounded_quotient_bounds(total: int, count: int, low: int, high: int)
    requires
        count > 0,
        count * low <= total <= count * high,
    ensures
        low <= rounded_quotient(total, count) <= high,
{
    let d = 2 * count;
    if total >= 0 {
        let n = 2 * total + count;
        let q = n / d;
        assert(n == d * q + n % d && 0 <= n % d < d) by {
            vstd::arithmetic::div_mod::lemma_fundamental_div_mod(n, d);
            vstd::arithmetic::div_mod::lemma_mod_bound(n, d);
        }
        assert(q <= high) by (nonlinear_arith)
            requires
                n == d * q + n % d,
                0 <= n % d,
                n == 2 * total + count,
                d == 2 * count,
                count > 0,
                total <= count * high,
        ;
        assert(q >= low) by (nonlinear_arith)
            requires
                n == d * q + n % d,
                n % d < d,
                n == 2 * total + count,
                d == 2 * count,
                count > 0,
                total >= count * low,
        ;
    } else {
        let n = 2 * (-total) + count;
        let q = n / d;
        assert(n == d * q + n % d && 0 <= n % d < d) by {
            vstd::arithmetic::div_mod::lemma_fundamental_div_mod(n, d);
            vstd::arithmetic::div_mod::lemma_mod_bound(n, d);
        }
        assert(-q >= low) by (nonlinear_arith)
            requires
                n == d * q + n % d,
                0 <= n % d,
                n == 2 * (-total) + count,
                d == 2 * count,
                count > 0,
                total >= count * low,
        ;
        assert(-q <= high) by (nonlinear_arith)
            requires
                n == d * q + n % d,
                n % d < d,
                n == 2 * (-total) + count,
                d == 2 * count,
                count > 0,
                total <= count * high,
        ;
    }
}

/// The mean of a valid, non-empty accumulator in units lies between its
/// extremes; in larger steps it lies between them and zero.
pub proof fn lemma_mean_bounds(a: StationView, step: int)
    requires
        valid_view(a),
        a.count > 0,
        step >= 1,
    ensures
        a.min <= mean_in(a, 1) <= a.max,
        (if a.min < 0 { a.min } else { 0 }) <= mean_in(a, step) <= (if a.max > 0 { a.max } else { 0 }),
{
    assert(a.count * 1 == a.count);
    lemma_rounded_quotient_bounds(a.total, a.count as int, a.min, a.max);
    let low = if a.min < 0 { a.min } else { 0 };
    let high = if a.max > 0 { a.max } else { 0 };
    let divisor = a.count * step;
    assert(divisor >= 1 && divisor * low <= a.count * a.min && a.count * a.max <= divisor * high)
        by (nonlinear_arith)
        requires
            divisor == a.count * step,
            a.count >= 1,
            step >= 1,
            low <= 0,
            low <= a.min,
            high >= 0,
            high >= a.max,
    ;
    lemma_rounded_quotient_bounds(a.total, divisor, low, high);
}

/// `value` in steps of `step` units, halves rounded away from zero.
pub fn round_to(value: i128, step: u64) -> (r: i128)
    requires
        step >= 1,
    ensures
        r == rounded_quotient(value as int, step as int),
{
    rounded_div(value, step as u128)
}

/// Running minimum, maximum, total and count of one station, in units.
#[derive(Clone, Copy, Debug)]
pub struct Station {
    min: i128,
    max: i128,
    total: Wide,
    count: u64,
}

impl View for Station {
    type V = StationView;

    closed spec fn view(&self) -> StationView {
        StationView {
            min: self.min as int,
            max: self.max as int,
            total: self.total@,
            count: self.count as nat,
        }
    }
}

impl Default for Station {
    /// The accumulator without observations.
    fn default() -> (s: Station)
        ensures
            s@ == identity_view(),
            s.wf(),
    {
        Station::identity()
    }
}

impl Station {
    /// Well-formedness: the view is a valid accumulator.
    pub open spec fn wf(&self) -> bool {
        valid_view(self@)
    }

    /// Extremes and count of a stored accumulator fit their machine types.
    pub proof fn lemma_view_in_range(&self)
        ensures
            i128::MIN <= self@.min <= i128::MAX,
            i128::MIN <= self@.max <= i128::MAX,
            self@.count <= u64::MAX,
    {
    }

    /// The accumulator without observations.
    pub fn identity() -> (s: Station)
        ensures
            s@ == identity_view(),
            s.wf(),
    {
        Station { min: 0, max: 0, total: Wide::from_i128(0), count: 0 }
    }

    /// The accumulator of a single observation.
    pub fn new(value: i128) -> (s: Station)
        ensures
            s@ == single_view(value as int),
            s.wf(),
    {
        Station { min: value, max: value, total: Wide::from_i128(value), count: 1 }
    }

    /// Merges `other` into `self`.
    pub fn add(&mut self, other: Station)
        requires
            old(self).wf(),
            other.wf(),
            old(self)@.count + other@.count <= u64::MAX,
        ensures
            final(self)@ == merge_spec(old(self)@, other@),
            final(self).wf(),
            final(self)@.count == old(self)@.count + other@.count,
            other@.count >= 1 ==> final(self)@.min <= other@.min && other@.max <= final(self)@.max,
            old(self)@.count >= 1 ==> final(self)@.min <= old(self)@.min && old(self)@.max
                <= final(self)@.max,
            old(self)@.count >= 1 && other@.count >= 1 ==> (final(self)@.min == old(self)@.min
                || final(self)@.min == other@.min) && (final(self)@.max == old(self)@.max
                || final(self)@.max == other@.max),
    {
        proof {
            lemma_merge_valid(self@, other@);
        }
        if self.count == 0 {
            *self = other;
        } else if other.count != 0 {
            proof {
                lemma_total_in_range(merge_spec(self@, other@));
            }
            let min: i128 = if self.min <= other.min { self.min } else { other.min };
            let max: i128 = if self.max >= other.max { self.max } else { other.max };
            *self = Station {
                min,
                max,
                total: self.total.plus(other.total),
                count: self.count + other.count,
            };
        }
    }

    /// Smallest observation; zero for the identity.
    pub fn min(&self) -> (r: i128)
        ensures
            r == self@.min,
    {
        self.min
    }

    /// Largest observation; zero for the identity.
    pub fn max(&self) -> (r: i128)
        ensures
            r == self@.max,
    {
        self.max
    }

    /// Exact sum of the observations.
    pub fn total(&self) -> (r: Wide)
        ensures
            r@ == self@.total,
    {
        self.total
    }

    /// Number of observations.
    pub fn count(&self) -> (r: u64)
        ensures
            r == self@.count,
    {
        self.count
    }

    /// Mean of the observations in steps of `step` units, rounded once,
    /// halves away from zero.
    pub fn mean_in(&self, step: u64) -> (r: i128)
        requires
            self.wf(),
            self@.count > 0,
            step >= 1,
        ensures
            r == mean_in(self@, step as int),
    {
        proof {
            let a = self@;
            assert(-(a.count * HALF) <= a.count * a.min && a.count * a.max <= a.count * (HALF - 1))
                by (nonlinear_arith)
                requires
                    a.count >= 1,
                    -HALF <= a.min,
                    a.max <= HALF - 1,
            ;
        }
        self.total.rounded_div(self.count, step)
    }
}

/// The total of a valid accumulator whose extremes and count fit their
/// machine types is within the limit of a wide integer.
proof fn lemma_total_in_range(a: StationView)
    requires
        valid_view(a),
        i128::MIN <= a.min,
        a.max <= i128::MAX,
        a.count <= u64::MAX,
    ensures
        -wide_limit() <= a.total <= wide_limit(),
{
    if a.count > 0 {
        assert(a.count * a.min >= -wide_limit() && a.count * a.max <= wide_limit())
            by (nonlinear_arith)
            requires
                0 < a.count <= 0xffff_ffff_ffff_ffff,
                -0x8000_0000_0000_0000_0000_0000_0000_0000 <= a.min,
                a.max <= 0x7fff_ffff_ffff_ffff_ffff_ffff_ffff_ffff,
                wide_limit() == 0x7fff_ffff_ffff_ffff_8000_0000_0000_0000_0000_0000_0000_0000int,
        ;
    }
}

} // verus!
