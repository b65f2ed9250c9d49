//! Positions in a song, measured in measures, as exact fractions.
use vstd::prelude::*;
use vstd::arithmetic::div_mod::*;

use crate::ratio::{
    abs_int, add_fits, common_denominator, div_fits, div_int_fits, fits_pair, gcd, gcd_int, in_i64,
    lemma_gcd_positive, lowest_terms, mul_fits, mul_int_fits, ratio_add, ratio_difference,
    ratio_div, ratio_div_int, ratio_divided, ratio_floor, ratio_fract, ratio_mul, ratio_mul_int,
    ratio_new, ratio_product, ratio_quotient, ratio_round, ratio_scaled, ratio_sub, ratio_sum,
    round_half_away, scaled_numerators, scaled_pair, sub_fits,
};
use vstd::std_specs::cmp::PartialEqSpecImpl;

verus! {

/// A position in measures: the fraction `numer / denom` with `denom > 0`.
/// Values built by this library are always in lowest terms.
#[derive(Debug, Clone, Copy)]
pub struct TimePoint {
    numer: i64,
    denom: i64,
}

/// `a < b` for fractions with positive denominators.
pub open spec fn value_lt(a: (int, int), b: (int, int)) -> bool {
    a.0 * b.1 < b.0 * a.1
}

/// `a <= b` for fractions with positive denominators.
pub open spec fn value_le(a: (int, int), b: (int, int)) -> bool {
    a.0 * b.1 <= b.0 * a.1
}

/// `a == b` as numbers, for fractions with positive denominators.
pub open spec fn value_eq(a: (int, int), b: (int, int)) -> bool {
    a.0 * b.1 == b.0 * a.1
}

/// Zero as a fraction.
pub open spec fn zero_pair() -> (int, int) {
    (0int, 1int)
}

/// The magnitude of a fraction with a positive denominator.
pub open spec fn abs_pair(a: (int, int)) -> (int, int) {
    if a.0 < 0 {
        (-a.0, a.1)
    } else {
        a
    }
}

/// The denominator by which a snapping divides one measure.
pub open spec fn snapping_denominator(s: crate::audio::Snapping) -> int {
    match s {
        crate::audio::Snapping::Measure(v) => v as int,
        crate::audio::Snapping::Beat(v) => v as int * crate::BEATS_PER_MEASURE as int,
    }
}

/// `t` rounded to the nearest multiple of `1 / k`, half-way cases away from zero.
pub open spec fn quantised_pair(t: (int, int), k: int) -> (int, int) {
    let scaled = ratio_scaled(t, k);
    ratio_divided((round_half_away(scaled.0, scaled.1), 1int), k)
}

/// Quantising `t` to `snapping` completes without overflow.
pub open spec fn quantise_fits(t: (int, int), snapping: crate::audio::Snapping) -> bool {
    let k = snapping_denominator(snapping);
    &&& k > 0
    &&& (snapping matches crate::audio::Snapping::Beat(v) ==> v * crate::BEATS_PER_MEASURE <= u16::MAX)
    &&& mul_int_fits(t, k)
}

impl TimePoint {
    #[verifier::type_invariant]
    spec fn positive_denominator(self) -> bool {
        self.denom > 0
    }

    /// The numerator.
    pub closed spec fn num(self) -> int {
        self.numer as int
    }

    /// The denominator (always positive).
    pub closed spec fn den(self) -> int {
        if self.denom > 0 {
            self.denom as int
        } else {
            1
        }
    }

    /// Every time point has a positive denominator.
    pub broadcast proof fn lemma_den_positive(t: TimePoint)
        ensures
            #[trigger] t.den() > 0,
            t.den() <= i64::MAX,
            in_i64(t.num()),
    {
    }

    fn from_raw(p: (i64, i64)) -> (r: TimePoint)
        requires
            p.1 > 0,
        ensures
            r@ == (p.0 as int, p.1 as int),
    {
        TimePoint { numer: p.0, denom: p.1 }
    }

    fn raw(&self) -> (r: (i64, i64))
        ensures
            r.1 > 0,
            (r.0 as int, r.1 as int) == self@,
    {
        proof {
            use_type_invariant(self);
        }
        (self.numer, self.denom)
    }

    /// Zero.
    pub fn zero() -> (r: TimePoint)
        ensures
            r@ == zero_pair(),
    {
        TimePoint { numer: 0, denom: 1 }
    }

    /// `numer / denom` in lowest terms.
    pub fn new(numer: i64, denom: i64) -> (r: TimePoint)
        requires
            denom != 0,
            fits_pair(lowest_terms(numer as int, denom as int)),
        ensures
            r@ == lowest_terms(numer as int, denom as int),
    {
        Self::from_raw(ratio_new(numer, denom))
    }

    /// The integer `n`.
    pub fn from_integer(n: i64) -> (r: TimePoint)
        ensures
            r@ == (n as int, 1int),
    {
        TimePoint { numer: n, denom: 1 }
    }

    /// The start of measure `measure`.
    pub fn from_measure(measure: i64) -> (r: TimePoint)
        ensures
            r@ == (measure as int, 1int),
    {
        Self::from_integer(measure)
    }

    /// `measure + numerator / denominator`.
    pub fn from_submeasure(measure: i64, numerator: i64, denominator: i64) -> (r: TimePoint)
        requires
            denominator != 0,
            fits_pair(lowest_terms(numerator as int, denominator as int)),
            add_fits(lowest_terms(numerator as int, denominator as int), (measure as int, 1int)),
        ensures
            r@ == ratio_sum(lowest_terms(numerator as int, denominator as int), (measure as int, 1int)),
    {
        let ratio = Self::new(numerator, denominator);
        ratio.add(Self::from_integer(measure))
    }

    /// The numerator.
    pub fn numer(&self) -> (r: i64)
        ensures
            r as int == self@.0,
    {
        self.raw().0
    }

    /// The denominator.
    pub fn denom(&self) -> (r: i64)
        ensures
            r as int == self@.1,
            r > 0,
    {
        self.raw().1
    }

    /// `self + rhs`.
    pub fn add(self, rhs: TimePoint) -> (r: TimePoint)
        requires
            add_fits(self@, rhs@),
        ensures
            r@ == ratio_sum(self@, rhs@),
    {
        Self::from_raw(ratio_add(self.raw(), rhs.raw()))
    }

    /// `self - rhs`.
    pub fn sub(self, rhs: TimePoint) -> (r: TimePoint)
        requires
            sub_fits(self@, rhs@),
        ensures
            r@ == ratio_difference(self@, rhs@),
    {
        Self::from_raw(ratio_sub(self.raw(), rhs.raw()))
    }

    /// `self + rhs`, or `None` when it overflows.
    pub fn checked_add(self, rhs: TimePoint) -> (r: Option<TimePoint>)
        ensures
            r is Some <==> add_fits(self@, rhs@),
            r matches Some(v) ==> v@ == ratio_sum(self@, rhs@),
    {
        match scaled_pair(self.raw(), rhs.raw()) {
            None => None,
            Some((_, s0, s1)) => match s0.checked_add(s1) {
                None => None,
                Some(_) => Some(self.add(rhs)),
            },
        }
    }

    /// `self - rhs`, or `None` when it overflows.
    pub fn checked_sub(self, rhs: TimePoint) -> (r: Option<TimePoint>)
        ensures
            r is Some <==> sub_fits(self@, rhs@),
            r matches Some(v) ==> v@ == ratio_difference(self@, rhs@),
    {
        match scaled_pair(self.raw(), rhs.raw()) {
            None => None,
            Some((_, s0, s1)) => match s0.checked_sub(s1) {
                None => None,
                Some(_) => Some(self.sub(rhs)),
            },
        }
    }

    /// `self * rhs`.
    pub fn mul(self, rhs: TimePoint) -> (r: TimePoint)
        requires
            mul_fits(self@, rhs@),
        ensures
            r@ == ratio_product(self@, rhs@),
    {
        Self::from_raw(ratio_mul(self.raw(), rhs.raw()))
    }

    /// `self / rhs`.
    pub fn div(self, rhs: TimePoint) -> (r: TimePoint)
        requires
            div_fits(self@, rhs@),
        ensures
            r@ == ratio_quotient(self@, rhs@),
    {
        Self::from_raw(ratio_div(self.raw(), rhs.raw()))
    }

    /// `-self`.
    pub fn neg(self) -> (r: TimePoint)
        requires
            self@.0 != i64::MIN,
        ensures
            r@ == (-self@.0, self@.1),
    {
        let (n, d) = self.raw();
        Self::from_raw((-n, d))
    }

    /// `self < other`.
    pub fn lt(&self, other: &TimePoint) -> (r: bool)
        ensures
            r == value_lt(self@, other@),
    {
        let (a, b) = self.raw();
        let (c, d) = other.raw();
        proof {
            lemma_products_fit(a, d);
            lemma_products_fit(c, b);
        }
        (a as i128) * (d as i128) < (c as i128) * (b as i128)
    }

    /// `self <= other`.
    pub fn le(&self, other: &TimePoint) -> (r: bool)
        ensures
            r == value_le(self@, other@),
    {
        !other.lt(self)
    }

    /// `self > other`.
    pub fn gt(&self, other: &TimePoint) -> (r: bool)
        ensures
            r == value_lt(other@, self@),
    {
        other.lt(self)
    }

    /// `self >= other`.
    pub fn ge(&self, other: &TimePoint) -> (r: bool)
        ensures
            r == value_le(other@, self@),
    {
        other.le(self)
    }

    /// `self == other` as numbers.
    pub fn same_value(&self, other: &TimePoint) -> (r: bool)
        ensures
            r == value_eq(self@, other@),
    {
        let (a, b) = self.raw();
        let (c, d) = other.raw();
        proof {
            lemma_products_fit(a, d);
            lemma_products_fit(c, b);
        }
        (a as i128) * (d as i128) == (c as i128) * (b as i128)
    }

    /// `self`, or zero if `self` is not positive.
    pub fn clamped_to_zero(self) -> (r: TimePoint)
        ensures
            r@ == (if value_le(self@, zero_pair()) {
                zero_pair()
            } else {
                self@
            }),
    {
        let zero = Self::zero();
        if self.le(&zero) {
            zero
        } else {
            self
        }
    }

    /// The point `ratio` of the way from `self` to `other`:
    /// `self + ratio * (other - self)`.
    pub fn ratio(&self, other: &TimePoint, ratio: TimePoint) -> (r: TimePoint)
        requires
            sub_fits(other@, self@),
            mul_fits(ratio@, ratio_difference(other@, self@)),
            add_fits(self@, ratio_product(ratio@, ratio_difference(other@, self@))),
        ensures
            r@ == ratio_sum(self@, ratio_product(ratio@, ratio_difference(other@, self@))),
    {
        let diff = other.sub(*self);
        self.add(ratio.mul(diff))
    }

    /// Rounds to the nearest multiple of one snapping step, half-way cases
    /// away from zero.
    pub fn quantise(&mut self, snapping: crate::audio::Snapping)
        requires
            quantise_fits(old(self)@, snapping),
        ensures
            final(self)@ == quantised_pair(old(self)@, snapping_denominator(snapping)),
    {
        let k: i64 = match snapping {
            crate::audio::Snapping::Measure(v) => v as i64,
            crate::audio::Snapping::Beat(v) => (v * (crate::BEATS_PER_MEASURE as u16)) as i64,
        };
        let scaled = ratio_mul_int(self.raw(), k);
        let rounded = ratio_round(scaled);
        proof {
            lemma_int_quotient_fits(rounded.0 as int, k as int);
        }
        *self = Self::from_raw(ratio_div_int(rounded, k));
    }

    /// `self` quantised to `snapping`.
    pub fn quantised(self, snapping: crate::audio::Snapping) -> (r: TimePoint)
        requires
            quantise_fits(self@, snapping),
        ensures
            r@ == quantised_pair(self@, snapping_denominator(snapping)),
    {
        let mut t = self;
        t.quantise(snapping);
        t
    }

    /// Where `t` lies between `self` and `end`: `(t - self) / (end - self)`.
    pub fn ratio_at_t(&self, end: &TimePoint, t: &TimePoint) -> (r: TimePoint)
        requires
            sub_fits(t@, self@),
            sub_fits(end@, self@),
            div_fits(ratio_difference(t@, self@), ratio_difference(end@, self@)),
        ensures
            r@ == ratio_quotient(ratio_difference(t@, self@), ratio_difference(end@, self@)),
    {
        t.sub(*self).div(end.sub(*self))
    }

    /// The magnitude `|self|`.
    pub fn abs(&self) -> (r: TimePoint)
        requires
            self@.0 != i64::MIN,
        ensures
            r@ == abs_pair(self@),
    {
        let (n, d) = self.raw();
        if n < 0 {
            Self::from_raw((-n, d))
        } else {
            *self
        }
    }

    /// The whole measure, the numerator of the part of a measure and its
    /// denominator, as used for a BMS object time. Negative time points have no
    /// such form.
    pub fn objtime_parts(&self) -> (r: Result<(u64, u64, u64), crate::error::Error>)
        requires
            self@.0 >= 0 || in_i64(self@.0 - self@.1),
        ensures
            r matches Ok(p) ==> self@.0 >= 0 && p.0 as int == self@.0 / self@.1 && p.1 as int
                == self@.0 % self@.1 && p.2 as int == self@.1,
            r is Err <==> self@.0 < 0,
            r matches Err(e) ==> e == crate::error::Error::NegativeTimePoint,
    {
        let raw = self.raw();
        let measure = ratio_floor(raw).0;
        let (n, d) = ratio_fract(raw);
        if measure < 0 || n < 0 {
            proof {
                if self@.0 >= 0 {
                    lemma_div_pos_is_pos(self@.0, self@.1);
                }
            }
            return Err(crate::error::Error::NegativeTimePoint);
        }
        proof {
            if self@.0 < 0 {
                lemma_negative_floor(self@.0, self@.1);
            }
        }
        Ok((measure as u64, n as u64, d as u64))
    }
}

/// Products of two `i64` values fit in an `i128`.
proof fn lemma_products_fit(a: i64, b: i64)
    ensures
        i128::MIN <= (a as int) * (b as int) <= i128::MAX,
{
    assert(-0x8000_0000_0000_0000int <= a <= 0x7fff_ffff_ffff_ffffint);
    assert(-0x8000_0000_0000_0000int <= b <= 0x7fff_ffff_ffff_ffffint);
    assert(i128::MIN <= (a as int) * (b as int) <= i128::MAX) by (nonlinear_arith)
        requires
            -0x8000_0000_0000_0000int <= a <= 0x7fff_ffff_ffff_ffffint,
            -0x8000_0000_0000_0000int <= b <= 0x7fff_ffff_ffff_ffffint,
    ;
}

/// Subtracting a time point gives the same value as adding its negation.
pub proof fn lemma_sub_is_add_neg(a: TimePoint, b: TimePoint)
    ensures
        ratio_difference(a@, b@) == ratio_sum(a@, (-b@.0, b@.1)),
{
    let nb = (-b@.0, b@.1);
    let l = common_denominator(a@, b@);
    assert(common_denominator(a@, nb) == l);
    if a@.1 != b@.1 {
        let f = l / b@.1;
        assert((-b@.0) * f == -(b@.0 * f)) by (nonlinear_arith);
    }
    assert(scaled_numerators(a@, nb).1 == -scaled_numerators(a@, b@).1);
}

/// The floor of a negative number divided by a positive one is negative.
proof fn lemma_negative_floor(x: int, d: int)
    requires
        x < 0,
        d > 0,
    ensures
        x / d < 0,
{
    lemma_fundamental_div_mod(x, d);
    lemma_mod_bound(x, d);
    let q = x / d;
    assert(q < 0) by (nonlinear_arith)
        requires
            x == d * q + x % d,
            0 <= x % d < d,
            x < 0,
            d > 0,
    ;
}

/// Dividing an integer by a positive `k` keeps the result's denominator within `k`.
proof fn lemma_int_quotient_fits(r: int, k: int)
    requires
        0 < k <= u16::MAX * 4,
    ensures
        div_int_fits((r, 1int), k),
{
    let g = gcd_int(r, k);
    lemma_gcd_positive(abs_int(r), abs_int(k));
    assert(g >= 1);
    lemma_div_pos_is_pos(k, g);
    lemma_div_is_ordered_by_denominator(k, 1, g);
    assert(k / 1 == k);
}

impl PartialEq for TimePoint {
    fn eq(&self, other: &Self) -> (r: bool) {
        self.same_value(other)
    }
}

impl PartialEqSpecImpl for TimePoint {
    open spec fn obeys_eq_spec() -> bool {
        true
    }

    open spec fn eq_spec(&self, other: &Self) -> bool {
        value_eq(self@, other@)
    }
}

impl View for TimePoint {
    type V = (int, int);

    open spec fn view(&self) -> (int, int) {
        (self.num(), self.den())
    }
}

impl Default for TimePoint {
    fn default() -> (r: TimePoint)
        ensures
            r@ == zero_pair(),
    {
        TimePoint::zero()
    }
}

} // verus!
