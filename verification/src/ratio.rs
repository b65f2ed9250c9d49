//! Exact rational arithmetic on `(numerator, denominator)` pairs of `i64`.
//!
//! The arithmetic itself is done by `num_rational::Ratio<i64>`; the items here
//! describe, over mathematical integers, what each operation returns and on
//! which inputs it completes without overflowing.
use vstd::prelude::*;
use vstd::arithmetic::div_mod::{
    lemma_div_by_self, lemma_div_is_ordered, lemma_div_multiples_vanish, lemma_fundamental_div_mod,
    lemma_mod_bound,
};
use vstd::arithmetic::mul::lemma_mul_strictly_positive;

verus! {

/// Absolute value of an integer.
pub open spec fn abs_int(x: int) -> nat {
    if x < 0 {
        (-x) as nat
    } else {
        x as nat
    }
}

/// Greatest common divisor (Euclid); `gcd(a, 0) == a`.
pub open spec fn gcd(a: nat, b: nat) -> nat
    decreases b,
{
    if b == 0 {
        a
    } else {
        gcd(b, a % b)
    }
}

/// Greatest common divisor of the magnitudes of two integers.
pub open spec fn gcd_int(a: int, b: int) -> int {
    gcd(abs_int(a), abs_int(b)) as int
}

/// The value fits in an `i64`.
pub open spec fn in_i64(x: int) -> bool {
    i64::MIN <= x <= i64::MAX
}

/// Both components of a pair fit in an `i64`.
pub open spec fn fits_pair(p: (int, int)) -> bool {
    in_i64(p.0) && in_i64(p.1)
}

/// `n / d` in lowest terms with a positive denominator (`0` is `0 / 1`).
pub open spec fn lowest_terms(n: int, d: int) -> (int, int) {
    let g = gcd_int(n, d);
    if d < 0 {
        (-(n / g), -(d / g))
    } else {
        (n / g, d / g)
    }
}

/// The denominator over which a sum or difference of `a` and `b` is formed:
/// the shared denominator, or the least common multiple of the two.
pub open spec fn common_denominator(a: (int, int), b: (int, int)) -> int {
    if a.1 == b.1 {
        a.1
    } else {
        a.1 * (b.1 / gcd_int(a.1, b.1))
    }
}

/// The numerators of `a` and `b` rewritten over `common_denominator(a, b)`.
pub open spec fn scaled_numerators(a: (int, int), b: (int, int)) -> (int, int) {
    let l = common_denominator(a, b);
    if a.1 == b.1 {
        (a.0, b.0)
    } else {
        (a.0 * (l / a.1), b.0 * (l / b.1))
    }
}

/// `a + b` can be formed without leaving the range of `i64`.
pub open spec fn add_fits(a: (int, int), b: (int, int)) -> bool {
    let l = common_denominator(a, b);
    let s = scaled_numerators(a, b);
    in_i64(l) && in_i64(s.0) && in_i64(s.1) && in_i64(s.0 + s.1)
}

/// `a - b` can be formed without leaving the range of `i64`.
pub open spec fn sub_fits(a: (int, int), b: (int, int)) -> bool {
    let l = common_denominator(a, b);
    let s = scaled_numerators(a, b);
    in_i64(l) && in_i64(s.0) && in_i64(s.1) && in_i64(s.0 - s.1)
}

/// `a + b` in lowest terms.
pub open spec fn ratio_sum(a: (int, int), b: (int, int)) -> (int, int) {
    let s = scaled_numerators(a, b);
    lowest_terms(s.0 + s.1, common_denominator(a, b))
}

/// `a - b` in lowest terms.
pub open spec fn ratio_difference(a: (int, int), b: (int, int)) -> (int, int) {
    let s = scaled_numerators(a, b);
    lowest_terms(s.0 - s.1, common_denominator(a, b))
}

/// Numerator and denominator of `a * b` after cancelling cross factors.
pub open spec fn product_parts(a: (int, int), b: (int, int)) -> (int, int) {
    let g1 = gcd_int(a.0, b.1);
    let g2 = gcd_int(a.1, b.0);
    ((a.0 / g1) * (b.0 / g2), (a.1 / g2) * (b.1 / g1))
}

/// `a * b` can be formed without leaving the range of `i64`.
pub open spec fn mul_fits(a: (int, int), b: (int, int)) -> bool {
    fits_pair(product_parts(a, b))
}

/// `a * b` in lowest terms.
pub open spec fn ratio_product(a: (int, int), b: (int, int)) -> (int, int) {
    let p = product_parts(a, b);
    lowest_terms(p.0, p.1)
}

/// Numerator and denominator of `a / b` after cancelling common factors.
pub open spec fn quotient_parts(a: (int, int), b: (int, int)) -> (int, int) {
    let g1 = gcd_int(a.0, b.0);
    let g2 = gcd_int(a.1, b.1);
    ((a.0 / g1) * (b.1 / g2), (a.1 / g2) * (b.0 / g1))
}

/// `a / b` is defined and can be formed without leaving the range of `i64`.
pub open spec fn div_fits(a: (int, int), b: (int, int)) -> bool {
    let q = quotient_parts(a, b);
    &&& b.0 != 0
    &&& gcd_int(a.0, b.0) <= i64::MAX
    &&& fits_pair(q)
    &&& fits_pair(lowest_terms(q.0, q.1))
}

/// `a / b` in lowest terms.
pub open spec fn ratio_quotient(a: (int, int), b: (int, int)) -> (int, int) {
    let q = quotient_parts(a, b);
    lowest_terms(q.0, q.1)
}

/// `a * k` for an integer `k` can be formed without leaving the range of `i64`.
pub open spec fn mul_int_fits(a: (int, int), k: int) -> bool {
    in_i64(a.0 * (k / gcd_int(a.1, k)))
}

/// `a * k` in lowest terms.
pub open spec fn ratio_scaled(a: (int, int), k: int) -> (int, int) {
    let g = gcd_int(a.1, k);
    lowest_terms(a.0 * (k / g), a.1 / g)
}

/// `a / k` for a positive integer `k` can be formed without leaving the range of `i64`.
pub open spec fn div_int_fits(a: (int, int), k: int) -> bool {
    let g = gcd_int(a.0, k);
    &&& k > 0
    &&& in_i64(a.1 * (k / g))
}

/// `a / k` in lowest terms.
pub open spec fn ratio_divided(a: (int, int), k: int) -> (int, int) {
    let g = gcd_int(a.0, k);
    lowest_terms(a.0 / g, a.1 * (k / g))
}

/// `n / d` (with `d > 0`) rounded to the nearest integer, half-way cases away from zero.
pub open spec fn round_half_away(n: int, d: int) -> int {
    if n >= 0 {
        (2 * n + d) / (2 * d)
    } else {
        -((2 * (-n) + d) / (2 * d))
    }
}

/// The remainder of `n / d` (with `d > 0`) when the quotient is rounded towards zero.
pub open spec fn trunc_rem(n: int, d: int) -> int {
    if n >= 0 {
        n % d
    } else {
        -((-n) % d)
    }
}

/// A positive gcd when one argument is positive.
pub proof fn lemma_gcd_positive(a: nat, b: nat)
    requires
        a > 0 || b > 0,
    ensures
        gcd(a, b) > 0,
    decreases b,
{
    if b > 0 {
        lemma_gcd_positive(b, a % b);
    }
}

/// The gcd is at most a positive second argument.
pub proof fn lemma_gcd_bounded(a: nat, b: nat)
    requires
        b > 0,
    ensures
        gcd(a, b) <= b,
    decreases b,
{
    assert(gcd(a, b) == gcd(b, a % b));
    if a % b > 0 {
        lemma_gcd_bounded(b, a % b);
    } else {
        assert(gcd(b, 0) == b);
    }
}

/// Lowest terms of a fraction with a nonzero denominator have a positive denominator.
pub proof fn lemma_lowest_terms_den_positive(n: int, d: int)
    requires
        d != 0,
    ensures
        lowest_terms(n, d).1 > 0,
{
    let g = gcd_int(n, d);
    lemma_gcd_positive(abs_int(n), abs_int(d));
    lemma_gcd_bounded(abs_int(n), abs_int(d));
    if d > 0 {
        lemma_div_is_ordered(g, d, g);
        lemma_div_by_self(g);
    } else {
        lemma_div_is_ordered(g, -d, g);
        lemma_div_by_self(g);
        lemma_div_neg_lower(d, g);
    }
}

/// `d / g <= -1` for a negative `d` of magnitude at least `g > 0`.
proof fn lemma_div_neg_lower(d: int, g: int)
    requires
        d < 0,
        0 < g <= -d,
        (-d) / g >= 1,
    ensures
        d / g <= -1,
{
    lemma_fundamental_div_mod(d, g);
    lemma_mod_bound(d, g);
    let q = d / g;
    assert(q <= -1) by (nonlinear_arith)
        requires
            d == g * q + d % g,
            0 <= d % g < g,
            d < 0,
            g > 0,
    ;
}

/// The denominator over which sums and differences are formed is positive.
pub proof fn lemma_common_denominator_positive(a: (int, int), b: (int, int))
    requires
        a.1 > 0,
        b.1 > 0,
    ensures
        common_denominator(a, b) > 0,
{
    if a.1 != b.1 {
        let g = gcd_int(a.1, b.1);
        lemma_gcd_positive(abs_int(a.1), abs_int(b.1));
        lemma_gcd_bounded(abs_int(a.1), abs_int(b.1));
        lemma_div_is_ordered(g, b.1, g);
        lemma_div_by_self(g);
        lemma_mul_strictly_positive(a.1, b.1 / g);
    }
}

/// Differences of fractions with positive denominators have positive denominators.
pub proof fn lemma_difference_den_positive(a: (int, int), b: (int, int))
    requires
        a.1 > 0,
        b.1 > 0,
    ensures
        ratio_difference(a, b).1 > 0,
        ratio_sum(a, b).1 > 0,
{
    lemma_common_denominator_positive(a, b);
    let s = scaled_numerators(a, b);
    lemma_lowest_terms_den_positive(s.0 - s.1, common_denominator(a, b));
    lemma_lowest_terms_den_positive(s.0 + s.1, common_denominator(a, b));
}

/// The gcd divides both arguments.
pub proof fn lemma_gcd_divides(a: nat, b: nat)
    requires
        a > 0 || b > 0,
    ensures
        gcd(a, b) > 0,
        a == gcd(a, b) * (a / gcd(a, b)),
        b == gcd(a, b) * (b / gcd(a, b)),
    decreases b,
{
    lemma_gcd_positive(a, b);
    if b == 0 {
        lemma_div_by_self(a as int);
        assert(b / gcd(a, b) == 0);
    } else {
        let r = a % b;
        lemma_gcd_divides(b, r);
        let g = gcd(b, r) as int;
        assert(gcd(a, b) as int == g);
        lemma_fundamental_div_mod(a as int, b as int);
        let q = (b as int / g) * (a as int / b as int) + (r as int / g);
        assert(a as int == g * q) by (nonlinear_arith)
            requires
                a as int == (b as int) * (a as int / b as int) + r as int,
                b as int == g * (b as int / g),
                r as int == g * (r as int / g),
                q == (b as int / g) * (a as int / b as int) + (r as int / g),
        ;
        lemma_div_multiples_vanish(q, g);
        assert(b as int == g * (b as int / g));
    }
}

/// Dividing both parts of a fraction by a common divisor keeps its value.
proof fn lemma_divide_out(n: int, d: int, g: int)
    requires
        g > 0,
        abs_int(n) as int == g * ((abs_int(n) as int) / g),
        abs_int(d) as int == g * ((abs_int(d) as int) / g),
    ensures
        n == g * (n / g),
        d == g * (d / g),
        (n / g) * d == n * (d / g),
{
    let kn = (abs_int(n) as int) / g;
    let kd = (abs_int(d) as int) / g;
    if n < 0 {
        assert(n == g * (-kn)) by (nonlinear_arith)
            requires
                -n == g * kn,
        ;
        lemma_div_multiples_vanish(-kn, g);
    } else {
        lemma_div_multiples_vanish(kn, g);
    }
    if d < 0 {
        assert(d == g * (-kd)) by (nonlinear_arith)
            requires
                -d == g * kd,
        ;
        lemma_div_multiples_vanish(-kd, g);
    } else {
        lemma_div_multiples_vanish(kd, g);
    }
    let qn = n / g;
    let qd = d / g;
    assert(qn * d == n * qd) by (nonlinear_arith)
        requires
            n == g * qn,
            d == g * qd,
    ;
}

/// Lowest terms keep the value of a fraction.
pub proof fn lemma_lowest_terms_value(n: int, d: int)
    requires
        d != 0,
    ensures
        lowest_terms(n, d).0 * d == n * lowest_terms(n, d).1,
{
    lemma_gcd_divides(abs_int(n), abs_int(d));
    let g = gcd_int(n, d);
    lemma_divide_out(n, d, g);
    if d < 0 {
        let qn = n / g;
        let qd = d / g;
        assert((-qn) * d == n * (-qd)) by (nonlinear_arith)
            requires
                qn * d == n * qd,
        ;
    }
}

/// `a - b` as the difference of `a` and `b` over the product of their
/// denominators: the value of `ratio_difference`.
pub proof fn lemma_difference_value(a: (int, int), b: (int, int))
    requires
        a.1 > 0,
        b.1 > 0,
    ensures
        ratio_difference(a, b).1 > 0,
        ratio_difference(a, b).0 * (a.1 * b.1) == (a.0 * b.1 - b.0 * a.1) * ratio_difference(a, b).1,
{
    lemma_difference_den_positive(a, b);
    lemma_common_denominator_positive(a, b);
    let l = common_denominator(a, b);
    let s = scaled_numerators(a, b);
    lemma_lowest_terms_value(s.0 - s.1, l);
    let r = ratio_difference(a, b);
    // the difference over `l` has the value of the plain difference
    if a.1 == b.1 {
        assert((s.0 - s.1) * (a.1 * b.1) == (a.0 * b.1 - b.0 * a.1) * l) by (nonlinear_arith)
            requires
                s.0 == a.0,
                s.1 == b.0,
                l == a.1,
                a.1 == b.1,
        ;
    } else {
        lemma_gcd_divides(abs_int(a.1), abs_int(b.1));
        let g = gcd_int(a.1, b.1);
        let p = b.1 / g;
        let q = a.1 / g;
        assert(l == a.1 * p);
        lemma_div_multiples_vanish(p, a.1);
        assert(l == b.1 * q) by (nonlinear_arith)
            requires
                l == a.1 * p,
                a.1 == g * q,
                b.1 == g * p,
        ;
        lemma_div_multiples_vanish(q, b.1);
        assert(s.0 == a.0 * p);
        assert(s.1 == b.0 * q);
        let m = a.0 * p - b.0 * q;
        assert((s.0 - s.1) * (a.1 * b.1) == m * (g * q * (g * p))) by {
            assert(s.0 - s.1 == m);
            assert(a.1 * b.1 == g * q * (g * p));
        }
        assert(a.0 * b.1 - b.0 * a.1 == g * m) by (nonlinear_arith)
            requires
                m == a.0 * p - b.0 * q,
                a.1 == g * q,
                b.1 == g * p,
        ;
        assert(l == g * q * p) by (nonlinear_arith)
            requires
                l == a.1 * p,
                a.1 == g * q,
        ;
        assert(m * (g * q * (g * p)) == (g * m) * (g * q * p)) by (nonlinear_arith);

    }
    // and lowest terms keep that value
    assert(r.0 * (a.1 * b.1) == (a.0 * b.1 - b.0 * a.1) * r.1) by (nonlinear_arith)
        requires
            r.0 * l == (s.0 - s.1) * r.1,
            (s.0 - s.1) * (a.1 * b.1) == (a.0 * b.1 - b.0 * a.1) * l,
            l > 0,
    ;
}

/// `a + b` as the sum of `a` and `b` over the product of their
/// denominators: the value of `ratio_sum`.
pub proof fn lemma_sum_value(a: (int, int), b: (int, int))
    requires
        a.1 > 0,
        b.1 > 0,
    ensures
        ratio_sum(a, b).1 > 0,
        ratio_sum(a, b).0 * (a.1 * b.1) == (a.0 * b.1 + b.0 * a.1) * ratio_sum(a, b).1,
{
    lemma_difference_den_positive(a, b);
    lemma_common_denominator_positive(a, b);
    let l = common_denominator(a, b);
    let s = scaled_numerators(a, b);
    lemma_lowest_terms_value(s.0 + s.1, l);
    let r = ratio_sum(a, b);
    // the sum over `l` has the value of the plain sum
    if a.1 == b.1 {
        assert((s.0 + s.1) * (a.1 * b.1) == (a.0 * b.1 + b.0 * a.1) * l) by (nonlinear_arith)
            requires
                s.0 == a.0,
                s.1 == b.0,
                l == a.1,
                a.1 == b.1,
        ;
    } else {
        lemma_gcd_divides(abs_int(a.1), abs_int(b.1));
        let g = gcd_int(a.1, b.1);
        let p = b.1 / g;
        let q = a.1 / g;
        assert(l == a.1 * p);
        lemma_div_multiples_vanish(p, a.1);
        assert(l == b.1 * q) by (nonlinear_arith)
            requires
                l == a.1 * p,
                a.1 == g * q,
                b.1 == g * p,
        ;
        lemma_div_multiples_vanish(q, b.1);
        assert(s.0 == a.0 * p);
        assert(s.1 == b.0 * q);
        let m = a.0 * p + b.0 * q;
        assert((s.0 + s.1) * (a.1 * b.1) == m * (g * q * (g * p))) by {
            assert(s.0 + s.1 == m);
            assert(a.1 * b.1 == g * q * (g * p));
        }
        assert(a.0 * b.1 + b.0 * a.1 == g * m) by (nonlinear_arith)
            requires
                m == a.0 * p + b.0 * q,
                a.1 == g * q,
                b.1 == g * p,
        ;
        assert(l == g * q * p) by (nonlinear_arith)
            requires
                l == a.1 * p,
                a.1 == g * q,
        ;
        assert(m * (g * q * (g * p)) == (g * m) * (g * q * p)) by (nonlinear_arith);

    }
    // and lowest terms keep that value
    assert(r.0 * (a.1 * b.1) == (a.0 * b.1 + b.0 * a.1) * r.1) by (nonlinear_arith)
        requires
            r.0 * l == (s.0 + s.1) * r.1,
            (s.0 + s.1) * (a.1 * b.1) == (a.0 * b.1 + b.0 * a.1) * l,
            l > 0,
    ;
}

/// `Ratio::new`: reduces `n / d` to lowest terms with a positive denominator.
/// It panics when `d == 0` or when the reduced pair leaves the range of `i64`;
/// both are excluded here.
#[verifier::external_body]
pub(crate) fn ratio_new(n: i64, d: i64) -> (r: (i64, i64))
    requires
        d != 0,
        fits_pair(lowest_terms(n as int, d as int)),
    ensures
        r.1 > 0,
        (r.0 as int, r.1 as int) == lowest_terms(n as int, d as int),
{
    num_rational::Ratio::new(n, d).into_raw()
}

/// `Ratio + Ratio` on ratios with positive denominators. The sum is formed over
/// the shared denominator or the least common multiple of the denominators; the
/// operator panics on overflow of those intermediates, which `add_fits` excludes.
#[verifier::external_body]
pub(crate) fn ratio_add(a: (i64, i64), b: (i64, i64)) -> (r: (i64, i64))
    requires
        a.1 > 0,
        b.1 > 0,
        add_fits((a.0 as int, a.1 as int), (b.0 as int, b.1 as int)),
    ensures
        r.1 > 0,
        (r.0 as int, r.1 as int) == ratio_sum((a.0 as int, a.1 as int), (b.0 as int, b.1 as int)),
{
    (num_rational::Ratio::new_raw(a.0, a.1) + num_rational::Ratio::new_raw(b.0, b.1)).into_raw()
}

/// `Ratio - Ratio` on ratios with positive denominators, formed as for `ratio_add`.
#[verifier::external_body]
pub(crate) fn ratio_sub(a: (i64, i64), b: (i64, i64)) -> (r: (i64, i64))
    requires
        a.1 > 0,
        b.1 > 0,
        sub_fits((a.0 as int, a.1 as int), (b.0 as int, b.1 as int)),
    ensures
        r.1 > 0,
        (r.0 as int, r.1 as int) == ratio_difference(
            (a.0 as int, a.1 as int),
            (b.0 as int, b.1 as int),
        ),
{
    (num_rational::Ratio::new_raw(a.0, a.1) - num_rational::Ratio::new_raw(b.0, b.1)).into_raw()
}

/// `Ratio * Ratio` on ratios with positive denominators: cross factors are
/// cancelled first; the products must fit in an `i64`.
#[verifier::external_body]
pub(crate) fn ratio_mul(a: (i64, i64), b: (i64, i64)) -> (r: (i64, i64))
    requires
        a.1 > 0,
        b.1 > 0,
        mul_fits((a.0 as int, a.1 as int), (b.0 as int, b.1 as int)),
    ensures
        r.1 > 0,
        (r.0 as int, r.1 as int) == ratio_product((a.0 as int, a.1 as int), (b.0 as int, b.1 as int)),
{
    (num_rational::Ratio::new_raw(a.0, a.1) * num_rational::Ratio::new_raw(b.0, b.1)).into_raw()
}

/// `Ratio / Ratio` on ratios with positive denominators. It panics on a zero
/// divisor, on a common factor of the numerators equal to `2^63`, and on
/// overflow; `div_fits` excludes all three.
#[verifier::external_body]
pub(crate) fn ratio_div(a: (i64, i64), b: (i64, i64)) -> (r: (i64, i64))
    requires
        a.1 > 0,
        b.1 > 0,
        div_fits((a.0 as int, a.1 as int), (b.0 as int, b.1 as int)),
    ensures
        r.1 > 0,
        (r.0 as int, r.1 as int) == ratio_quotient(
            (a.0 as int, a.1 as int),
            (b.0 as int, b.1 as int),
        ),
{
    (num_rational::Ratio::new_raw(a.0, a.1) / num_rational::Ratio::new_raw(b.0, b.1)).into_raw()
}

/// `Ratio * i64`: the denominator's common factor with `k` is cancelled first.
#[verifier::external_body]
pub(crate) fn ratio_mul_int(a: (i64, i64), k: i64) -> (r: (i64, i64))
    requires
        a.1 > 0,
        mul_int_fits((a.0 as int, a.1 as int), k as int),
    ensures
        r.1 > 0,
        (r.0 as int, r.1 as int) == ratio_scaled((a.0 as int, a.1 as int), k as int),
{
    (num_rational::Ratio::new_raw(a.0, a.1) * k).into_raw()
}

/// `Ratio / i64` for a positive divisor: the numerator's common factor with `k`
/// is cancelled first.
#[verifier::external_body]
pub(crate) fn ratio_div_int(a: (i64, i64), k: i64) -> (r: (i64, i64))
    requires
        a.1 > 0,
        div_int_fits((a.0 as int, a.1 as int), k as int),
    ensures
        r.1 > 0,
        (r.0 as int, r.1 as int) == ratio_divided((a.0 as int, a.1 as int), k as int),
{
    (num_rational::Ratio::new_raw(a.0, a.1) / k).into_raw()
}

/// `Ratio::round`: the nearest integer, half-way cases away from zero.
#[verifier::external_body]
pub(crate) fn ratio_round(a: (i64, i64)) -> (r: (i64, i64))
    requires
        a.1 > 0,
    ensures
        r.1 == 1,
        r.0 as int == round_half_away(a.0 as int, a.1 as int),
{
    num_rational::Ratio::new_raw(a.0, a.1).round().into_raw()
}

/// `Ratio::floor`: the greatest integer not above the value. For a negative
/// value it computes `numer - denom` (then adds one), which must fit in an `i64`.
#[verifier::external_body]
pub(crate) fn ratio_floor(a: (i64, i64)) -> (r: (i64, i64))
    requires
        a.1 > 0,
        a.0 >= 0 || in_i64(a.0 - a.1),
    ensures
        r.1 == 1,
        r.0 as int == (a.0 as int) / (a.1 as int),
{
    num_rational::Ratio::new_raw(a.0, a.1).floor().into_raw()
}

/// `Ratio::fract` followed by `into_raw`: the remainder of the numerator by the
/// denominator (sign of the numerator) over the unchanged denominator.
#[verifier::external_body]
pub(crate) fn ratio_fract(a: (i64, i64)) -> (r: (i64, i64))
    requires
        a.1 > 0,
    ensures
        r.1 == a.1,
        r.0 as int == trunc_rem(a.0 as int, a.1 as int),
{
    num_rational::Ratio::new_raw(a.0, a.1).fract().into_raw()
}

/// Greatest common divisor of two positive `i64` values (Euclid).
fn gcd_exec(a: i64, b: i64) -> (r: i64)
    requires
        a > 0,
        b > 0,
    ensures
        r as int == gcd_int(a as int, b as int),
        r > 0,
{
    let mut x: i64 = a;
    let mut y: i64 = b;
    while y != 0
        invariant
            x > 0,
            y >= 0,
            gcd(x as nat, y as nat) == gcd(a as nat, b as nat),
        decreases y,
    {
        let t = x % y;
        x = y;
        y = t;
    }
    x
}

/// The common denominator and the numerators rewritten over it, when all
/// three fit in `i64`.
pub(crate) fn scaled_pair(a: (i64, i64), b: (i64, i64)) -> (r: Option<(i64, i64, i64)>)
    requires
        a.1 > 0,
        b.1 > 0,
    ensures
        ({
            let pa = (a.0 as int, a.1 as int);
            let pb = (b.0 as int, b.1 as int);
            let l = common_denominator(pa, pb);
            let sc = scaled_numerators(pa, pb);
            &&& r is Some <==> (in_i64(l) && in_i64(sc.0) && in_i64(sc.1))
            &&& r matches Some(v) ==> v.0 as int == l && v.1 as int == sc.0 && v.2 as int == sc.1
        }),
{
    if a.1 == b.1 {
        return Some((a.1, a.0, b.0));
    }
    let g = gcd_exec(a.1, b.1);
    proof {
        lemma_gcd_bounded(a.1 as nat, b.1 as nat);
    }
    let f = b.1 / g;
    let l = match a.1.checked_mul(f) {
        Some(l) => l,
        None => {
            return None;
        },
    };
    proof {
        lemma_common_denominator_positive((a.0 as int, a.1 as int), (b.0 as int, b.1 as int));
    }
    let s0 = match a.0.checked_mul(l / a.1) {
        Some(v) => v,
        None => {
            return None;
        },
    };
    let s1 = match b.0.checked_mul(l / b.1) {
        Some(v) => v,
        None => {
            return None;
        },
    };
    Some((l, s0, s1))
}

} // verus!
