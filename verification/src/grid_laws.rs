//! Snapping to a grid: a snapped time point lies on the grid, and snapping it
//! again leaves it where it is.
use vstd::prelude::*;
use vstd::arithmetic::div_mod::{
    lemma_fundamental_div_mod, lemma_fundamental_div_mod_converse, lemma_mod_bound,
    lemma_mod_multiples_basic,
};

use crate::ratio::{
    abs_int, gcd, gcd_int, lemma_gcd_bounded, lemma_gcd_positive, lowest_terms, ratio_divided,
    ratio_scaled, round_half_away,
};
use crate::time_point::quantised_pair;

verus! {

/// The gcd divides both of its arguments.
proof fn lemma_gcd_divides(a: nat, b: nat)
    requires
        a > 0 || b > 0,
    ensures
        gcd(a, b) > 0,
        a % gcd(a, b) == 0,
        b % gcd(a, b) == 0,
    decreases b,
{
    lemma_gcd_positive(a, b);
    let d = gcd(a, b);
    if b == 0 {
        lemma_mod_multiples_basic(1, a as int);
        lemma_mod_multiples_basic(0, a as int);
    } else {
        lemma_gcd_divides(b, a % b);
        lemma_fundamental_div_mod(a as int, b as int);
        lemma_fundamental_div_mod(b as int, d as int);
        lemma_fundamental_div_mod((a % b) as int, d as int);
        let x = b / d;
        let y = (a % b) / d;
        let q = a / b;
        assert(a == d * (x * q + y)) by (nonlinear_arith)
            requires
                a == b * q + a % b,
                b == d * x,
                a % b == d * y,
        ;
        lemma_mod_multiples_basic((x * q + y) as int, d as int);
        assert((x * q + y) * d == d * (x * q + y)) by (nonlinear_arith);
        lemma_mod_multiples_basic(x as int, d as int);
        assert(x * d == b) by (nonlinear_arith)
            requires
                b == d * x,
        ;
    }
}

/// Scaling both arguments scales the gcd.
proof fn lemma_gcd_scale(c: nat, a: nat, b: nat)
    requires
        c > 0,
    ensures
        gcd(c * a, c * b) == c * gcd(a, b),
    decreases b,
{
    if b == 0 {
        assert(c * b == 0) by (nonlinear_arith)
            requires
                b == 0,
        ;
    } else {
        lemma_fundamental_div_mod(a as int, b as int);
        lemma_mod_bound(a as int, b as int);
        let q = a / b;
        let r = a % b;
        assert(c * a == (c * b) * q + c * r) by (nonlinear_arith)
            requires
                a == b * q + r,
        ;
        assert(0 <= c * r < c * b) by (nonlinear_arith)
            requires
                0 <= r < b,
                c > 0,
        ;
        assert(c * b > 0) by (nonlinear_arith)
            requires
                c > 0,
                b > 0,
        ;
        lemma_fundamental_div_mod_converse((c * a) as int, (c * b) as int, q as int, (c * r) as int);
        assert((c * a) % (c * b) == c * r);
        lemma_gcd_scale(c, b, r);
    }
}

/// One has no common factor with anything.
proof fn lemma_gcd_one(c: nat)
    ensures
        gcd(1, c) == 1,
        gcd(c, 1) == 1,
{
    assert(c % 1 == 0);
    if c > 1 {
        lemma_fundamental_div_mod_converse(1, c as int, 0, 1);
        assert(1nat % c == 1);
        assert(gcd(c, 1) == gcd(1, 0));
        assert(gcd(1, c) == gcd(c, 1));
    } else if c == 1 {
        assert(gcd(1, 1) == gcd(1, 0));
    }
}

/// Dividing two numbers by their gcd leaves numbers without common factors.
proof fn lemma_gcd_quotients_coprime(x: nat, y: nat)
    requires
        x > 0 || y > 0,
    ensures
        gcd(x / gcd(x, y), y / gcd(x, y)) == 1,
{
    let g = gcd(x, y);
    lemma_gcd_divides(x, y);
    lemma_fundamental_div_mod(x as int, g as int);
    lemma_fundamental_div_mod(y as int, g as int);
    let x1 = x / g;
    let y1 = y / g;
    assert(x == g * x1 && y == g * y1);
    lemma_gcd_scale(g, x1, y1);
    assert(g * gcd(x1, y1) == g * 1);
    assert(gcd(x1, y1) == 1) by (nonlinear_arith)
        requires
            g * gcd(x1, y1) == g * 1,
            g > 0,
    ;
}

/// A whole number divided by 1 stays itself, even halfway-rounded.
proof fn lemma_round_whole(m: int)
    ensures
        round_half_away(m, 1) == m,
{
    if m >= 0 {
        lemma_fundamental_div_mod_converse(2 * m + 1, 2, m, 1);
    } else {
        lemma_fundamental_div_mod_converse(2 * (-m) + 1, 2, -m, 1);
    }
}

/// `m / k` in lowest terms, and what its parts are.
proof fn lemma_grid_point(m: int, k: int)
    requires
        k > 0,
    ensures
        ({
            let g = gcd_int(m, k);
            let q = ratio_divided((m, 1int), k);
            &&& g > 0
            &&& q.1 > 0
            &&& q.1 * g == k
            &&& q.0 * g == m
            &&& gcd_int(q.0, q.1) == 1
        }),
{
    let g = gcd_int(m, k);
    let am: int = abs_int(m) as int;
    lemma_gcd_divides(am as nat, k as nat);
    lemma_gcd_bounded(am as nat, k as nat);
    lemma_fundamental_div_mod(am as int, g);
    lemma_fundamental_div_mod(k, g);
    let a = m / g;
    let b = k / g;
    // `g` divides `m` itself, whatever its sign
    if m >= 0 {
        assert(am == m);
    } else {
        let x = am / g;
        assert(m == g * (-x)) by (nonlinear_arith)
            requires
                am == g * x,
                am == -m,
        ;
        lemma_fundamental_div_mod_converse(m, g, -x, 0);
    }
    lemma_fundamental_div_mod(m, g);
    assert(a * g == m) by (nonlinear_arith)
        requires
            m == g * (m / g) + m % g,
            m % g == 0,
            a == m / g,
    ;
    assert(b * g == k) by (nonlinear_arith)
        requires
            k == g * (k / g) + k % g,
            k % g == 0,
            b == k / g,
    ;
    assert(b > 0) by (nonlinear_arith)
        requires
            b * g == k,
            k > 0,
            g > 0,
    ;
    // the parts have no common factor
    lemma_gcd_quotients_coprime(am as nat, k as nat);
    assert(abs_int(a) == am / g) by {
        if m >= 0 {
            assert(a >= 0) by (nonlinear_arith)
                requires
                    a * g == m,
                    m >= 0,
                    g > 0,
            ;
        } else {
            assert(a < 0) by (nonlinear_arith)
                requires
                    a * g == m,
                    m < 0,
                    g > 0,
            ;
            assert(am == (-a) * g + 0) by (nonlinear_arith)
                requires
                    a * g == m,
                    am == -m,
            ;
            lemma_fundamental_div_mod_converse(am as int, g, -a, 0);
        }
    }
    assert(gcd_int(a, b) == 1);
    // lowest terms leave a coprime pair as it is
    lemma_fundamental_div_mod_converse(a, 1, a, 0);
    lemma_fundamental_div_mod_converse(b, 1, b, 0);
    assert(ratio_divided((m, 1int), k) == lowest_terms(a, 1 * b));
    assert(lowest_terms(a, b) == (a, b));
}

/// A snapped time point lies on the grid of `1 / k`: its denominator divides
/// `k`.
pub proof fn lemma_quantised_on_grid(t: (int, int), k: int)
    requires
        k > 0,
    ensures
        quantised_pair(t, k).1 > 0,
        k % quantised_pair(t, k).1 == 0,
{
    let scaled = ratio_scaled(t, k);
    let m = round_half_away(scaled.0, scaled.1);
    lemma_grid_point(m, k);
    let q = ratio_divided((m, 1int), k);
    let g = gcd_int(m, k);
    assert(k == g * q.1 + 0) by (nonlinear_arith)
        requires
            q.1 * g == k,
    ;
    lemma_fundamental_div_mod_converse(k, q.1, g, 0);
}

/// Snapping a snapped time point to the same grid leaves it where it is.
pub proof fn lemma_quantise_idempotent(t: (int, int), k: int)
    requires
        k > 0,
    ensures
        quantised_pair(quantised_pair(t, k), k) == quantised_pair(t, k),
{
    let scaled = ratio_scaled(t, k);
    let m = round_half_away(scaled.0, scaled.1);
    let q = ratio_divided((m, 1int), k);
    assert(quantised_pair(t, k) == q);
    lemma_grid_point(m, k);
    let g = gcd_int(m, k);
    let a = q.0;
    let b = q.1;
    // the gcd of `b` and `k = b * g` is `b`
    lemma_gcd_scale(b as nat, 1, g as nat);
    lemma_gcd_one(g as nat);
    assert(b * 1 == b && b * g == k) by (nonlinear_arith)
        requires
            b * g == k,
    ;
    assert(gcd_int(b, k) == b);
    assert(k == g * b + 0) by (nonlinear_arith)
        requires
            b * g == k,
    ;
    lemma_fundamental_div_mod_converse(k, b, g, 0);
    lemma_fundamental_div_mod_converse(b, b, 1, 0);
    assert(ratio_scaled(q, k) == lowest_terms(a * g, 1));
    lemma_gcd_one(abs_int(a * g));
    lemma_fundamental_div_mod_converse(a * g, 1, a * g, 0);
    lemma_fundamental_div_mod_converse(1, 1, 1, 0);
    assert(ratio_scaled(q, k) == (m, 1int));
    lemma_round_whole(m);
}

} // verus!
