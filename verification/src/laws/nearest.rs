//! Rounding goes to the nearest magnitude of the format, and keeps the
//! order.

use vstd::prelude::*;
use vstd::arithmetic::power2::{pow2, lemma_pow2_pos, lemma_pow2_unfold, lemma2_to64};
use vstd::arithmetic::div_mod::lemma_div_denominator;
use crate::root::{isqrt, lemma_isqrt_bounds, nearest_root_code, root_rounds_up};
use crate::rounding::{
    lemma_code_scale,
    lemma_quotient_bounds,
    lemma_quotient_unique,
    nearest_code,
    rounds_up,
    spacing_exp,
};
use crate::scalar::{lemma_units_increase, units_of};

verus! {

/// The spacing exponent of `q` is that of its binade: `q` has 24
/// significant bits above it, or fewer where the exponent is 0.
pub proof fn lemma_spacing_bounds(q: nat)
    ensures
        spacing_exp(q) == 0 ==> q < 0x0100_0000,
        spacing_exp(q) > 0 ==> 0x0080_0000 * pow2(spacing_exp(q)) <= q < 0x0100_0000 * pow2(
            spacing_exp(q),
        ),
    decreases q,
{
    lemma2_to64();
    if q >= 0x0100_0000 {
        lemma_spacing_bounds(q / 2);
        let h = spacing_exp(q / 2);
        lemma_pow2_unfold(h + 1);
        assert(0x0080_0000 * pow2(h + 1) <= q < 0x0100_0000 * pow2(h + 1)) by (nonlinear_arith)
            requires
                pow2(h + 1) == 2 * pow2(h),
                2 * (q / 2) <= q < 2 * (q / 2) + 2,
                q >= 0x0100_0000,
                h == 0 ==> q / 2 < 0x0100_0000 && pow2(h) == 1,
                h > 0 ==> 0x0080_0000 * pow2(h) <= q / 2 < 0x0100_0000 * pow2(h),
        ;
    }
}

/// The pattern `k * 2^23 + m` stands for `m` spacings of `2^k` units, for a
/// count `m` of at most 24 bits that fills them from the exponent 1 on; the
/// count `2^24` included, which is the first pattern of the next exponent.
pub proof fn lemma_code_value(k: nat, m: nat)
    requires
        m <= 0x0100_0000,
        k > 0 ==> m >= 0x0080_0000,
    ensures
        units_of(k * 0x0080_0000 + m) == m * pow2(k),
{
    lemma2_to64();
    let c = k * 0x0080_0000 + m;
    if m == 0x0100_0000 {
        lemma_pow2_unfold(k + 1);
        assert(c == (k + 2) * 0x0080_0000);
        assert(c / 0x0080_0000 == k + 2 && c % 0x0080_0000 == 0) by {
            lemma_quotient_unique(c, 0x0080_0000, k + 2);
        }
        assert(0x0080_0000 * pow2(k + 1) == m * pow2(k)) by (nonlinear_arith)
            requires
                pow2(k + 1) == 2 * pow2(k),
                m == 0x0100_0000,
        ;
    } else if k == 0 {
        assert(m * pow2(0) == m) by (nonlinear_arith)
            requires
                pow2(0) == 1,
        ;
    } else {
        assert(c == (k + 1) * 0x0080_0000 + (m - 0x0080_0000));
        assert(c / 0x0080_0000 == k + 1 && c % 0x0080_0000 == m - 0x0080_0000) by {
            lemma_quotient_unique(c, 0x0080_0000, k + 1);
        }
    }
}

/// Rounding a quotient goes to the nearest magnitude, ties to even: the
/// midpoint between the rounded value and any smaller magnitude is not
/// above `n / d`, the midpoint between it and any larger magnitude is not
/// below, and where another magnitude is as near, the rounded pattern is
/// even.
pub proof fn lemma_round_is_nearest(n: nat, d: nat, c: nat)
    requires
        d > 0,
    ensures
        ({
            let r = nearest_code(n, d);
            &&& c < r ==> (units_of(c) + units_of(r)) * d <= 2 * n
            &&& c > r ==> (units_of(c) + units_of(r)) * d >= 2 * n
            &&& (c != r && (units_of(c) + units_of(r)) * d == 2 * n) ==> r % 2 == 0
        }),
{
    let q = n / d;
    let k = spacing_exp(q);
    let u = pow2(k);
    let du = d * u;
    let m = n / du;
    let rem = n % du;
    lemma_pow2_pos(k);
    assert(du > 0) by (nonlinear_arith)
        requires
            du == d * u,
            d > 0,
            u > 0,
    ;
    lemma_div_denominator(n as int, d as int, u as int);
    assert(m == q / u);
    lemma_spacing_bounds(q);
    lemma_quotient_bounds(q, u);
    lemma2_to64();
    assert(m < 0x0100_0000 && (k > 0 ==> m >= 0x0080_0000)) by (nonlinear_arith)
        requires
            (q / u) * u <= q < (q / u + 1) * u,
            m == q / u,
            u > 0,
            k == 0 ==> q < 0x0100_0000 && u == 1,
            k > 0 ==> 0x0080_0000 * u <= q < 0x0100_0000 * u,
    ;
    let low = k * 0x0080_0000 + m;
    lemma_code_value(k, m);
    lemma_code_value(k, m + 1);
    assert(units_of(low) == m * u);
    assert(units_of(low + 1) == (m + 1) * u);
    lemma_quotient_bounds(n, du);
    let r = nearest_code(n, d);
    let up = rounds_up(rem, du, m);
    assert(r == low + (if up { 1nat } else { 0nat }));
    assert(low % 2 == m % 2);
    let uc = units_of(c);
    if c < low {
        lemma_units_increase(low, c);
    }
    if c > low + 1 {
        lemma_units_increase(c, low + 1);
    }
    let ur = units_of(r);
    if c < r {
        // at most the lower neighbour
        assert((uc + ur) * d <= 2 * n && ((uc + ur) * d == 2 * n ==> r % 2 == 0))
            by (nonlinear_arith)
            requires
                n == m * du + rem,
                du == d * u,
                d > 0,
                uc <= m * u,
                up ==> ur == (m + 1) * u && uc <= m * u && (2 * rem > du || (2 * rem == du && r % 2
                    == 0)),
                !up ==> ur == m * u && uc < m * u,
        ;
    }
    if c > r {
        assert((uc + ur) * d >= 2 * n && ((uc + ur) * d == 2 * n ==> r % 2 == 0))
            by (nonlinear_arith)
            requires
                n == m * du + rem,
                rem < du,
                du == d * u,
                d > 0,
                uc >= (m + 1) * u,
                !up ==> ur == m * u && (2 * rem < du || (2 * rem == du && r % 2 == 0)),
                up ==> ur == (m + 1) * u && uc > (m + 1) * u,
        ;
    }
}

/// Rounding a square root goes to the nearest magnitude, ties to even: the
/// midpoint between the rounded value and any smaller magnitude is not
/// above the root of `n`, the midpoint between it and any larger magnitude
/// is not below, and where another magnitude is as near, the rounded
/// pattern is even.
pub proof fn lemma_round_root_is_nearest(n: nat, c: nat)
    ensures
        ({
            let r = nearest_root_code(n);
            let twice = units_of(c) + units_of(r);
            &&& c < r ==> twice * twice <= 4 * n
            &&& c > r ==> twice * twice >= 4 * n
            &&& (c != r && twice * twice == 4 * n) ==> r % 2 == 0
        }),
{
    let s = isqrt(n);
    let k = spacing_exp(s);
    let u = pow2(k);
    let m = s / u;
    lemma_pow2_pos(k);
    lemma_isqrt_bounds(n);
    lemma_spacing_bounds(s);
    lemma_quotient_bounds(s, u);
    lemma2_to64();
    assert(m < 0x0100_0000 && (k > 0 ==> m >= 0x0080_0000)) by (nonlinear_arith)
        requires
            (s / u) * u <= s < (s / u + 1) * u,
            m == s / u,
            u > 0,
            k == 0 ==> s < 0x0100_0000 && u == 1,
            k > 0 ==> 0x0080_0000 * u <= s < 0x0100_0000 * u,
    ;
    let low = k * 0x0080_0000 + m;
    lemma_code_value(k, m);
    lemma_code_value(k, m + 1);
    let below = m * u;
    let above = (m + 1) * u;
    assert(units_of(low) == below);
    assert(units_of(low + 1) == above);
    assert(below * below <= n < above * above) by (nonlinear_arith)
        requires
            below <= s,
            s + 1 <= above,
            s * s <= n < (s + 1) * (s + 1),
    ;
    let mid: nat = (2 * m + 1) * u;
    assert(mid == below + above) by (nonlinear_arith)
        requires
            mid == (2 * m + 1) * u,
            below == m * u,
            above == (m + 1) * u,
    ;
    let r = nearest_root_code(n);
    let up = root_rounds_up(n, m, u);
    assert(r == low + (if up { 1nat } else { 0nat }));
    assert(low % 2 == m % 2);
    let uc = units_of(c);
    if c < low {
        lemma_units_increase(low, c);
    }
    if c > low + 1 {
        lemma_units_increase(c, low + 1);
    }
    let ur = units_of(r);
    let twice = uc + ur;
    if c < r {
        assert(twice * twice <= 4 * n && (twice * twice == 4 * n ==> r % 2 == 0))
            by (nonlinear_arith)
            requires
                twice == uc + ur,
                below * below <= n,
                mid == below + above,
                uc <= below,
                up ==> ur == above && (4 * n > mid * mid || (4 * n == mid * mid && r % 2 == 0)),
                !up ==> ur == below && uc < below,
        ;
    }
    if c > r {
        assert(twice * twice >= 4 * n && (twice * twice == 4 * n ==> r % 2 == 0))
            by (nonlinear_arith)
            requires
                twice == uc + ur,
                n < above * above,
                mid == below + above,
                uc >= above,
                !up ==> ur == below && (4 * n < mid * mid || (4 * n == mid * mid && r % 2 == 0)),
                up ==> ur == above && uc > above,
        ;
    }
}

/// A magnitude of the format rounds to itself.
pub proof fn lemma_round_keeps(c: nat)
    ensures
        nearest_code(units_of(c), 1) == c,
{
    let r = nearest_code(units_of(c), 1);
    lemma_round_is_nearest(units_of(c), 1, c);
    if c < r {
        lemma_units_increase(r, c);
    }
    if c > r {
        lemma_units_increase(c, r);
    }
    assert((units_of(c) + units_of(r)) * 1 == units_of(c) + units_of(r)) by (nonlinear_arith);
}

/// A magnitude of the format whose square is `n` is the rounded root of
/// `n`.
pub proof fn lemma_round_root_keeps(n: nat, c: nat)
    requires
        units_of(c) * units_of(c) == n,
    ensures
        nearest_root_code(n) == c,
{
    let r = nearest_root_code(n);
    lemma_round_root_is_nearest(n, c);
    let uc = units_of(c);
    let ur = units_of(r);
    if c < r {
        // the midpoint is not above the root, so the rounded value is not
        // above `c`
        lemma_units_increase(r, c);
        assert(ur <= uc) by (nonlinear_arith)
            requires
                (uc + ur) * (uc + ur) <= 4 * n,
                uc * uc == n,
        ;
    }
    if c > r {
        lemma_units_increase(c, r);
        assert(ur >= uc) by (nonlinear_arith)
            requires
                (uc + ur) * (uc + ur) >= 4 * n,
                uc * uc == n,
        ;
    }
}

/// Two quotients of one value round to one pattern.
pub proof fn lemma_round_of_equal_quotients(n1: nat, d1: nat, n2: nat, d2: nat)
    requires
        d1 > 0,
        d2 > 0,
        n1 * d2 == n2 * d1,
    ensures
        nearest_code(n1, d1) == nearest_code(n2, d2),
{
    lemma_code_scale(n1, d1, d2);
    lemma_code_scale(n2, d2, d1);
    assert(d2 * n1 == d1 * n2 && d2 * d1 == d1 * d2) by (nonlinear_arith)
        requires
            n1 * d2 == n2 * d1,
    ;
}

/// Rounding keeps the order: the smaller quotient rounds to the smaller
/// pattern, or to the same.
pub proof fn lemma_round_keeps_order(n1: nat, d1: nat, n2: nat, d2: nat)
    requires
        d1 > 0,
        d2 > 0,
        n1 * d2 <= n2 * d1,
    ensures
        nearest_code(n1, d1) <= nearest_code(n2, d2),
{
    let r1 = nearest_code(n1, d1);
    let r2 = nearest_code(n2, d2);
    if r1 > r2 {
        lemma_round_is_nearest(n1, d1, r2);
        lemma_round_is_nearest(n2, d2, r1);
        lemma_units_increase(r1, r2);
        let m = units_of(r1) + units_of(r2);
        assert(m > 0);
        assert(n1 * d2 == n2 * d1) by (nonlinear_arith)
            requires
                m * d1 <= 2 * n1,
                m * d2 >= 2 * n2,
                n1 * d2 <= n2 * d1,
                m > 0,
                d1 > 0,
                d2 > 0,
        ;
        lemma_round_of_equal_quotients(n1, d1, n2, d2);
    }
}

/// A quotient that is at most a magnitude of the format rounds to at most
/// the pattern of that magnitude.
pub proof fn lemma_round_below(n: nat, d: nat, c: nat)
    requires
        d > 0,
        n <= units_of(c) * d,
    ensures
        nearest_code(n, d) <= c,
{
    lemma_round_keeps(c);
    assert(n * 1 == n) by (nonlinear_arith);
    lemma_round_keeps_order(n, d, units_of(c), 1);
}

} // verus!
