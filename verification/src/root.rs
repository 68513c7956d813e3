//! Rounding of exact square roots to the nearest binary32 magnitude.
//!
//! The root of a whole number `n` is rarely a quotient, so it gets a rounding
//! of its own, stated by comparing squares: `m` spacings of `u` lie below the
//! root of `n` when `(m * u)^2 <= n`, and the root lies above the midpoint to
//! the next spacing when `((2 * m + 1) * u)^2 < 4 * n`. That the pattern so
//! named is the nearest one is shown among the laws, in `laws::nearest`.

use vstd::prelude::*;
use vstd::arithmetic::power2::{pow2, lemma_pow2_pos, lemma_pow2_unfold, lemma_pow2_adds, lemma2_to64};
use vstd::arithmetic::div_mod::lemma_div_denominator;
use crate::rounding::spacing_exp;

verus! {

/// The whole part of the square root of `n`.
pub open spec fn isqrt(n: nat) -> nat
    decreases n,
{
    if n == 0 {
        0
    } else {
        let s: nat = 2 * isqrt(n / 4);
        if (s + 1) * (s + 1) <= n {
            s + 1
        } else {
            s
        }
    }
}

/// Whether the root of `n` rounds upwards from `m` spacings of `u`: above
/// the midpoint always, on the midpoint when `m` is odd.
pub open spec fn root_rounds_up(n: nat, m: nat, u: nat) -> bool {
    let mid: nat = (2 * m + 1) * u;
    4 * n > mid * mid || (4 * n == mid * mid && m % 2 == 1)
}

/// Pattern of the magnitude nearest to the square root of `n`, in the units
/// of that root, ties to even, as if the exponent had no upper limit.
pub open spec fn nearest_root_code(n: nat) -> nat {
    let s: nat = isqrt(n);
    let k: nat = spacing_exp(s);
    let u: nat = pow2(k);
    let m: nat = s / u;
    k * 0x0080_0000 + m + (if root_rounds_up(n, m, u) { 1nat } else { 0nat })
}

/// Pattern of the binary32 magnitude nearest to the square root of `n`.
pub open spec fn round_root_magnitude(n: nat) -> u32 {
    let code: nat = nearest_root_code(n);
    if code >= 0x7f80_0000 {
        0x7f80_0000u32
    } else {
        code as u32
    }
}

/// The whole root brackets its argument between two consecutive squares.
pub proof fn lemma_isqrt_bounds(n: nat)
    ensures
        isqrt(n) * isqrt(n) <= n < (isqrt(n) + 1) * (isqrt(n) + 1),
    decreases n,
{
    if n != 0 {
        let r = isqrt(n / 4);
        lemma_isqrt_bounds(n / 4);
        let s: nat = 2 * r;
        assert(s * s <= n && n < (s + 2) * (s + 2)) by (nonlinear_arith)
            requires
                s == 2 * r,
                r * r <= n / 4,
                n / 4 < (r + 1) * (r + 1),
                4 * (n / 4) <= n < 4 * (n / 4) + 4,
        ;
        let up: nat = s + 1;
        assert((up + 1) * (up + 1) == (s + 2) * (s + 2)) by (nonlinear_arith)
            requires
                up == s + 1,
        ;
        assert(isqrt(n) == (if up * up <= n {
            up
        } else {
            s
        }));
    } else {
        assert(isqrt(n) == 0);
        assert(0 * 0 == 0 && (0 + 1) * (0 + 1) == 1) by (nonlinear_arith);
    }
}

/// Only the whole root lies between the two squares.
pub proof fn lemma_isqrt_unique(n: nat, s: nat)
    requires
        s * s <= n < (s + 1) * (s + 1),
    ensures
        isqrt(n) == s,
{
    lemma_isqrt_bounds(n);
    let t = isqrt(n);
    assert(t == s) by (nonlinear_arith)
        requires
            s * s <= n < (s + 1) * (s + 1),
            t * t <= n < (t + 1) * (t + 1),
    ;
}

/// From the first normal binade on, four times the argument moves the
/// nearest pattern of the root up by one exponent.
pub proof fn lemma_root_code_quadruple(n: nat)
    requires
        isqrt(n) >= 0x0080_0000,
    ensures
        nearest_root_code(4 * n) == nearest_root_code(n) + 0x0080_0000,
        isqrt(4 * n) >= 0x0080_0000,
{
    let s = isqrt(n);
    let k = spacing_exp(s);
    let u = pow2(k);
    let m = s / u;
    let s4 = isqrt(4 * n);
    assert((4 * n) / 4 == n);
    assert(s4 == 2 * s || s4 == 2 * s + 1);
    assert(s4 / 2 == s);
    assert(spacing_exp(s4) == k + 1);
    lemma_pow2_unfold(k + 1);
    lemma_pow2_pos(k);
    let u4 = pow2(k + 1);
    lemma_div_denominator(s4 as int, 2, u as int);
    assert(s4 / u4 == m);
    let mid: nat = (2 * m + 1) * u;
    let mid4: nat = (2 * m + 1) * u4;
    assert(mid4 * mid4 == 4 * (mid * mid)) by (nonlinear_arith)
        requires
            mid == (2 * m + 1) * u,
            mid4 == (2 * m + 1) * u4,
            u4 == 2 * u,
    ;
}

/// From the first normal binade on, `4^t` times the argument moves the
/// nearest pattern of the root up by `t` exponents.
pub proof fn lemma_root_code_shift(n: nat, t: nat)
    requires
        isqrt(n) >= 0x0080_0000,
    ensures
        nearest_root_code(n * pow2(2 * t)) == nearest_root_code(n) + t * 0x0080_0000,
        isqrt(n * pow2(2 * t)) >= 0x0080_0000,
    decreases t,
{
    lemma2_to64();
    if t == 0 {
        assert(n * pow2(0) == n) by (nonlinear_arith)
            requires
                pow2(0) == 1,
        ;
    } else {
        let h = (t - 1) as nat;
        lemma_root_code_shift(n, h);
        lemma_pow2_adds(2, 2 * h);
        let nh = n * pow2(2 * h);
        assert(n * pow2(2 * t) == 4 * nh) by (nonlinear_arith)
            requires
                pow2(2 * t) == 4 * pow2(2 * h),
                nh == n * pow2(2 * h),
        ;
        lemma_root_code_quadruple(nh);
        assert(t * 0x0080_0000 == h * 0x0080_0000 + 0x0080_0000) by (nonlinear_arith)
            requires
                h == t - 1,
        ;
    }
}

/// Whole part of the square root of a number below 2^48.
pub fn whole_root(n: u64) -> (s: u64)
    requires
        n < 0x1_0000_0000_0000,
    ensures
        s == isqrt(n as nat),
        s < 0x0100_0000,
{
    let mut s: u64 = 0;
    let mut w: u64 = 0x0100_0000;
    let mut i: u32 = 24;
    proof {
        lemma2_to64();
    }
    while i > 0
        invariant
            i <= 24,
            w == pow2(i as nat),
            s + w <= 0x0100_0000,
            s * s <= n,
            n < (s + w) * (s + w),
        decreases i,
    {
        proof {
            lemma_pow2_unfold(i as nat);
        }
        let half: u64 = w / 2;
        let t: u64 = s + half;
        proof {
            assert(t * t <= 0x1_0000_0000_0000) by (nonlinear_arith)
                requires
                    t <= 0x0100_0000,
            ;
            assert(t + half == s + w);
        }
        if t * t <= n {
            s = t;
        }
        w = half;
        i = i - 1;
    }
    proof {
        lemma_isqrt_unique(n as nat, s as nat);
    }
    s
}

/// Nearest binary32 magnitude to the square root of `m * 2^j`, counted in
/// the units of that root, for a significand `m` of 24 bits.
pub fn round_root(m: u64, j: u32) -> (bits: u32)
    requires
        0x0080_0000 <= m < 0x0100_0000,
        23 <= j <= 420,
    ensures
        bits == round_root_magnitude((m as nat) * pow2(j as nat)),
{
    let odd: bool = (j - 23) % 2 == 1;
    let t: u32 = (j - 23) / 2;
    let n: u64 = if odd {
        m * 0x0100_0000
    } else {
        m * 0x0080_0000
    };
    let s: u64 = whole_root(n);
    proof {
        lemma_isqrt_bounds(n as nat);
        assert(s * s < 0x1_0000_0000_0000) by (nonlinear_arith)
            requires
                s < 0x0100_0000,
        ;
    }
    let bump: u64 = if n - s * s > s {
        1
    } else {
        0
    };
    proof {
        lemma2_to64();
        lemma_isqrt_bounds(n as nat);
        assert(s >= 0x0080_0000) by (nonlinear_arith)
            requires
                n < (s + 1) * (s + 1),
                n >= 0x4000_0000_0000,
        ;
        // below 2^24 the spacing of the root is one unit
        assert(pow2(0) == 1);
        assert(s as nat / 1 == s);
        let mid: nat = (2 * s + 1) as nat * 1;
        assert(mid * mid == 4 * (s * s) + 4 * s + 1) by (nonlinear_arith)
            requires
                mid == 2 * s + 1,
        ;
        assert(nearest_root_code(n as nat) == s + bump);
        lemma_root_code_shift(n as nat, t as nat);
        if odd {
            lemma_pow2_adds(24, (2 * t) as nat);
        } else {
            lemma_pow2_adds(23, (2 * t) as nat);
        }
        assert((m as nat) * pow2(j as nat) == (n as nat) * pow2((2 * t) as nat))
            by (nonlinear_arith)
            requires
                n == (if odd {
                    m * 0x0100_0000
                } else {
                    m * 0x0080_0000
                }),
                pow2(j as nat) == (if odd {
                    0x0100_0000 * pow2((2 * t) as nat)
                } else {
                    0x0080_0000 * pow2((2 * t) as nat)
                }),
        ;
        assert(t * 0x0080_0000 <= 199 * 0x0080_0000) by (nonlinear_arith)
            requires
                t <= 199,
        ;
    }
    (s + bump + (t as u64) * 0x0080_0000) as u32
}

} // verus!
