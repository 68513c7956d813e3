//! Rounding of exact quotients to the nearest binary32 magnitude.
//!
//! Every finite binary32 magnitude is a whole number of units of 2^-149, the
//! smallest positive value of the format. Its bit pattern, read as a number,
//! is `k * 2^23 + m`, where `2^k` units is the spacing between neighbouring
//! values at that size and `m < 2^24` counts the spacings. This module says
//! which pattern is nearest to a quotient `n / d` of units, ties going to the
//! even pattern, and computes it. That the pattern it names is the nearest
//! one is shown among the laws, in `laws::nearest`.

use vstd::prelude::*;
use vstd::arithmetic::power2::{
    pow2,
    lemma_pow2_pos,
    lemma_pow2_unfold,
    lemma_pow2_adds,
    lemma_pow2_strictly_increases,
    lemma2_to64,
};
use vstd::arithmetic::div_mod::{
    lemma_div_multiples_vanish_quotient,
    lemma_truncate_middle,
    lemma_div_denominator,
    lemma_fundamental_div_mod,
    lemma_fundamental_div_mod_converse,
    lemma_mod_bound,
    lemma_div_is_ordered,
};
use vstd::bits::lemma_u64_shl_is_mul;

verus! {

/// Pattern of positive infinity; every larger magnitude pattern is a NaN.
pub const INFINITY_BITS: u32 = 0x7f80_0000;

/// Exponent `k` of the spacing `2^k` (in units) between neighbouring
/// magnitudes around `q` units: 0 below 2^24 units, then one more for each
/// doubling.
pub open spec fn spacing_exp(q: nat) -> nat
    decreases q,
{
    if q < 0x0100_0000 {
        0
    } else {
        1 + spacing_exp(q / 2)
    }
}

/// Whether a remainder `r` out of a spacing `u` rounds upwards, given the
/// count `m` below it: above the midpoint always, on the midpoint when `m`
/// is odd.
pub open spec fn rounds_up(r: nat, u: nat, m: nat) -> bool {
    2 * r > u || (2 * r == u && m % 2 == 1)
}

/// Pattern of the magnitude nearest to `n / d` units, ties to even, as if
/// the exponent had no upper limit.
pub open spec fn nearest_code(n: nat, d: nat) -> nat
    recommends
        d > 0,
{
    let k: nat = spacing_exp(n / d);
    let u: nat = d * pow2(k);
    let m: nat = n / u;
    let r: nat = n % u;
    k * 0x0080_0000 + m + (if rounds_up(r, u, m) { 1nat } else { 0nat })
}

/// Pattern of the binary32 magnitude nearest to `n / d` units, ties to even;
/// what lies beyond the largest finite magnitude becomes infinity.
pub open spec fn round_magnitude(n: nat, d: nat) -> u32
    recommends
        d > 0,
{
    let code: nat = nearest_code(n, d);
    if code >= 0x7f80_0000 {
        0x7f80_0000u32
    } else {
        code as u32
    }
}

/// A quotient lies between its floor and the next integer.
pub proof fn lemma_quotient_bounds(n: nat, d: nat)
    requires
        d > 0,
    ensures
        (n / d) * d <= n < (n / d + 1) * d,
        n == (n / d) * d + n % d,
        n % d < d,
{
    lemma_fundamental_div_mod(n as int, d as int);
    lemma_mod_bound(n as int, d as int);
    assert((n / d) * d == d * (n / d)) by (nonlinear_arith);
    assert((n / d + 1) * d == (n / d) * d + d) by (nonlinear_arith);
}

/// The floor of a quotient is the one integer whose multiples bracket the
/// numerator.
pub proof fn lemma_quotient_unique(n: nat, d: nat, q: nat)
    requires
        d > 0,
        q * d <= n < (q + 1) * d,
    ensures
        n / d == q,
        n % d == n - q * d,
{
    assert((q + 1) * d == q * d + d) by (nonlinear_arith);
    lemma_fundamental_div_mod_converse(n as int, d as int, q as int, n - q * d);
}

/// The nearest pattern depends only on the value of the quotient: a common
/// factor of numerator and denominator changes nothing.
pub proof fn lemma_code_scale(n: nat, d: nat, c: nat)
    requires
        d > 0,
        c > 0,
    ensures
        nearest_code(c * n, c * d) == nearest_code(n, d),
{
    let k = spacing_exp(n / d);
    let u = d * pow2(k);
    lemma_pow2_pos(k);
    assert(u > 0) by (nonlinear_arith)
        requires
            u == d * pow2(k),
            d > 0,
            pow2(k) > 0,
    ;
    lemma_div_multiples_vanish_quotient(c as int, n as int, d as int);
    assert((c * n) / (c * d) == n / d);
    assert((c * d) * pow2(k) == c * u) by (nonlinear_arith)
        requires
            u == d * pow2(k),
    ;
    lemma_div_multiples_vanish_quotient(c as int, n as int, u as int);
    lemma_truncate_middle(n as int, c as int, u as int);
    let r = n % u;
    let m = n / u;
    assert((c * n) % (c * u) == c * r);
    assert((c * n) / (c * u) == m);
    assert(rounds_up(c * r, c * u, m) == rounds_up(r, u, m)) by (nonlinear_arith)
        requires
            c > 0,
    ;
}

/// Below 2^24 units the spacing is one unit: the nearest pattern is the
/// nearest integer.
pub proof fn lemma_code_small(n: nat, d: nat)
    requires
        d > 0,
        n / d < 0x0100_0000,
    ensures
        nearest_code(n, d) == n / d + (if rounds_up(n % d, d, n / d) { 1nat } else { 0nat }),
{
    lemma2_to64();
    assert(d * pow2(0) == d) by (nonlinear_arith)
        requires
            pow2(0) == 1,
    ;
}

/// From the first normal binade on, doubling a value moves its nearest
/// pattern up by one exponent.
pub proof fn lemma_code_double(n: nat, d: nat)
    requires
        d > 0,
        n / d >= 0x0080_0000,
    ensures
        nearest_code(2 * n, d) == nearest_code(n, d) + 0x0080_0000,
{
    let q = n / d;
    let k = spacing_exp(q);
    let u = d * pow2(k);
    lemma_pow2_pos(k);
    assert(u > 0) by (nonlinear_arith)
        requires
            u == d * pow2(k),
            d > 0,
            pow2(k) > 0,
    ;
    // the doubled quotient halves back to the old one
    lemma_div_denominator((2 * n) as int, d as int, 2);
    lemma_div_multiples_vanish_quotient(2, n as int, d as int);
    assert(d * 2 == 2 * d) by (nonlinear_arith);
    assert(((2 * n) / d) / 2 == q);
    lemma_div_is_ordered(n as int, (2 * n) as int, d as int);
    lemma_quotient_bounds(n, d);
    lemma_quotient_bounds(2 * n, d);
    assert((2 * n) / d >= 2 * q) by (nonlinear_arith)
        requires
            q * d <= n,
            2 * n < ((2 * n) / d + 1) * d,
            d > 0,
    ;
    assert(spacing_exp((2 * n) / d) == k + 1);
    lemma_pow2_unfold(k + 1);
    assert(d * pow2(k + 1) == 2 * u) by (nonlinear_arith)
        requires
            pow2(k + 1) == 2 * pow2(k),
            u == d * pow2(k),
    ;
    lemma_div_multiples_vanish_quotient(2, n as int, u as int);
    lemma_truncate_middle(n as int, 2, u as int);
    let r = n % u;
    let m = n / u;
    assert((2 * n) / (2 * u) == m);
    assert((2 * n) % (2 * u) == 2 * r);
    assert(rounds_up(2 * r, 2 * u, m) == rounds_up(r, u, m));
}

/// From the first normal binade on, scaling a value by `2^e` moves its
/// nearest pattern up by `e` exponents.
pub proof fn lemma_code_shift(n: nat, d: nat, e: nat)
    requires
        d > 0,
        n / d >= 0x0080_0000,
    ensures
        nearest_code(n * pow2(e), d) == nearest_code(n, d) + e * 0x0080_0000,
    decreases e,
{
    if e == 0 {
        lemma2_to64();
        assert(n * pow2(0) == n) by (nonlinear_arith)
            requires
                pow2(0) == 1,
        ;
    } else {
        let h = (e - 1) as nat;
        lemma_code_shift(n, d, h);
        lemma_pow2_unfold(e);
        lemma_pow2_pos(h);
        let nh = n * pow2(h);
        assert(n * pow2(e) == 2 * nh) by (nonlinear_arith)
            requires
                pow2(e) == 2 * pow2(h),
                nh == n * pow2(h),
        ;
        assert(nh >= n) by (nonlinear_arith)
            requires
                nh == n * pow2(h),
                pow2(h) > 0,
        ;
        lemma_div_is_ordered(n as int, nh as int, d as int);
        lemma_code_double(nh, d);
        assert(e * 0x0080_0000 == h * 0x0080_0000 + 0x0080_0000) by (nonlinear_arith)
            requires
                h == e - 1,
        ;
    }
}

/// A zero numerator rounds to the zero pattern.
pub proof fn lemma_code_zero(d: nat)
    requires
        d > 0,
    ensures
        nearest_code(0, d) == 0,
{
    assert(0 * d == 0 && (0 + 1) * d == d) by (nonlinear_arith);
    lemma_quotient_unique(0, d, 0);
    lemma_code_small(0, d);
}

/// A quotient below a quarter of a unit rounds to the zero pattern.
pub proof fn lemma_code_tiny(n: nat, d: nat)
    requires
        d > 0,
        4 * n < d,
    ensures
        nearest_code(n, d) == 0,
{
    assert(0 * d == 0 && (0 + 1) * d == d) by (nonlinear_arith);
    lemma_quotient_unique(n, d, 0);
    lemma_code_small(n, d);
}

/// A magnitude of 24 significant bits `m * 2^g` that gains or loses `t`,
/// less than a quarter of the spacing below it, keeps its pattern: the
/// exact sum or difference, scaled by `2^k`, rounds back to `m` at exponent
/// `g + k`.
pub proof fn lemma_code_absorbs(m: nat, t: nat, g: nat, k: nat, minus: bool)
    requires
        0x0080_0000 <= m < 0x0100_0000,
        t < 0x0100_0000,
        g >= 27,
    ensures
        m * pow2(g) > t,
        nearest_code(
            ((if minus {
                m * pow2(g) - t
            } else {
                (m * pow2(g) + t) as int
            }) as nat) * pow2(k),
            1,
        ) == m + (g + k) * 0x0080_0000,
{
    let p = pow2(g);
    lemma2_to64();
    lemma_pow2_strictly_increases(25, g);
    assert(m * p > t) by (nonlinear_arith)
        requires
            m >= 0x0080_0000,
            p > 0x0200_0000,
            t < 0x0100_0000,
    ;
    let total: nat = (if minus {
        m * p - t
    } else {
        (m * p + t) as int
    }) as nat;
    let goal = nearest_code(total * pow2(k), 1);
    if minus && t > 0 && m == 0x0080_0000 {
        let h = (g - 1) as nat;
        let half = pow2(h);
        lemma_pow2_unfold(g);
        lemma_pow2_strictly_increases(25, h);
        let top: nat = 0x00ff_ffff;
        assert(top * half <= total < (top + 1) * half) by (nonlinear_arith)
            requires
                total == m * p - t,
                m == 0x0080_0000,
                p == 2 * half,
                0 < t < 0x0100_0000,
                half >= 0x0200_0000,
                top == 0x00ff_ffff,
        ;
        lemma_quotient_unique(total, half, top);
        assert(total % half == half - t) by (nonlinear_arith)
            requires
                total % half == total - top * half,
                total == m * p - t,
                m == 0x0080_0000,
                p == 2 * half,
                top == 0x00ff_ffff,
        ;
        lemma_code_small(total, half);
        assert(nearest_code(total, half) == 0x0100_0000);
        lemma_code_shift(total, half, h + k);
        lemma_pow2_adds(h, k);
        assert(total * pow2(h + k) == half * (total * pow2(k))) by (nonlinear_arith)
            requires
                pow2(h + k) == half * pow2(k),
        ;
        assert(half * 1 == half) by (nonlinear_arith);
        lemma_code_scale(total * pow2(k), 1, half);
        assert(0x0100_0000 + (h + k) * 0x0080_0000 == m + (g + k) * 0x0080_0000)
            by (nonlinear_arith)
            requires
                h == g - 1,
                m == 0x0080_0000,
        ;
    } else {
        if minus && t > 0 {
            let low = (m - 1) as nat;
            assert(low * p <= total < (low + 1) * p) by (nonlinear_arith)
                requires
                    total == m * p - t,
                    low == m - 1,
                    0 < t < 0x0100_0000,
                    p > 0x0200_0000,
            ;
            lemma_quotient_unique(total, p, low);
            assert(total % p == p - t) by (nonlinear_arith)
                requires
                    total % p == total - low * p,
                    total == m * p - t,
                    low == m - 1,
            ;
        } else {
            assert(m * p <= total < (m + 1) * p) by (nonlinear_arith)
                requires
                    total == m * p + t || (total == m * p - t && t == 0),
                    t < 0x0100_0000,
                    p > 0x0200_0000,
            ;
            lemma_quotient_unique(total, p, m);
            assert(total % p == t) by (nonlinear_arith)
                requires
                    total % p == total - m * p,
                    total == m * p + t || (total == m * p - t && t == 0),
            ;
        }
        lemma_code_small(total, p);
        assert(nearest_code(total, p) == m);
        lemma_code_shift(total, p, g + k);
        lemma_pow2_adds(g, k);
        assert(total * pow2(g + k) == p * (total * pow2(k))) by (nonlinear_arith)
            requires
                pow2(g + k) == p * pow2(k),
        ;
        assert(p * 1 == p) by (nonlinear_arith);
        lemma_code_scale(total * pow2(k), 1, p);
    }
}

/// `x` doubled `s` times.
pub fn shift_left(x: u64, s: u64) -> (r: u64)
    requires
        s < 64,
        x * pow2(s as nat) <= u64::MAX,
    ensures
        r == x * pow2(s as nat),
{
    proof {
        lemma_u64_shl_is_mul(x, s);
    }
    x << s
}

/// Nearest binary32 magnitude to the quotient `(n * 2^up) / (d * 2^down)`,
/// counted in units of 2^-149, ties to even; for a numerator `n` below 2^56
/// and a denominator `d` below 2^32.
pub fn round_ratio(n: u64, d: u64, up: u32, down: u32) -> (bits: u32)
    requires
        n < 0x0100_0000_0000_0000,
        0 < d < 0x1_0000_0000,
        up <= 4096,
        down <= 4096,
    ensures
        bits == round_magnitude((n as nat) * pow2(up as nat), (d as nat) * pow2(down as nat)),
{
    let ghost n0 = n;
    let ghost d0 = d;
    let ghost goal = nearest_code((n as nat) * pow2(up as nat), (d as nat) * pow2(down as nat));
    proof {
        lemma_pow2_pos(up as nat);
        lemma_pow2_pos(down as nat);
        assert((d as nat) * pow2(down as nat) > 0) by (nonlinear_arith)
            requires
                d > 0,
                pow2(down as nat) > 0,
        ;
    }
    if n == 0 {
        proof {
            assert((n as nat) * pow2(up as nat) == 0) by (nonlinear_arith)
                requires
                    n == 0,
            ;
            lemma_code_zero((d as nat) * pow2(down as nat));
        }
        return 0;
    }
    let mut n: u64 = n;
    let mut d: u64 = d;
    let mut up: u64 = up as u64;
    let mut down: u64 = down as u64;
    let ghost up0 = up;
    let ghost down0 = down;
    // bring the quotient below 2^24
    while n / d >= 0x0100_0000
        invariant
            n == n0,
            0 < n < 0x0100_0000_0000_0000,
            0 < d < 0x2_0000_0000,
            up0 <= up,
            up - up0 < d,
            down == down0,
            up0 <= 4096,
            nearest_code((n as nat) * pow2(up as nat), (d as nat) * pow2(down as nat)) == goal,
        decreases 0x2_0000_0000 - d,
    {
        proof {
            lemma_quotient_bounds(n as nat, d as nat);
            assert(d * 0x0100_0000 <= n) by (nonlinear_arith)
                requires
                    (n / d) * d <= n,
                    n / d >= 0x0100_0000,
                    d > 0,
            ;
            let x = (n as nat) * pow2(up as nat);
            let y = (d as nat) * pow2(down as nat);
            lemma_pow2_pos(down as nat);
            assert(y > 0) by (nonlinear_arith)
                requires
                    y == (d as nat) * pow2(down as nat),
                    d > 0,
                    pow2(down as nat) > 0,
            ;
            lemma_pow2_unfold((up + 1) as nat);
            assert((n as nat) * pow2((up + 1) as nat) == 2 * x) by (nonlinear_arith)
                requires
                    pow2((up + 1) as nat) == 2 * pow2(up as nat),
                    x == (n as nat) * pow2(up as nat),
            ;
            assert(((d * 2) as nat) * pow2(down as nat) == 2 * y) by (nonlinear_arith)
                requires
                    y == (d as nat) * pow2(down as nat),
            ;
            lemma_code_scale(x, y, 2);
        }
        d = d * 2;
        up = up + 1;
    }
    // bring the quotient up to 2^23
    while n / d < 0x0080_0000
        invariant
            0 < n < 0x0200_0000_0000_0000,
            0 < d < 0x2_0000_0000,
            n / d < 0x0100_0000,
            down0 <= down,
            down - down0 < n,
            down0 <= 4096,
            up <= 0x3_0000_0000,
            nearest_code((n as nat) * pow2(up as nat), (d as nat) * pow2(down as nat)) == goal,
        decreases 0x0200_0000_0000_0000 - n,
    {
        proof {
            lemma_quotient_bounds(n as nat, d as nat);
            let q = n / d;
            assert(n < 0x0080_0000 * d) by (nonlinear_arith)
                requires
                    n < (q + 1) * d,
                    q < 0x0080_0000,
                    d > 0,
            ;
            assert(2 * n < (2 * q + 2) * d) by (nonlinear_arith)
                requires
                    n < (q + 1) * d,
            ;
            lemma_quotient_bounds((2 * n) as nat, d as nat);
            assert((2 * n) / (d as int) <= 2 * q + 1) by (nonlinear_arith)
                requires
                    ((2 * n) / (d as int)) * d <= 2 * n,
                    2 * n < (2 * q + 2) * d,
                    d > 0,
            ;
            let x = (n as nat) * pow2(up as nat);
            let y = (d as nat) * pow2(down as nat);
            lemma_pow2_pos(down as nat);
            assert(y > 0) by (nonlinear_arith)
                requires
                    y == (d as nat) * pow2(down as nat),
                    d > 0,
                    pow2(down as nat) > 0,
            ;
            lemma_pow2_unfold((down + 1) as nat);
            assert((d as nat) * pow2((down + 1) as nat) == 2 * y) by (nonlinear_arith)
                requires
                    pow2((down + 1) as nat) == 2 * pow2(down as nat),
                    y == (d as nat) * pow2(down as nat),
            ;
            assert(((n * 2) as nat) * pow2(up as nat) == 2 * x) by (nonlinear_arith)
                requires
                    x == (n as nat) * pow2(up as nat),
            ;
            lemma_code_scale(x, y, 2);
        }
        n = n * 2;
        down = down + 1;
    }
    if up >= down {
        let e: u64 = up - down;
        proof {
            let ne = (n as nat) * pow2(e as nat);
            lemma_pow2_adds(e as nat, down as nat);
            lemma_pow2_pos(down as nat);
            assert((n as nat) * pow2(up as nat) == pow2(down as nat) * ne) by (nonlinear_arith)
                requires
                    pow2(up as nat) == pow2(e as nat) * pow2(down as nat),
                    ne == (n as nat) * pow2(e as nat),
            ;
            assert((d as nat) * pow2(down as nat) == pow2(down as nat) * (d as nat)) by (nonlinear_arith);
            lemma_code_scale(ne, d as nat, pow2(down as nat));
            lemma_code_shift(n as nat, d as nat, e as nat);
            lemma_code_small(n as nat, d as nat);
        }
        if e >= 255 {
            proof {
                assert(e * 0x0080_0000 >= 0x7f80_0000) by (nonlinear_arith)
                    requires
                        e >= 255,
                ;
            }
            return INFINITY_BITS;
        }
        let m: u64 = n / d;
        let r: u64 = n % d;
        let bump: u64 = if r > d - r || (r == d - r && m % 2 == 1) {
            1
        } else {
            0
        };
        let code: u64 = e * 0x0080_0000 + m + bump;
        if code >= 0x7f80_0000 {
            INFINITY_BITS
        } else {
            code as u32
        }
    } else {
        let s: u64 = down - up;
        if s > 30 {
            proof {
                lemma_pow2_adds(s as nat, up as nat);
                lemma_pow2_pos(up as nat);
                lemma_pow2_strictly_increases(30, s as nat);
                lemma2_to64();
                let ds = (d as nat) * pow2(s as nat);
                assert((d as nat) * pow2(down as nat) == pow2(up as nat) * ds) by (nonlinear_arith)
                    requires
                        pow2(down as nat) == pow2(s as nat) * pow2(up as nat),
                        ds == (d as nat) * pow2(s as nat),
                ;
                assert((n as nat) * pow2(up as nat) == pow2(up as nat) * (n as nat)) by (nonlinear_arith);
                lemma_quotient_bounds(n as nat, d as nat);
                assert(4 * n < ds) by (nonlinear_arith)
                    requires
                        n < (n / d + 1) * d,
                        n / d < 0x0100_0000,
                        ds == (d as nat) * pow2(s as nat),
                        pow2(s as nat) > 0x4000_0000,
                        d > 0,
                ;
                lemma_code_scale(n as nat, ds, pow2(up as nat));
                lemma_code_tiny(n as nat, ds);
            }
            return 0;
        }
        proof {
            lemma_pow2_strictly_increases(s as nat, 31);
            lemma2_to64();
            assert((d as nat) * pow2(s as nat) <= u64::MAX) by (nonlinear_arith)
                requires
                    d < 0x2_0000_0000,
                    pow2(s as nat) < 0x8000_0000,
            ;
        }
        let ds: u64 = shift_left(d, s);
        proof {
            lemma_pow2_pos(s as nat);
            assert(ds >= d) by (nonlinear_arith)
                requires
                    ds == d * pow2(s as nat),
                    pow2(s as nat) > 0,
            ;
        }
        let m: u64 = n / ds;
        let r: u64 = n % ds;
        let bump: u64 = if r > ds - r || (r == ds - r && m % 2 == 1) {
            1
        } else {
            0
        };
        proof {
            lemma_pow2_adds(s as nat, up as nat);
            lemma_pow2_pos(up as nat);
            lemma_pow2_pos(s as nat);
            assert((d as nat) * pow2(down as nat) == pow2(up as nat) * ds) by (nonlinear_arith)
                requires
                    pow2(down as nat) == pow2(s as nat) * pow2(up as nat),
                    ds == (d as nat) * pow2(s as nat),
            ;
            assert((n as nat) * pow2(up as nat) == pow2(up as nat) * (n as nat)) by (nonlinear_arith);
            assert(ds >= d) by (nonlinear_arith)
                requires
                    ds == (d as nat) * pow2(s as nat),
                    pow2(s as nat) > 0,
            ;
            vstd::arithmetic::div_mod::lemma_div_is_ordered_by_denominator(n as int, d as int, ds as int);
            lemma_code_scale(n as nat, ds as nat, pow2(up as nat));
            lemma_code_small(n as nat, ds as nat);
        }
        (m + bump) as u32
    }
}

} // verus!
