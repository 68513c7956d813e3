//! Results that the format can hold are not rounded: sums, products,
//! quotients and roots that are magnitudes of the format, and the
//! arithmetic of whole numbers among them.

use vstd::prelude::*;
use vstd::arithmetic::power2::{pow2, lemma_pow2_pos, lemma_pow2_unfold};
use vstd::arithmetic::div_mod::{
    lemma_div_by_multiple,
    lemma_fundamental_div_mod,
    lemma_fundamental_div_mod_converse,
    lemma_mod_multiples_basic,
};
use crate::laws::nearest::{lemma_code_value, lemma_round_keeps, lemma_round_root_keeps};
use crate::laws::scalars::lemma_neg_turns_round;
use crate::rounding::lemma_code_scale;
use crate::scalar::{lemma_units_increase, units_of, Scalar};

verus! {

/// The sum of `x` and `y` is finite and came out without rounding.
pub open spec fn exact_sum(x: Scalar, y: Scalar) -> bool {
    &&& x.finite()
    &&& y.finite()
    &&& x.add_spec(y).finite()
    &&& x.add_spec(y).units() == x.units() + y.units()
}

/// The difference of `x` and `y` is finite and came out without rounding.
pub open spec fn exact_difference(x: Scalar, y: Scalar) -> bool {
    &&& x.finite()
    &&& y.finite()
    &&& x.sub_spec(y).finite()
    &&& x.sub_spec(y).units() == x.units() - y.units()
}

/// The product of `x` and `y` is finite and came out without rounding. The
/// product of two counts of units counts units of 2^-298.
pub open spec fn exact_product(x: Scalar, y: Scalar) -> bool {
    &&& x.finite()
    &&& y.finite()
    &&& x.mul_spec(y).finite()
    &&& x.mul_spec(y).units() * pow2(149) == x.units() * y.units()
}

/// The quotient of `x` by `y` is finite and came out without rounding.
pub open spec fn exact_quotient(x: Scalar, y: Scalar) -> bool {
    &&& x.finite()
    &&& y.finite()
    &&& x.div_spec(y).finite()
    &&& x.div_spec(y).units() * y.units() == x.units() * pow2(149)
}

/// The square root of `x` is finite and came out without rounding.
pub open spec fn exact_root(x: Scalar) -> bool {
    &&& x.finite()
    &&& x.sqrt_spec().finite()
    &&& x.sqrt_spec().units() * x.sqrt_spec().units() == x.units() * pow2(149)
}

/// A sum that is a finite magnitude of the format is not rounded.
pub proof fn lemma_representable_sum(x: Scalar, y: Scalar, c: nat)
    requires
        x.finite(),
        y.finite(),
        c < 0x7f80_0000,
        x.units() + y.units() == units_of(c) || x.units() + y.units() == -units_of(c),
    ensures
        exact_sum(x, y),
        x.add_spec(y).code() == c,
{
    reveal(Scalar::add_spec);
    lemma_round_keeps(c);
    if c > 0 {
        lemma_units_increase(c, 0);
    }
    assert(units_of(0) == 0) by (nonlinear_arith)
        requires
            units_of(0) == 0 * pow2(0),
    ;
}

/// A difference that is a finite magnitude of the format is not rounded.
pub proof fn lemma_representable_difference(x: Scalar, y: Scalar, c: nat)
    requires
        x.finite(),
        y.finite(),
        c < 0x7f80_0000,
        x.units() - y.units() == units_of(c) || x.units() - y.units() == -units_of(c),
    ensures
        exact_difference(x, y),
        x.sub_spec(y).code() == c,
{
    lemma_neg_turns_round(y);
    lemma_representable_sum(x, y.neg_spec(), c);
}

/// A product that is a finite magnitude of the format is not rounded.
pub proof fn lemma_representable_product(x: Scalar, y: Scalar, c: nat)
    requires
        x.finite(),
        y.finite(),
        c < 0x7f80_0000,
        x.magnitude() * y.magnitude() == units_of(c) * pow2(149),
    ensures
        exact_product(x, y),
        x.mul_spec(y).code() == c,
{
    reveal(Scalar::mul_spec);
    let p = pow2(149);
    lemma_pow2_pos(149);
    lemma_round_keeps(c);
    lemma_code_scale(units_of(c), 1, p);
    assert(p * units_of(c) == units_of(c) * p && p * 1 == p) by (nonlinear_arith);
    let (ux, uy) = (x.units(), y.units());
    let (mx, my) = (x.magnitude() as int, y.magnitude() as int);
    let negative = x.negative() != y.negative();
    assert((-mx) * my == -(mx * my) && mx * (-my) == -(mx * my) && (-mx) * (-my) == mx * my)
        by (nonlinear_arith);
    assert(ux * uy == (if negative {
        -(mx * my)
    } else {
        mx * my
    }));
    let uc = units_of(c) as int;
    assert((-uc) * p == -(uc * p)) by (nonlinear_arith);
}

/// A quotient that is a finite magnitude of the format is not rounded.
pub proof fn lemma_representable_quotient(x: Scalar, y: Scalar, c: nat)
    requires
        x.finite(),
        y.finite(),
        y.code() != 0,
        c < 0x7f80_0000,
        units_of(c) * y.magnitude() == x.magnitude() * pow2(149),
    ensures
        exact_quotient(x, y),
        x.div_spec(y).code() == c,
{
    reveal(Scalar::div_spec);
    let p = pow2(149);
    lemma_units_increase(y.code(), 0);
    let my = y.magnitude();
    lemma_round_keeps(c);
    lemma_code_scale(units_of(c), 1, my);
    assert(my * units_of(c) == units_of(c) * my && my * 1 == my) by (nonlinear_arith);
    let uc = units_of(c) as int;
    let mx = x.magnitude() as int;
    assert((-uc) * (my as int) == -(uc * my) && uc * (-(my as int)) == -(uc * my) && (-uc) * (-(
        my as int)) == uc * my) by (nonlinear_arith);
    assert((-mx) * (p as int) == -(mx * p)) by (nonlinear_arith);
}

/// A root that is a finite magnitude of the format is not rounded.
pub proof fn lemma_representable_root(x: Scalar, c: nat)
    requires
        x.finite(),
        !x.negative(),
        c < 0x7f80_0000,
        units_of(c) * units_of(c) == x.magnitude() * pow2(149),
    ensures
        exact_root(x),
        x.sqrt_spec().code() == c,
{
    reveal(Scalar::sqrt_spec);
    lemma_round_root_keeps(x.magnitude() * pow2(149), c);
    lemma_pow2_pos(149);
    if x.code() > 0 {
        lemma_units_increase(x.code(), 0);
    }
    assert(units_of(0) == 0) by (nonlinear_arith)
        requires
            units_of(0) == 0 * pow2(0),
    ;
    if x.code() == 0 {
        assert(units_of(c) == 0) by (nonlinear_arith)
            requires
                units_of(c) * units_of(c) == 0 * pow2(149),
        ;
        if c > 0 {
            lemma_units_increase(c, 0);
        }
    }
}

/// A whole number of `n * 2^e` units, for `n` below 2^24 and a moderate
/// `e`, is a finite magnitude of the format: the lemma returns its pattern.
pub proof fn lemma_whole_code(n: nat, e: nat) -> (c: nat)
    requires
        n < 0x0100_0000,
        e <= 200,
    ensures
        c < 0x7f80_0000,
        units_of(c) == n * pow2(e),
    decreases e,
{
    if n >= 0x0080_0000 || e == 0 {
        lemma_code_value(e, n);
        assert(e * 0x0080_0000 + n < 0x7f80_0000) by (nonlinear_arith)
            requires
                e <= 200,
                n < 0x0100_0000,
        ;
        e * 0x0080_0000 + n
    } else {
        let c = lemma_whole_code(2 * n, (e - 1) as nat);
        lemma_pow2_unfold(e);
        assert((2 * n) * pow2((e - 1) as nat) == n * pow2(e)) by (nonlinear_arith)
            requires
                pow2(e) == 2 * pow2((e - 1) as nat),
        ;
        c
    }
}

/// The scalar `x` is a whole number of absolute value at most `bound`.
pub open spec fn whole(x: Scalar, bound: nat) -> bool {
    &&& x.finite()
    &&& x.units() % (pow2(149) as int) == 0
    &&& -(bound * pow2(149)) <= x.units() <= bound * pow2(149)
}

/// The whole number that the scalar `x` is, where it is one.
pub open spec fn whole_value(x: Scalar) -> int {
    x.units() / (pow2(149) as int)
}

/// A whole number is its value times the unit, and its value keeps the
/// bound.
pub proof fn lemma_whole_value(x: Scalar, bound: nat)
    requires
        whole(x, bound),
    ensures
        x.units() == whole_value(x) * pow2(149),
        -(bound as int) <= whole_value(x) <= bound,
{
    let p = pow2(149) as int;
    lemma_pow2_pos(149);
    lemma_fundamental_div_mod(x.units(), p);
    let v = whole_value(x);
    assert(x.units() == v * p) by (nonlinear_arith)
        requires
            x.units() == p * v + 0,
    ;
    assert(-(bound as int) <= v <= bound) by (nonlinear_arith)
        requires
            x.units() == v * p,
            -(bound * p) <= x.units() <= bound * p,
            p > 0,
    ;
}

/// Whole numbers below 2^24 convert to scalars without rounding.
pub proof fn lemma_from_int_exact(x: nat)
    requires
        x < 0x0100_0000,
    ensures
        Scalar::from_int_spec(x).finite(),
        !Scalar::from_int_spec(x).negative(),
        Scalar::from_int_spec(x).units() == x * pow2(149),
        whole(Scalar::from_int_spec(x), x),
        whole_value(Scalar::from_int_spec(x)) == x,
{
    reveal(Scalar::from_int_spec);
    let c = lemma_whole_code(x, 149);
    lemma_round_keeps(c);
    lemma_pow2_pos(149);
    lemma_mod_multiples_basic(x as int, pow2(149) as int);
    lemma_div_by_multiple(x as int, pow2(149) as int);
}

/// The sum of two whole numbers is not rounded where the bounds of the two
/// add up to less than 2^24.
pub proof fn lemma_whole_sum(x: Scalar, y: Scalar, bx: nat, by: nat)
    requires
        whole(x, bx),
        whole(y, by),
        bx + by < 0x0100_0000,
    ensures
        exact_sum(x, y),
        whole(x.add_spec(y), bx + by),
        whole_value(x.add_spec(y)) == whole_value(x) + whole_value(y),
{
    let p = pow2(149) as int;
    lemma_pow2_pos(149);
    lemma_whole_value(x, bx);
    lemma_whole_value(y, by);
    let v = whole_value(x) + whole_value(y);
    let n: nat = (if v < 0 {
        -v
    } else {
        v
    }) as nat;
    let c = lemma_whole_code(n, 149);
    assert(x.units() + y.units() == v * p) by (nonlinear_arith)
        requires
            x.units() == whole_value(x) * p,
            y.units() == whole_value(y) * p,
            v == whole_value(x) + whole_value(y),
    ;
    assert((-v) * p == -(v * p)) by (nonlinear_arith);
    lemma_representable_sum(x, y, c);
    lemma_fundamental_div_mod_converse(v * p, p, v, 0);
    assert(-((bx + by) * p) <= v * p <= (bx + by) * p) by (nonlinear_arith)
        requires
            -(bx + by) <= v <= bx + by,
            p > 0,
    ;
}

/// The product of two whole numbers is not rounded where the product of
/// the bounds of the two is less than 2^24.
pub proof fn lemma_whole_product(x: Scalar, y: Scalar, bx: nat, by: nat)
    requires
        whole(x, bx),
        whole(y, by),
        bx * by < 0x0100_0000,
    ensures
        exact_product(x, y),
        whole(x.mul_spec(y), bx * by),
        whole_value(x.mul_spec(y)) == whole_value(x) * whole_value(y),
{
    let p = pow2(149) as int;
    lemma_pow2_pos(149);
    lemma_whole_value(x, bx);
    lemma_whole_value(y, by);
    let (vx, vy) = (whole_value(x), whole_value(y));
    let nx: nat = (if vx < 0 {
        -vx
    } else {
        vx
    }) as nat;
    let ny: nat = (if vy < 0 {
        -vy
    } else {
        vy
    }) as nat;
    assert(nx * ny <= bx * by) by (nonlinear_arith)
        requires
            nx <= bx,
            ny <= by,
    ;
    let c = lemma_whole_code(nx * ny, 149);
    assert((-vx) * p == -(vx * p) && (-vy) * p == -(vy * p)) by (nonlinear_arith);
    assert(x.magnitude() == nx * p);
    assert(y.magnitude() == ny * p);
    assert(x.magnitude() * y.magnitude() == units_of(c) * pow2(149)) by (nonlinear_arith)
        requires
            x.magnitude() == nx * p,
            y.magnitude() == ny * p,
            units_of(c) == (nx * ny) * p,
            p == pow2(149),
    ;
    lemma_representable_product(x, y, c);
    let u = x.mul_spec(y).units();
    let v = vx * vy;
    assert(u == v * p) by (nonlinear_arith)
        requires
            u * p == x.units() * y.units(),
            x.units() == vx * p,
            y.units() == vy * p,
            v == vx * vy,
            p > 0,
    ;
    lemma_fundamental_div_mod_converse(v * p, p, v, 0);
    assert(-((bx * by) as int) <= v <= bx * by) by (nonlinear_arith)
        requires
            v == vx * vy,
            -(bx as int) <= vx <= bx,
            -(by as int) <= vy <= by,
    ;
    assert(-((bx * by) * p) <= v * p <= (bx * by) * p) by (nonlinear_arith)
        requires
            -((bx * by) as int) <= v <= bx * by,
            p > 0,
    ;
}

} // verus!
