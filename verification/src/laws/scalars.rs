//! What holds of the arithmetic of scalars, whatever the operands.

use vstd::prelude::*;
use vstd::arithmetic::power2::pow2;
use crate::scalar::{lemma_units_increase, scalar, units_of, Scalar, ZERO_BITS};

verus! {

/// A scalar that is a number and does not carry the sign bit.
pub open spec fn unsigned(x: Scalar) -> bool {
    !x.nan() && !x.negative()
}

/// Negation keeps the magnitude and the kind of a scalar, and turns its
/// value round.
pub proof fn lemma_neg_turns_round(x: Scalar)
    ensures
        x.neg_spec().code() == x.code(),
        x.neg_spec().negative() == !x.negative(),
        x.neg_spec().neg_spec() == x,
        x.finite() ==> x.neg_spec().units() == -x.units(),
{
}

/// A NaN among the operands makes the result a NaN.
pub proof fn lemma_nan_spreads(x: Scalar, y: Scalar)
    requires
        x.nan() || y.nan(),
    ensures
        x.add_spec(y).nan(),
        x.sub_spec(y).nan(),
        x.mul_spec(y).nan(),
        x.div_spec(y).nan(),
        x.nan() ==> x.sqrt_spec().nan(),
{
    reveal(Scalar::add_spec);
    reveal(Scalar::mul_spec);
    reveal(Scalar::div_spec);
    reveal(Scalar::sqrt_spec);
}

/// Sums and products do not depend on the order of their operands.
pub proof fn lemma_commutes(x: Scalar, y: Scalar)
    ensures
        x.add_spec(y) == y.add_spec(x),
        x.mul_spec(y) == y.mul_spec(x),
{
    assert(x.add_spec(y) == y.add_spec(x)) by {
        reveal(Scalar::add_spec);
        if x.infinite() && y.infinite() && x.negative() == y.negative() {
            assert(x.bits == y.bits);
        }
        assert(x.units() + y.units() == y.units() + x.units());
    }
    assert(x.mul_spec(y) == y.mul_spec(x)) by {
        reveal(Scalar::mul_spec);
        assert(x.magnitude() * y.magnitude() == y.magnitude() * x.magnitude())
            by (nonlinear_arith);
    }
}

/// A difference that is a number is the negation of the difference the
/// other way round; the two are the same number, and differ at most in the
/// sign of a zero.
pub proof fn lemma_sub_antisymmetric(p: Scalar, q: Scalar)
    requires
        !p.sub_spec(q).nan(),
    ensures
        p.sub_spec(q).equals(q.sub_spec(p).neg_spec()),
{
    reveal(Scalar::add_spec);
    lemma_neg_turns_round(p);
    lemma_neg_turns_round(q);
}

/// A finite scalar less itself is the positive zero; an infinity or a NaN
/// less itself is a NaN.
pub proof fn lemma_sub_self(p: Scalar)
    ensures
        p.finite() ==> p.sub_spec(p) == scalar(ZERO_BITS),
        !p.finite() ==> p.sub_spec(p).nan(),
{
    reveal(Scalar::add_spec);
    lemma_neg_turns_round(p);
}

/// The square of a number is a number without the sign bit.
pub proof fn lemma_square_unsigned(x: Scalar)
    requires
        !x.nan(),
    ensures
        unsigned(x.mul_spec(x)),
{
    reveal(Scalar::mul_spec);
}

/// The sum of two numbers without the sign bit is such a number.
pub proof fn lemma_sum_unsigned(x: Scalar, y: Scalar)
    requires
        unsigned(x),
        unsigned(y),
    ensures
        unsigned(x.add_spec(y)),
{
    reveal(Scalar::add_spec);
}

/// A square root is a NaN or not below zero; it is a number wherever its
/// argument is a number without the sign bit.
pub proof fn lemma_sqrt_not_below_zero(x: Scalar)
    ensures
        x.sqrt_spec().nan() || scalar(ZERO_BITS).le_spec(x.sqrt_spec()),
        unsigned(x) ==> unsigned(x.sqrt_spec()),
{
    reveal(Scalar::sqrt_spec);
}

/// Among finite scalars the order of the format is the order of the
/// values, and equal values are equal numbers.
pub proof fn lemma_order_is_by_value(x: Scalar, y: Scalar)
    requires
        x.finite(),
        y.finite(),
    ensures
        x.lt_spec(y) <==> x.units() < y.units(),
        x.le_spec(y) <==> x.units() <= y.units(),
        x.equals(y) <==> x.units() == y.units(),
{
    if x.code() < y.code() {
        lemma_units_increase(y.code(), x.code());
    }
    if y.code() < x.code() {
        lemma_units_increase(x.code(), y.code());
    }
    if 0 < x.code() {
        lemma_units_increase(x.code(), 0);
    }
    if 0 < y.code() {
        lemma_units_increase(y.code(), 0);
    }
    assert(units_of(0) == 0) by (nonlinear_arith)
        requires
            units_of(0) == 0 * pow2(0),
    ;
}

/// Two finite scalars of one value have roots of one value.
pub proof fn lemma_root_of_equals(x: Scalar, y: Scalar)
    requires
        x.equals(y),
    ensures
        x.sqrt_spec().nan() == y.sqrt_spec().nan(),
        !x.sqrt_spec().nan() ==> x.sqrt_spec().equals(y.sqrt_spec()),
{
    reveal(Scalar::sqrt_spec);
}

/// Equality of numbers is partial: a scalar equals itself unless it is a
/// NaN; for the rest it goes both ways and carries over.
pub proof fn lemma_equals_is_partial(x: Scalar, y: Scalar, z: Scalar)
    ensures
        x.equals(x) <==> !x.nan(),
        x.equals(y) ==> y.equals(x),
        x.equals(y) && y.equals(z) ==> x.equals(z),
        x.equals(y) ==> x.bits == y.bits || (x.code() == 0 && y.code() == 0),
{
}

/// A number has one pattern: two scalars that stand for one number, and
/// not for a NaN, are the same pattern.
pub proof fn lemma_number_has_one_pattern(x: Scalar, y: Scalar)
    requires
        x@ == y@,
        !x.nan(),
    ensures
        x == y,
{
    if x.code() < y.code() {
        lemma_units_increase(y.code(), x.code());
    }
    if y.code() < x.code() {
        lemma_units_increase(x.code(), y.code());
    }
}

/// The operations see numbers, not patterns: operands that stand for the
/// same numbers give the same results. A negated NaN keeps the rest of its
/// pattern, and still is a NaN.
pub proof fn lemma_operations_see_numbers(x1: Scalar, y1: Scalar, x2: Scalar, y2: Scalar)
    requires
        x1@ == x2@,
        y1@ == y2@,
    ensures
        x1.add_spec(y1) == x2.add_spec(y2),
        x1.sub_spec(y1) == x2.sub_spec(y2),
        x1.mul_spec(y1) == x2.mul_spec(y2),
        x1.div_spec(y1) == x2.div_spec(y2),
        x1.sqrt_spec() == x2.sqrt_spec(),
        x1.neg_spec()@ == x2.neg_spec()@,
        x1.to_u8_spec() == x2.to_u8_spec(),
        x1.lt_spec(y1) == x2.lt_spec(y2),
        x1.le_spec(y1) == x2.le_spec(y2),
        x1.equals(y1) == x2.equals(y2),
{
    if !x1.nan() {
        lemma_number_has_one_pattern(x1, x2);
    }
    if !y1.nan() {
        lemma_number_has_one_pattern(y1, y2);
    }
    lemma_neg_turns_round(y1);
    lemma_neg_turns_round(y2);
    if x1.nan() || y1.nan() {
        lemma_nan_spreads(x1, y1);
        lemma_nan_spreads(x2, y2);
        lemma_nan_spreads(x1, y1.neg_spec());
        lemma_nan_spreads(x2, y2.neg_spec());
        reveal(Scalar::add_spec);
        reveal(Scalar::mul_spec);
        reveal(Scalar::div_spec);
    }
    if x1.nan() {
        reveal(Scalar::sqrt_spec);
        reveal(Scalar::to_u8_spec);
    }
}

} // verus!
