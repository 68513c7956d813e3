//! Sums and quotients keep the order of their operands.

use vstd::prelude::*;
use vstd::arithmetic::power2::{pow2, lemma_pow2_adds, lemma_pow2_pos, lemma2_to64};
use crate::laws::exact::lemma_representable_sum;
use crate::laws::nearest::{lemma_code_value, lemma_round_keeps, lemma_round_keeps_order};
use crate::laws::scalars::{lemma_neg_turns_round, lemma_order_is_by_value, unsigned};
use crate::rounding::{lemma_code_zero, round_magnitude};
use crate::scalar::{
    lemma_units_increase,
    round_signed,
    scalar,
    units_of,
    Scalar,
    TWO_BITS,
    ZERO_BITS,
};

verus! {

/// Of two magnitudes, the smaller rounds to the smaller pattern, or to the
/// same; and no pattern lies beyond infinity.
pub proof fn lemma_round_magnitude_keeps_order(n1: nat, d1: nat, n2: nat, d2: nat)
    requires
        d1 > 0,
        d2 > 0,
        n1 * d2 <= n2 * d1,
    ensures
        round_magnitude(n1, d1) <= round_magnitude(n2, d2) <= 0x7f80_0000,
{
    lemma_round_keeps_order(n1, d1, n2, d2);
}

/// Of two whole numbers of units, the smaller rounds to the smaller scalar,
/// or to the same number.
pub proof fn lemma_round_signed_keeps_order(s1: int, z1: bool, s2: int, z2: bool)
    requires
        s1 <= s2,
    ensures
        round_signed(s1, z1).le_spec(round_signed(s2, z2)),
{
    if 0 < s1 {
        assert(s1 * 1 <= s2 * 1) by (nonlinear_arith)
            requires
                s1 <= s2,
        ;
        lemma_round_magnitude_keeps_order(s1 as nat, 1, s2 as nat, 1);
    } else if s2 < 0 {
        assert((-s2) * 1 <= (-s1) * 1) by (nonlinear_arith)
            requires
                s1 <= s2,
        ;
        lemma_round_magnitude_keeps_order((-s2) as nat, 1, (-s1) as nat, 1);
    } else {
        if s1 < 0 {
            lemma_round_magnitude_keeps_order((-s1) as nat, 1, (-s1) as nat, 1);
        }
        if s2 > 0 {
            lemma_round_magnitude_keeps_order(s2 as nat, 1, s2 as nat, 1);
        }
    }
}

/// A sum keeps the order of its second term, wherever the two sums are
/// numbers.
pub proof fn lemma_add_keeps_order(x: Scalar, y1: Scalar, y2: Scalar)
    requires
        y1.le_spec(y2),
        !x.add_spec(y1).nan(),
        !x.add_spec(y2).nan(),
    ensures
        x.add_spec(y1).le_spec(x.add_spec(y2)),
{
    reveal(Scalar::add_spec);
    if x.finite() && y1.finite() && y2.finite() {
        lemma_order_is_by_value(y1, y2);
        lemma_round_signed_keeps_order(
            x.units() + y1.units(),
            x.negative() && y1.negative(),
            x.units() + y2.units(),
            x.negative() && y2.negative(),
        );
    } else if x.finite() && y1.finite() {
        lemma_round_signed_keeps_order(
            x.units() + y1.units(),
            x.negative() && y1.negative(),
            x.units() + y1.units(),
            x.negative() && y1.negative(),
        );
    } else if x.finite() && y2.finite() {
        lemma_round_signed_keeps_order(
            x.units() + y2.units(),
            x.negative() && y2.negative(),
            x.units() + y2.units(),
            x.negative() && y2.negative(),
        );
    }
}

/// A difference is at most the sum, for a second operand that is not below
/// zero, wherever the two are numbers.
pub proof fn lemma_sub_below_add(x: Scalar, y: Scalar)
    requires
        !y.nan(),
        y.code() == 0 || !y.negative(),
        !x.sub_spec(y).nan(),
        !x.add_spec(y).nan(),
    ensures
        x.sub_spec(y).le_spec(x.add_spec(y)),
{
    lemma_neg_turns_round(y);
    lemma_add_keeps_order(x, y.neg_spec(), y);
}

/// A quotient by a divisor above zero keeps the order of its dividend,
/// wherever the two quotients are numbers.
pub proof fn lemma_div_keeps_order(x1: Scalar, x2: Scalar, y: Scalar)
    requires
        x1.le_spec(x2),
        !y.nan(),
        !y.negative(),
        y.code() != 0,
        !x1.div_spec(y).nan(),
        !x2.div_spec(y).nan(),
    ensures
        x1.div_spec(y).le_spec(x2.div_spec(y)),
{
    reveal(Scalar::div_spec);
    if x1.finite() && x2.finite() && y.finite() {
        let p = pow2(149);
        let d = y.magnitude();
        lemma_pow2_pos(149);
        lemma_order_is_by_value(x1, x2);
        let zero = scalar(ZERO_BITS);
        lemma_order_is_by_value(y, zero);
        assert(zero.units() == 0) by (nonlinear_arith)
            requires
                zero.units() == 0 * pow2(0),
        ;
        assert(d > 0);
        let (m1, m2) = (x1.magnitude(), x2.magnitude());
        lemma_round_magnitude_keeps_order(m1 * p, d, m1 * p, d);
        lemma_round_magnitude_keeps_order(m2 * p, d, m2 * p, d);
        if !x1.negative() && !x2.negative() {
            assert((m1 * p) * d <= (m2 * p) * d) by (nonlinear_arith)
                requires
                    m1 <= m2,
            ;
            lemma_round_magnitude_keeps_order(m1 * p, d, m2 * p, d);
        } else if x1.negative() && x2.negative() {
            assert((m2 * p) * d <= (m1 * p) * d) by (nonlinear_arith)
                requires
                    m2 <= m1,
            ;
            lemma_round_magnitude_keeps_order(m2 * p, d, m1 * p, d);
        } else if x2.negative() {
            // then both are zero
            assert(m1 == 0 && m2 == 0);
            assert(m1 * p == 0 && m2 * p == 0) by (nonlinear_arith)
                requires
                    m1 == 0,
                    m2 == 0,
            ;
            lemma_code_zero(d);
        }
    }
}

/// Adding a number that is not below zero does not lower a number that is
/// not below zero.
pub proof fn lemma_sum_not_below_term(x: Scalar, y: Scalar)
    requires
        unsigned(x),
        unsigned(y),
    ensures
        unsigned(x.add_spec(y)),
        x.le_spec(x.add_spec(y)),
{
    let zero = scalar(ZERO_BITS);
    assert(zero.units() == 0) by (nonlinear_arith)
        requires
            zero.units() == 0 * pow2(0),
    ;
    assert(x.add_spec(zero) == x) by {
        reveal(Scalar::add_spec);
        if x.finite() {
            lemma_representable_sum(x, zero, x.code());
        }
    }
    assert(!x.add_spec(y).nan() && !x.add_spec(y).negative()) by {
        reveal(Scalar::add_spec);
    }
    lemma_add_keeps_order(x, zero, y);
}

/// The square of a number of magnitude 2^-74 or more is above zero: it
/// does not round to zero.
pub proof fn lemma_square_above_zero(x: Scalar)
    requires
        !x.nan(),
        x.code() >= 0x1a80_0000,
    ensures
        unsigned(x.mul_spec(x)),
        x.mul_spec(x).code() > 0,
{
    reveal(Scalar::mul_spec);
    if x.finite() {
        let p = pow2(149);
        let m = x.magnitude();
        lemma2_to64();
        lemma_pow2_pos(149);
        lemma_pow2_adds(23, 52);
        lemma_pow2_adds(75, 75);
        lemma_pow2_adds(1, 149);
        lemma_code_value(52, 0x0080_0000);
        assert(units_of(0x1a80_0000) == pow2(75));
        if x.code() > 0x1a80_0000 {
            lemma_units_increase(x.code(), 0x1a80_0000);
        }
        assert(m * m >= p) by (nonlinear_arith)
            requires
                m >= pow2(75),
                pow2(75) * pow2(75) == 2 * p,
                p > 0,
        ;
        // one unit is a magnitude of the format, and the square is no less
        lemma_round_keeps(1);
        assert(units_of(1) == 1) by (nonlinear_arith)
            requires
                units_of(1) == 1 * pow2(0),
                pow2(0) == 1,
        ;
        lemma_pow2_pos(149);
        assert(1 * p <= (m * m) * 1) by (nonlinear_arith)
            requires
                m * m >= p,
        ;
        lemma_round_keeps_order(1, 1, m * m, p);
    }
}

/// Twice a number above zero is above zero.
pub proof fn lemma_double_above_zero(x: Scalar)
    requires
        unsigned(x),
        x.code() > 0,
    ensures
        scalar(ZERO_BITS).lt_spec(scalar(TWO_BITS).mul_spec(x)),
{
    reveal(Scalar::mul_spec);
    if x.finite() {
        let p = pow2(149);
        let two = scalar(TWO_BITS);
        lemma2_to64();
        lemma_pow2_pos(149);
        lemma_pow2_adds(1, 149);
        lemma_code_value(127, 0x0080_0000);
        lemma_pow2_adds(23, 127);
        assert(two.magnitude() == 2 * p);
        let m = x.magnitude();
        lemma_units_increase(x.code(), 0);
        lemma_round_keeps(x.code());
        assert(m * p <= ((2 * p) * m) * 1) by (nonlinear_arith)
            requires
                p > 0,
        ;
        lemma_round_keeps_order(m, 1, (2 * p) * m, p);
    }
}

} // verus!
