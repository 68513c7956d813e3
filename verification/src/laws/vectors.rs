//! What holds of the arithmetic of vectors.

use vstd::prelude::*;
use vstd::arithmetic::power2::{pow2, lemma_pow2_pos};
use crate::laws::exact::{
    exact_difference,
    exact_product,
    exact_root,
    exact_sum,
    lemma_whole_product,
    lemma_whole_sum,
    whole,
};
use crate::laws::scalars::{
    lemma_nan_spreads,
    lemma_order_is_by_value,
    lemma_sqrt_not_below_zero,
    lemma_square_unsigned,
    lemma_sub_antisymmetric,
    lemma_sub_self,
    lemma_sum_unsigned,
    unsigned,
};
use crate::scalar::{scalar, ZERO_BITS};
use crate::vec3::Vec3;

verus! {

/// The cross product turns round when its factors change places, wherever
/// it is made of numbers.
pub proof fn lemma_cross_antisymmetric(a: Vec3, b: Vec3)
    requires
        !a.cross_spec(b).x.nan(),
        !a.cross_spec(b).y.nan(),
        !a.cross_spec(b).z.nan(),
    ensures
        a.cross_spec(b).equals(b.cross_spec(a).negated()),
{
    lemma_sub_antisymmetric(a.y.mul_spec(b.z), b.y.mul_spec(a.z));
    lemma_sub_antisymmetric(a.z.mul_spec(b.x), b.z.mul_spec(a.x));
    lemma_sub_antisymmetric(a.x.mul_spec(b.y), b.x.mul_spec(a.y));
}

/// The cross product of a vector with itself is the zero vector, wherever
/// it is made of numbers: that is, wherever the products of two components
/// are finite.
pub proof fn lemma_cross_self(a: Vec3)
    ensures
        (!a.cross_spec(a).x.nan() && !a.cross_spec(a).y.nan() && !a.cross_spec(a).z.nan())
            ==> a.cross_spec(a) == (Vec3 {
            x: scalar(ZERO_BITS),
            y: scalar(ZERO_BITS),
            z: scalar(ZERO_BITS),
        }),
        (a.y.mul_spec(a.z).finite() && a.z.mul_spec(a.x).finite() && a.x.mul_spec(a.y).finite())
            <==> (!a.cross_spec(a).x.nan() && !a.cross_spec(a).y.nan() && !a.cross_spec(
            a,
        ).z.nan()),
{
    lemma_sub_self(a.y.mul_spec(a.z));
    lemma_sub_self(a.z.mul_spec(a.x));
    lemma_sub_self(a.x.mul_spec(a.y));
}

/// The length of a vector of numbers is a number, and not below zero; the
/// length of a vector with a NaN among its components is a NaN.
pub proof fn lemma_length_not_below_zero(v: Vec3)
    ensures
        (!v.x.nan() && !v.y.nan() && !v.z.nan()) ==> unsigned(v.length_spec()) && scalar(
            ZERO_BITS,
        ).le_spec(v.length_spec()),
        (v.x.nan() || v.y.nan() || v.z.nan()) ==> v.length_spec().nan(),
{
    let xx = v.x.mul_spec(v.x);
    let yy = v.y.mul_spec(v.y);
    let zz = v.z.mul_spec(v.z);
    if !v.x.nan() && !v.y.nan() && !v.z.nan() {
        lemma_square_unsigned(v.x);
        lemma_square_unsigned(v.y);
        lemma_square_unsigned(v.z);
        lemma_sum_unsigned(xx, yy);
        lemma_sum_unsigned(xx.add_spec(yy), zz);
        lemma_sqrt_not_below_zero(v.dot_spec(v));
    } else {
        if v.x.nan() {
            lemma_nan_spreads(v.x, v.x);
        }
        if v.y.nan() {
            lemma_nan_spreads(v.y, v.y);
        }
        if v.z.nan() {
            lemma_nan_spreads(v.z, v.z);
        }
        if xx.nan() || yy.nan() {
            lemma_nan_spreads(xx, yy);
        }
        lemma_nan_spreads(xx.add_spec(yy), zz);
        lemma_nan_spreads(v.dot_spec(v), v.dot_spec(v));
    }
}

/// The dot product of `a` and `b` came out without rounding in any of its
/// three products and two sums.
pub open spec fn exact_dot(a: Vec3, b: Vec3) -> bool {
    &&& exact_product(a.x, b.x)
    &&& exact_product(a.y, b.y)
    &&& exact_product(a.z, b.z)
    &&& exact_sum(a.x.mul_spec(b.x), a.y.mul_spec(b.y))
    &&& exact_sum(a.x.mul_spec(b.x).add_spec(a.y.mul_spec(b.y)), a.z.mul_spec(b.z))
}

/// The cross product of `a` and `b` came out without rounding in any of
/// its six products and three differences.
pub open spec fn exact_cross(a: Vec3, b: Vec3) -> bool {
    &&& exact_product(a.y, b.z)
    &&& exact_product(b.y, a.z)
    &&& exact_product(a.z, b.x)
    &&& exact_product(b.z, a.x)
    &&& exact_product(a.x, b.y)
    &&& exact_product(b.x, a.y)
    &&& exact_difference(a.y.mul_spec(b.z), b.y.mul_spec(a.z))
    &&& exact_difference(a.z.mul_spec(b.x), b.z.mul_spec(a.x))
    &&& exact_difference(a.x.mul_spec(b.y), b.x.mul_spec(a.y))
}

/// The length of `v` came out without rounding, in the dot product and in
/// the root.
pub open spec fn exact_length(v: Vec3) -> bool {
    exact_dot(v, v) && exact_root(v.dot_spec(v))
}

/// The value of a dot product without rounding is the sum of the products
/// of the values.
pub proof fn lemma_exact_dot_value(a: Vec3, b: Vec3)
    requires
        exact_dot(a, b),
    ensures
        a.dot_spec(b).finite(),
        a.dot_spec(b).units() * pow2(149) == a.x.units() * b.x.units() + a.y.units()
            * b.y.units() + a.z.units() * b.z.units(),
{
    let p = pow2(149) as int;
    let ux = a.x.mul_spec(b.x).units();
    let uy = a.y.mul_spec(b.y).units();
    let uz = a.z.mul_spec(b.z).units();
    assert((ux + uy + uz) * p == ux * p + uy * p + uz * p) by (nonlinear_arith);
}

/// The value of a cross product without rounding: each component is the
/// difference of two products of values.
pub proof fn lemma_exact_cross_value(a: Vec3, b: Vec3)
    requires
        exact_cross(a, b),
    ensures
        a.cross_spec(b).x.units() * pow2(149) == a.y.units() * b.z.units() - b.y.units()
            * a.z.units(),
        a.cross_spec(b).y.units() * pow2(149) == a.z.units() * b.x.units() - b.z.units()
            * a.x.units(),
        a.cross_spec(b).z.units() * pow2(149) == a.x.units() * b.y.units() - b.x.units()
            * a.y.units(),
{
    let p = pow2(149) as int;
    let (x1, x2) = (a.y.mul_spec(b.z).units(), b.y.mul_spec(a.z).units());
    let (y1, y2) = (a.z.mul_spec(b.x).units(), b.z.mul_spec(a.x).units());
    let (z1, z2) = (a.x.mul_spec(b.y).units(), b.x.mul_spec(a.y).units());
    assert((x1 - x2) * p == x1 * p - x2 * p) by (nonlinear_arith);
    assert((y1 - y2) * p == y1 * p - y2 * p) by (nonlinear_arith);
    assert((z1 - z2) * p == z1 * p - z2 * p) by (nonlinear_arith);
}

/// The dot product spreads over a sum, `a . (b + c) == a . b + a . c`,
/// wherever no sum and no product on either side is rounded. Where one is
/// rounded, the two sides may differ in their last places.
pub proof fn lemma_dot_distributes(a: Vec3, b: Vec3, c: Vec3)
    requires
        exact_sum(b.x, c.x),
        exact_sum(b.y, c.y),
        exact_sum(b.z, c.z),
        exact_dot(a, b.plus(c)),
        exact_dot(a, b),
        exact_dot(a, c),
        exact_sum(a.dot_spec(b), a.dot_spec(c)),
    ensures
        a.dot_spec(b.plus(c)).equals(a.dot_spec(b).add_spec(a.dot_spec(c))),
{
    let p = pow2(149) as int;
    lemma_pow2_pos(149);
    lemma_exact_dot_value(a, b.plus(c));
    lemma_exact_dot_value(a, b);
    lemma_exact_dot_value(a, c);
    let left = a.dot_spec(b.plus(c));
    let right = a.dot_spec(b).add_spec(a.dot_spec(c));
    let (ax, ay, az) = (a.x.units(), a.y.units(), a.z.units());
    let (bx, by, bz) = (b.x.units(), b.y.units(), b.z.units());
    let (cx, cy, cz) = (c.x.units(), c.y.units(), c.z.units());
    assert(ax * (bx + cx) == ax * bx + ax * cx) by (nonlinear_arith);
    assert(ay * (by + cy) == ay * by + ay * cy) by (nonlinear_arith);
    assert(az * (bz + cz) == az * bz + az * cz) by (nonlinear_arith);
    let ub = a.dot_spec(b).units();
    let uc = a.dot_spec(c).units();
    assert((ub + uc) * p == ub * p + uc * p) by (nonlinear_arith);
    assert(left.units() * p == right.units() * p);
    assert(left.units() == right.units()) by (nonlinear_arith)
        requires
            left.units() * p == right.units() * p,
            p > 0,
    ;
    lemma_order_is_by_value(left, right);
}

/// Each component of `v` is a whole number of absolute value at most
/// `bound`.
pub open spec fn whole_vector(v: Vec3, bound: nat) -> bool {
    whole(v.x, bound) && whole(v.y, bound) && whole(v.z, bound)
}

/// The dot product of two vectors of whole numbers is not rounded where
/// three times the product of their bounds is less than 2^24.
pub proof fn lemma_whole_dot(a: Vec3, b: Vec3, ba: nat, bb: nat)
    requires
        whole_vector(a, ba),
        whole_vector(b, bb),
        3 * (ba * bb) < 0x0100_0000,
    ensures
        exact_dot(a, b),
        whole(a.dot_spec(b), 3 * (ba * bb)),
{
    let m = ba * bb;
    lemma_whole_product(a.x, b.x, ba, bb);
    lemma_whole_product(a.y, b.y, ba, bb);
    lemma_whole_product(a.z, b.z, ba, bb);
    lemma_whole_sum(a.x.mul_spec(b.x), a.y.mul_spec(b.y), m, m);
    lemma_whole_sum(a.x.mul_spec(b.x).add_spec(a.y.mul_spec(b.y)), a.z.mul_spec(b.z), m + m, m);
}

/// The dot product spreads over a sum, `a . (b + c) == a . b + a . c`, for
/// vectors of whole numbers up to 1024.
pub proof fn lemma_dot_distributes_on_wholes(a: Vec3, b: Vec3, c: Vec3)
    requires
        whole_vector(a, 1024),
        whole_vector(b, 1024),
        whole_vector(c, 1024),
    ensures
        a.dot_spec(b.plus(c)).equals(a.dot_spec(b).add_spec(a.dot_spec(c))),
{
    lemma_whole_sum(b.x, c.x, 1024, 1024);
    lemma_whole_sum(b.y, c.y, 1024, 1024);
    lemma_whole_sum(b.z, c.z, 1024, 1024);
    assert(1024nat * 2048nat == 2097152 && 1024nat * 1024nat == 1048576) by (nonlinear_arith);
    lemma_whole_dot(a, b.plus(c), 1024, 2048);
    lemma_whole_dot(a, b, 1024, 1024);
    lemma_whole_dot(a, c, 1024, 1024);
    lemma_whole_sum(a.dot_spec(b), a.dot_spec(c), 3 * (1024 * 1024), 3 * (1024 * 1024));
    lemma_dot_distributes(a, b, c);
}

} // verus!
