//! What holds of the meeting of rays and spheres.

use vstd::prelude::*;
use crate::laws::order::{
    lemma_div_keeps_order,
    lemma_double_above_zero,
    lemma_square_above_zero,
    lemma_sub_below_add,
    lemma_sum_not_below_term,
};
use crate::laws::scalars::{
    lemma_commutes,
    lemma_nan_spreads,
    lemma_sqrt_not_below_zero,
    lemma_square_unsigned,
    unsigned,
};
use crate::scalar::{scalar, Scalar, TWO_BITS, ZERO_BITS};
use crate::sphere::{Ray, Sphere};

verus! {

/// Whether and where a ray meets a sphere depends on the sphere and the ray
/// alone: two answers to one question are the same, bit for bit.
pub proof fn lemma_intersect_t_repeats(
    sphere: Sphere,
    ray: Ray,
    first: Option<Scalar>,
    second: Option<Scalar>,
)
    requires
        first == sphere.intersect_t_spec(ray),
        second == sphere.intersect_t_spec(ray),
    ensures
        first == second,
        first matches Some(t) ==> second matches Some(u) && t.bits == u.bits,
{
}

/// The leading coefficient of the quadratic is never below zero, and above
/// zero for a direction with a component of magnitude 2^-74 or more. (A
/// direction of smaller components may have squares that round to zero.)
pub proof fn lemma_leading_coefficient(sphere: Sphere, ray: Ray)
    requires
        !ray.direction.x.nan(),
        !ray.direction.y.nan(),
        !ray.direction.z.nan(),
    ensures
        unsigned(sphere.quad_a(ray)),
        (ray.direction.x.code() >= 0x1a80_0000 || ray.direction.y.code() >= 0x1a80_0000
            || ray.direction.z.code() >= 0x1a80_0000) ==> scalar(ZERO_BITS).lt_spec(
            sphere.quad_a(ray),
        ) && scalar(ZERO_BITS).lt_spec(scalar(TWO_BITS).mul_spec(sphere.quad_a(ray))),
{
    let d = ray.direction;
    let xx = d.x.mul_spec(d.x);
    let yy = d.y.mul_spec(d.y);
    let zz = d.z.mul_spec(d.z);
    lemma_square_unsigned(d.x);
    lemma_square_unsigned(d.y);
    lemma_square_unsigned(d.z);
    lemma_sum_not_below_term(xx, yy);
    lemma_sum_not_below_term(yy, xx);
    lemma_commutes(xx, yy);
    let xy = xx.add_spec(yy);
    lemma_sum_not_below_term(xy, zz);
    lemma_sum_not_below_term(zz, xy);
    lemma_commutes(xy, zz);
    let a = sphere.quad_a(ray);
    assert(a == xy.add_spec(zz));
    if d.x.code() >= 0x1a80_0000 {
        lemma_square_above_zero(d.x);
    }
    if d.y.code() >= 0x1a80_0000 {
        lemma_square_above_zero(d.y);
    }
    if d.z.code() >= 0x1a80_0000 {
        lemma_square_above_zero(d.z);
    }
    if d.x.code() >= 0x1a80_0000 || d.y.code() >= 0x1a80_0000 || d.z.code() >= 0x1a80_0000 {
        assert(a.code() > 0);
        lemma_double_above_zero(a);
    }
}

/// The two roots are in order: wherever both are numbers and the leading
/// coefficient, doubled, is above zero, the near root is at most the far
/// root.
pub proof fn lemma_roots_in_order(sphere: Sphere, ray: Ray)
    requires
        !sphere.near_root(ray).nan(),
        !sphere.far_root(ray).nan(),
        scalar(ZERO_BITS).lt_spec(scalar(TWO_BITS).mul_spec(sphere.quad_a(ray))),
    ensures
        sphere.near_root(ray).le_spec(sphere.far_root(ray)),
{
    let minus_b = sphere.quad_b(ray).neg_spec();
    let root = sphere.discriminant(ray).sqrt_spec();
    let twice_a = scalar(TWO_BITS).mul_spec(sphere.quad_a(ray));
    let low = minus_b.sub_spec(root);
    let high = minus_b.add_spec(root);
    if low.nan() {
        lemma_nan_spreads(low, twice_a);
    }
    if high.nan() {
        lemma_nan_spreads(high, twice_a);
    }
    if root.nan() {
        lemma_nan_spreads(minus_b, root);
    }
    assert(!twice_a.nan() && !twice_a.negative() && twice_a.code() != 0);
    lemma_sqrt_not_below_zero(sphere.discriminant(ray));
    lemma_sub_below_add(minus_b, root);
    lemma_div_keeps_order(low, high, twice_a);
}

/// When a ray meets the sphere: it misses where the discriminant is below
/// zero, or where the near root is not zero or more and the far root is not
/// above zero; it meets at the near root where that is zero or more and the
/// discriminant is not below zero; and never at a parameter below zero.
pub proof fn lemma_hit_or_miss(sphere: Sphere, ray: Ray)
    ensures
        sphere.intersect_t_spec(ray) is None <==> sphere.discriminant(ray).lt_spec(
            scalar(ZERO_BITS),
        ) || (!scalar(ZERO_BITS).le_spec(sphere.near_root(ray)) && !scalar(ZERO_BITS).lt_spec(
            sphere.far_root(ray),
        )),
        !sphere.discriminant(ray).lt_spec(scalar(ZERO_BITS)) && scalar(ZERO_BITS).le_spec(
            sphere.near_root(ray),
        ) ==> sphere.intersect_t_spec(ray) == Some(sphere.near_root(ray)),
        sphere.intersect_t_spec(ray) matches Some(t) ==> scalar(ZERO_BITS).le_spec(t) && (t
            == sphere.near_root(ray) || t == sphere.far_root(ray)),
{
}

} // verus!
