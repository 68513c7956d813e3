//! Rays, spheres, and where the one meets the other.

use vstd::prelude::*;
use core::ops::{Add, Mul, Sub};
use crate::scalar::{scalar, Scalar, ZERO_BITS, TWO_BITS, FOUR_BITS};
use crate::vec3::Vec3;

verus! {

/// A half-line: the points `origin + t * direction` for `t >= 0`. The
/// direction need not have length one.
#[derive(Clone, Copy, Debug)]
pub struct Ray {
    pub origin: Vec3,
    pub direction: Vec3,
}

/// A sphere around `position`.
#[derive(Clone, Copy, Debug)]
pub struct Sphere {
    pub radius: Scalar,
    pub position: Vec3,
}

impl Ray {
    /// The point of the ray at the parameter `t`.
    pub open spec fn at(self, t: Scalar) -> Vec3 {
        self.origin.plus(self.direction.scaled(t))
    }
}

impl Sphere {
    /// From the centre of the sphere to the origin of the ray.
    pub open spec fn offset(self, r: Ray) -> Vec3 {
        r.origin.minus(self.position)
    }

    /// Leading coefficient of the quadratic in `t` whose roots are the
    /// parameters at which the ray meets the sphere: the direction dotted
    /// with itself.
    pub open spec fn quad_a(self, r: Ray) -> Scalar {
        r.direction.dot_spec(r.direction)
    }

    /// Linear coefficient: twice the direction dotted with the offset.
    pub open spec fn quad_b(self, r: Ray) -> Scalar {
        scalar(TWO_BITS).mul_spec(r.direction.dot_spec(self.offset(r)))
    }

    /// Constant coefficient: the offset dotted with itself, less the square
    /// of the radius.
    pub open spec fn quad_c(self, r: Ray) -> Scalar {
        self.offset(r).dot_spec(self.offset(r)).sub_spec(self.radius.mul_spec(self.radius))
    }

    /// `b^2 - 4ac`.
    pub open spec fn discriminant(self, r: Ray) -> Scalar {
        let b = self.quad_b(r);
        b.mul_spec(b).sub_spec(
            scalar(FOUR_BITS).mul_spec(self.quad_a(r)).mul_spec(self.quad_c(r)),
        )
    }

    /// The smaller root: `(-b - sqrt(discriminant)) / 2a`.
    pub open spec fn near_root(self, r: Ray) -> Scalar {
        self.quad_b(r).neg_spec().sub_spec(self.discriminant(r).sqrt_spec()).div_spec(
            scalar(TWO_BITS).mul_spec(self.quad_a(r)),
        )
    }

    /// The larger root: `(-b + sqrt(discriminant)) / 2a`.
    pub open spec fn far_root(self, r: Ray) -> Scalar {
        self.quad_b(r).neg_spec().add_spec(self.discriminant(r).sqrt_spec()).div_spec(
            scalar(TWO_BITS).mul_spec(self.quad_a(r)),
        )
    }

    /// Parameter of the nearest point of the ray on the sphere: none where
    /// the discriminant is below zero; else the smaller root if it is zero
    /// or more; else the larger root if it is more than zero; else none.
    pub open spec fn intersect_t_spec(self, r: Ray) -> Option<Scalar> {
        if self.discriminant(r).lt_spec(scalar(ZERO_BITS)) {
            None
        } else if scalar(ZERO_BITS).le_spec(self.near_root(r)) {
            Some(self.near_root(r))
        } else if scalar(ZERO_BITS).lt_spec(self.far_root(r)) {
            Some(self.far_root(r))
        } else {
            None
        }
    }

    /// The nearest point of the ray on the sphere, if there is one.
    pub open spec fn intersect_spec(self, r: Ray) -> Option<Vec3> {
        match self.intersect_t_spec(r) {
            None => None,
            Some(t) => Some(r.at(t)),
        }
    }

    /// Parameter of the nearest point of the ray on the sphere, if the ray
    /// meets it at a parameter of zero or more. The parameter counts lengths
    /// of the direction, which need not be one.
    pub fn intersect_t(&self, r: &Ray) -> (hit: Option<Scalar>)
        ensures
            hit == self.intersect_t_spec(*r),
            hit matches Some(t) ==> scalar(ZERO_BITS).le_spec(t),
    {
        let zero = Scalar::from_bits(ZERO_BITS);
        let two = Scalar::from_bits(TWO_BITS);
        let four = Scalar::from_bits(FOUR_BITS);
        let os = r.origin.sub(self.position);
        let a = r.direction.dot(r.direction);
        let b = two.mul(r.direction.dot(os));
        let c = os.dot(os).sub(self.radius.mul(self.radius));
        let discriminant = b.mul(b).sub(four.mul(a).mul(c));
        if discriminant.lt(zero) {
            return None;
        }
        let t1 = b.neg().sub(discriminant.sqrt()).div(two.mul(a));
        if t1.ge(zero) {
            return Some(t1);
        }
        let t2 = b.neg().add(discriminant.sqrt()).div(two.mul(a));
        if t2.gt(zero) {
            return Some(t2);
        }
        None
    }

    /// The nearest point of the ray on the sphere, if there is one.
    pub fn intersect(&self, r: &Ray) -> (hit: Option<Vec3>)
        ensures
            hit == self.intersect_spec(*r),
    {
        match self.intersect_t(r) {
            None => None,
            Some(t) => Some(r.origin.add(r.direction.mul(t))),
        }
    }
}

} // verus!
