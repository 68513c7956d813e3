//! Vectors of three scalars.

use vstd::prelude::*;
use core::ops::{Add, Neg};
use crate::laws::vectors::lemma_length_not_below_zero;
use crate::scalar::{scalar, Number, Scalar, ZERO_BITS};

verus! {

/// A vector, or a point, in space.
#[derive(Clone, Copy, Debug)]
pub struct Vec3 {
    pub x: Scalar,
    pub y: Scalar,
    pub z: Scalar,
}

impl View for Vec3 {
    type V = (Number, Number, Number);

    /// The three numbers that the components stand for.
    open spec fn view(&self) -> (Number, Number, Number) {
        (self.x@, self.y@, self.z@)
    }
}

impl Vec3 {
    /// The vector with each component negated.
    pub open spec fn negated(self) -> Vec3 {
        Vec3 { x: self.x.neg_spec(), y: self.y.neg_spec(), z: self.z.neg_spec() }
    }

    /// The sum, component by component.
    pub open spec fn plus(self, other: Vec3) -> Vec3 {
        Vec3 {
            x: self.x.add_spec(other.x),
            y: self.y.add_spec(other.y),
            z: self.z.add_spec(other.z),
        }
    }

    /// The difference: the sum with the negated vector.
    pub open spec fn minus(self, other: Vec3) -> Vec3 {
        self.plus(other.negated())
    }

    /// The vector with each component multiplied by `k`.
    pub open spec fn scaled(self, k: Scalar) -> Vec3 {
        Vec3 { x: self.x.mul_spec(k), y: self.y.mul_spec(k), z: self.z.mul_spec(k) }
    }

    /// The vector with each component divided by `k`.
    pub open spec fn divided(self, k: Scalar) -> Vec3 {
        Vec3 { x: self.x.div_spec(k), y: self.y.div_spec(k), z: self.z.div_spec(k) }
    }

    /// The dot product: the three products of components, summed from the
    /// left.
    pub open spec fn dot_spec(self, other: Vec3) -> Scalar {
        self.x.mul_spec(other.x).add_spec(self.y.mul_spec(other.y)).add_spec(
            self.z.mul_spec(other.z),
        )
    }

    /// The right-handed cross product.
    pub open spec fn cross_spec(self, other: Vec3) -> Vec3 {
        Vec3 {
            x: self.y.mul_spec(other.z).sub_spec(other.y.mul_spec(self.z)),
            y: self.z.mul_spec(other.x).sub_spec(other.z.mul_spec(self.x)),
            z: self.x.mul_spec(other.y).sub_spec(other.x.mul_spec(self.y)),
        }
    }

    /// The Euclidean norm: the root of the dot product of the vector with
    /// itself.
    pub open spec fn length_spec(self) -> Scalar {
        self.dot_spec(self).sqrt_spec()
    }

    /// Equality of vectors: each component equals its counterpart as a
    /// number.
    pub open spec fn equals(self, other: Vec3) -> bool {
        self.x.equals(other.x) && self.y.equals(other.y) && self.z.equals(other.z)
    }

    /// The vector of the three components.
    pub fn new(x: Scalar, y: Scalar, z: Scalar) -> (v: Vec3)
        ensures
            v == (Vec3 { x, y, z }),
    {
        Vec3 { x, y, z }
    }

    /// The Euclidean norm: not below zero, and a NaN exactly where a component
    /// is one.
    pub fn length(self) -> (r: Scalar)
        ensures
            r == self.length_spec(),
            r.nan() <==> self.x.nan() || self.y.nan() || self.z.nan(),
            !r.nan() ==> scalar(ZERO_BITS).le_spec(r),
    {
        proof {
            lemma_length_not_below_zero(self);
        }
        self.dot(self).sqrt()
    }

    /// The right-handed cross product.
    pub fn cross(self, other: Vec3) -> (v: Vec3)
        ensures
            v == self.cross_spec(other),
    {
        Vec3 {
            x: self.y.mul(other.z).sub(other.y.mul(self.z)),
            y: self.z.mul(other.x).sub(other.z.mul(self.x)),
            z: self.x.mul(other.y).sub(other.x.mul(self.y)),
        }
    }

    /// The dot product.
    pub fn dot(self, other: Vec3) -> (r: Scalar)
        ensures
            r == self.dot_spec(other),
    {
        self.x.mul(other.x).add(self.y.mul(other.y)).add(self.z.mul(other.z))
    }
}

impl PartialEq for Vec3 {
    /// Equality of vectors, component by component: a vector with a NaN
    /// equals nothing, itself included.
    fn eq(&self, other: &Vec3) -> (r: bool) {
        self.x == other.x && self.y == other.y && self.z == other.z
    }
}

impl vstd::std_specs::cmp::PartialEqSpecImpl for Vec3 {
    open spec fn obeys_eq_spec() -> bool {
        true
    }

    open spec fn eq_spec(&self, other: &Vec3) -> bool {
        self.equals(*other)
    }
}

impl core::ops::Neg for Vec3 {
    type Output = Vec3;

    /// The vector with each component negated.
    fn neg(self) -> (v: Vec3) {
        Vec3 { x: self.x.neg(), y: self.y.neg(), z: self.z.neg() }
    }
}

impl vstd::std_specs::ops::NegSpecImpl for Vec3 {
    open spec fn obeys_neg_spec() -> bool {
        true
    }

    open spec fn neg_req(self) -> bool {
        true
    }

    open spec fn neg_spec(self) -> Vec3 {
        self.negated()
    }
}

impl core::ops::Add<Vec3> for Vec3 {
    type Output = Vec3;

    /// The sum, component by component.
    fn add(self, other: Vec3) -> (v: Vec3) {
        Vec3 { x: self.x.add(other.x), y: self.y.add(other.y), z: self.z.add(other.z) }
    }
}

impl vstd::std_specs::ops::AddSpecImpl<Vec3> for Vec3 {
    open spec fn obeys_add_spec() -> bool {
        true
    }

    open spec fn add_req(self, other: Vec3) -> bool {
        true
    }

    open spec fn add_spec(self, other: Vec3) -> Vec3 {
        self.plus(other)
    }
}

impl core::ops::Sub<Vec3> for Vec3 {
    type Output = Vec3;

    /// The difference: the sum with the negated vector.
    fn sub(self, other: Vec3) -> (v: Vec3) {
        self.add(other.neg())
    }
}

impl vstd::std_specs::ops::SubSpecImpl<Vec3> for Vec3 {
    open spec fn obeys_sub_spec() -> bool {
        true
    }

    open spec fn sub_req(self, other: Vec3) -> bool {
        true
    }

    open spec fn sub_spec(self, other: Vec3) -> Vec3 {
        self.minus(other)
    }
}

impl core::ops::Mul<Scalar> for Vec3 {
    type Output = Vec3;

    /// The vector with each component multiplied by `k`.
    fn mul(self, k: Scalar) -> (v: Vec3) {
        Vec3 { x: self.x.mul(k), y: self.y.mul(k), z: self.z.mul(k) }
    }
}

impl vstd::std_specs::ops::MulSpecImpl<Scalar> for Vec3 {
    open spec fn obeys_mul_spec() -> bool {
        true
    }

    open spec fn mul_req(self, k: Scalar) -> bool {
        true
    }

    open spec fn mul_spec(self, k: Scalar) -> Vec3 {
        self.scaled(k)
    }
}

impl core::ops::Div<Scalar> for Vec3 {
    type Output = Vec3;

    /// The vector with each component divided by `k`; a division by zero
    /// gives infinities and NaNs, as that of scalars does.
    fn div(self, k: Scalar) -> (v: Vec3) {
        Vec3 { x: self.x.div(k), y: self.y.div(k), z: self.z.div(k) }
    }
}

impl vstd::std_specs::ops::DivSpecImpl<Scalar> for Vec3 {
    open spec fn obeys_div_spec() -> bool {
        true
    }

    open spec fn div_req(self, k: Scalar) -> bool {
        true
    }

    open spec fn div_spec(self, k: Scalar) -> Vec3 {
        self.divided(k)
    }
}

} // verus!
