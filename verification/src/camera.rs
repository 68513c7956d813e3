//! The camera: one ray for each pixel.

use vstd::prelude::*;
use core::ops::{Add, Div, Mul};
use crate::scalar::{scalar, Scalar, HALF_BITS};
use crate::sphere::Ray;
use crate::vec3::Vec3;
use crate::{HEIGHT, WIDTH};

verus! {

/// A camera at `position` that looks along `direction`; `height` points
/// upwards in the image and spans it.
#[derive(Clone, Copy, Debug)]
pub struct Camera {
    pub position: Vec3,
    pub direction: Vec3,
    pub height: Vec3,
}

/// Place of the pixel coordinate `i` out of `span`, from -1/2 up to 1/2.
pub open spec fn pixel_offset(i: u16, span: u16) -> Scalar {
    Scalar::from_int_spec(i as nat).div_spec(Scalar::from_int_spec(span as nat)).sub_spec(
        scalar(HALF_BITS),
    )
}

impl Camera {
    /// The vector across the image: the cross product of direction and
    /// height, brought to the length of the height.
    pub open spec fn width_spec(self) -> Vec3 {
        let w = self.direction.cross_spec(self.height);
        w.divided(w.length_spec()).scaled(self.height.length_spec())
    }

    /// The ray through the pixel `(x, y)`: from the position of the camera,
    /// along the direction moved by `x` along the height and by `y` along
    /// the width.
    pub open spec fn ray_spec(self, x: u16, y: u16) -> Ray {
        Ray {
            origin: self.position,
            direction: self.direction.plus(self.height.scaled(pixel_offset(x, WIDTH))).plus(
                self.width_spec().scaled(pixel_offset(y, HEIGHT)),
            ),
        }
    }

    /// The camera with the given position, direction and height.
    pub fn new(position: Vec3, direction: Vec3, height: Vec3) -> (camera: Camera)
        ensures
            camera == (Camera { position, direction, height }),
    {
        Camera { position, direction, height }
    }

    /// The vector across the image: at a right angle to direction and height,
    /// and as long as the height. Made of NaNs where direction and height are
    /// parallel.
    pub fn width(&self) -> (w: Vec3)
        ensures
            w == self.width_spec(),
    {
        let w = self.direction.cross(self.height);
        w.div(w.length()).mul(self.height.length())
    }

    /// The ray through the pixel `(x, y)`. The first coordinate moves along
    /// the height, the second along the width; the direction is not brought
    /// to length one.
    pub fn ray(&self, x: u16, y: u16) -> (r: Ray)
        ensures
            r == self.ray_spec(x, y),
    {
        let half = Scalar::from_bits(HALF_BITS);
        let vertical_offset = Scalar::from_u16(x).div(Scalar::from_u16(WIDTH)).sub(half);
        let horizontal_offset = Scalar::from_u16(y).div(Scalar::from_u16(HEIGHT)).sub(half);
        Ray {
            origin: self.position,
            direction: self.direction.add(self.height.mul(vertical_offset)).add(
                self.width().mul(horizontal_offset),
            ),
        }
    }
}

} // verus!
