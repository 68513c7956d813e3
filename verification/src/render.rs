//! The colour of each pixel of the scene: a sphere before a gradient.

use vstd::prelude::*;
use crate::camera::Camera;
use crate::scalar::{scalar, Scalar, ONE_BITS, TEN_BITS, ZERO_BITS};
use crate::sphere::Sphere;
use crate::vec3::Vec3;
use crate::{HEIGHT, SCALE, WIDTH};

verus! {

/// Pattern of -10.
pub const MINUS_TEN_BITS: u32 = 0xc120_0000;

/// Pattern of the scalar nearest to 1.9, the distance at which the sphere
/// begins to show red.
pub const NEAR_BITS: u32 = 0x3ff3_3333;

/// Pattern of 1000, the red gained per unit of distance.
pub const GAIN_BITS: u32 = 0x447a_0000;

/// The camera of the scene: at (-10, 0, 0), looking along (10, 0, 0), with
/// (0, 1, 0) upwards.
pub open spec fn scene_camera() -> Camera {
    Camera {
        position: Vec3 { x: scalar(MINUS_TEN_BITS), y: scalar(ZERO_BITS), z: scalar(ZERO_BITS) },
        direction: Vec3 { x: scalar(TEN_BITS), y: scalar(ZERO_BITS), z: scalar(ZERO_BITS) },
        height: Vec3 { x: scalar(ZERO_BITS), y: scalar(ONE_BITS), z: scalar(ZERO_BITS) },
    }
}

/// The sphere of the scene: of radius 1 around (10, 0, 0).
pub open spec fn scene_sphere() -> Sphere {
    Sphere {
        radius: scalar(ONE_BITS),
        position: Vec3 { x: scalar(TEN_BITS), y: scalar(ZERO_BITS), z: scalar(ZERO_BITS) },
    }
}

/// Parameter at which the ray through the pixel `(x, y)` meets the sphere of
/// the scene, if it does.
pub open spec fn scene_hit(x: u16, y: u16) -> Option<Scalar> {
    scene_sphere().intersect_t_spec(scene_camera().ray_spec(x, y))
}

/// One channel of the gradient: the coordinate, scaled from the image to the
/// range of a channel, and cut to a byte.
pub open spec fn gradient_channel(i: u16, span: u16) -> u8 {
    ((i * SCALE / (span as int)) % 256) as u8
}

/// Colour of the gradient at the pixel `(x, y)`, as red, green, blue, alpha.
pub open spec fn gradient_color(x: u16, y: u16) -> Seq<u8> {
    seq![gradient_channel(x, WIDTH), gradient_channel(y, HEIGHT), 0u8, 255u8]
}

/// Colour of a point of the sphere at the parameter `t`: red grows by 1000
/// for each unit beyond 1.9, cut to a byte.
pub open spec fn hit_color(t: Scalar) -> Seq<u8> {
    seq![t.sub_spec(scalar(NEAR_BITS)).mul_spec(scalar(GAIN_BITS)).to_u8_spec(), 0u8, 0u8, 255u8]
}

/// Colour of the scene at the pixel `(x, y)`: that of the sphere where the
/// ray through the pixel meets it, that of the gradient elsewhere.
pub open spec fn raydistance_color(x: u16, y: u16) -> Seq<u8> {
    match scene_hit(x, y) {
        None => gradient_color(x, y),
        Some(t) => hit_color(t),
    }
}

/// Colour of the background gradient at a pixel.
pub fn get_gradient_color(x: u16, y: u16) -> (rgba: [u8; 4])
    requires
        x * SCALE <= u16::MAX,
        y * SCALE <= u16::MAX,
    ensures
        rgba@ == gradient_color(x, y),
        rgba[0] == x % 256,
        rgba[1] == y % 256,
{
    let r: u16 = x * (SCALE as u16) / WIDTH;
    let g: u16 = y * (SCALE as u16) / HEIGHT;
    let rgba = [(r % 256) as u8, (g % 256) as u8, 0, 255];
    assert(rgba@ =~= gradient_color(x, y));
    rgba
}

/// Colour of the scene at a pixel.
pub fn get_raydistance_color(x: u16, y: u16) -> (rgba: [u8; 4])
    requires
        scene_hit(x, y) is None ==> x * SCALE <= u16::MAX && y * SCALE <= u16::MAX,
    ensures
        rgba@ == raydistance_color(x, y),
{
    let zero = Scalar::from_bits(ZERO_BITS);
    let one = Scalar::from_bits(ONE_BITS);
    let ten = Scalar::from_bits(TEN_BITS);
    let camera = Camera::new(
        Vec3::new(Scalar::from_bits(MINUS_TEN_BITS), zero, zero),
        Vec3::new(ten, zero, zero),
        Vec3::new(zero, one, zero),
    );
    let sphere = Sphere { radius: one, position: Vec3::new(ten, zero, zero) };
    match sphere.intersect_t(&camera.ray(x, y)) {
        None => get_gradient_color(x, y),
        Some(t) => {
            let red = t.sub(Scalar::from_bits(NEAR_BITS)).mul(Scalar::from_bits(GAIN_BITS)).to_u8();
            let rgba = [red, 0, 0, 255];
            assert(rgba@ =~= hit_color(t));
            rgba
        },
    }
}

} // verus!
