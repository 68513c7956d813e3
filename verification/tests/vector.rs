use raytracer::scalar::Scalar;
use raytracer::vec3::Vec3;

fn s(x: f32) -> Scalar {
    Scalar::from_bits(x.to_bits())
}

fn v(x: f32, y: f32, z: f32) -> Vec3 {
    Vec3 { x: s(x), y: s(y), z: s(z) }
}

#[test]
fn scalar_multiplication() {
    let a = v(1.0, 0.0, 0.0);
    assert_eq!(a * Scalar::from_u8(2), v(2.0, 0.0, 0.0));
    assert_eq!(a * s(2.0), v(2.0, 0.0, 0.0));
}

#[test]
fn cross_product() {
    let x = v(1.0, 0.0, 0.0);
    let y = v(0.0, 1.0, 0.0);
    let z = v(0.0, 0.0, 1.0);

    // Right hand rules
    assert_eq!(x.cross(y), z);
    assert_eq!(y.cross(x), -z);
    assert_eq!(y.cross(z), x);
    assert_eq!(z.cross(y), -x);
    assert_eq!(z.cross(x), y);
    assert_eq!(x.cross(z), -y);

    // Cross product of vectors on the same line is zero
    assert_eq!(x.cross(x), v(0.0, 0.0, 0.0));
    assert_eq!(x.cross(-x), v(0.0, 0.0, 0.0));
}

#[test]
fn dot_product() {
    let a = v(1.0, 0.0, 0.0);
    assert_eq!(a.dot(v(1.0, 0.0, 0.0)), s(1.0));
    assert_eq!(a.dot(v(1.0, 1.0, 1.0)), s(1.0));
    assert_eq!(a.dot(v(0.0, 1.0, 0.0)), s(0.0));

    let b = v(2.0, 0.0, 0.0);
    assert_eq!(b.dot(v(10.0, 0.0, 0.0)), s(20.0));
    assert_eq!(b.dot(v(20.0, 20.0, 20.0)), s(40.0));
    assert_eq!(b.dot(v(0.0, 1.0, 0.0)), s(0.0));
}

#[test]
fn length() {
    assert_eq!(v(10.0, 0.0, 0.0).length(), s(10.0));
    assert_eq!(v(3.0, 4.0, 0.0).length(), s(5.0));
}

#[test]
fn vector_new_keeps_components() {
    let a = Vec3::new(s(1.5), s(-2.0), s(0.25));
    assert_eq!(a.x.to_bits(), 1.5f32.to_bits());
    assert_eq!(a.y.to_bits(), (-2.0f32).to_bits());
    assert_eq!(a.z.to_bits(), 0.25f32.to_bits());
}

#[test]
fn vector_arithmetic_is_componentwise() {
    let a = v(1.0, 2.0, 3.0);
    let b = v(0.5, -4.0, 10.0);
    assert_eq!(a + b, v(1.5, -2.0, 13.0));
    assert_eq!(a - b, v(0.5, 6.0, -7.0));
    assert_eq!(-a, v(-1.0, -2.0, -3.0));
    assert_eq!(a * s(0.5), v(0.5, 1.0, 1.5));
    assert_eq!(a / s(2.0), v(0.5, 1.0, 1.5));
}

#[test]
fn vector_division_by_zero_gives_infinities() {
    let a = v(1.0, -1.0, 0.0) / s(0.0);
    assert_eq!(a.x.to_bits(), f32::INFINITY.to_bits());
    assert_eq!(a.y.to_bits(), f32::NEG_INFINITY.to_bits());
    assert!(a.z.is_nan());
}

#[test]
fn vector_with_nan_is_not_itself() {
    let a = v(f32::NAN, 0.0, 0.0);
    assert!(a != a);
    assert_eq!(v(0.0, -0.0, 0.0), v(-0.0, 0.0, -0.0));
}

#[test]
fn cross_is_antisymmetric_on_samples() {
    let a = v(1.25, -3.5, 7.0);
    let b = v(-0.125, 2.0, 9.75);
    assert_eq!(a.cross(b), -(b.cross(a)));
    assert_eq!(a.cross(a), v(0.0, 0.0, 0.0));
}

#[test]
fn length_is_never_below_zero() {
    for a in [v(0.0, 0.0, 0.0), v(-1.0, -2.0, -3.0), v(1e-30, 0.0, 0.0), v(1e30, 1e30, 0.0)] {
        assert!(a.length().ge(s(0.0)));
    }
    assert!(v(f32::NAN, 1.0, 1.0).length().is_nan());
}

#[test]
fn dot_distributes_on_exact_samples() {
    let a = v(1.0, 2.0, 3.0);
    let b = v(4.0, -5.0, 6.0);
    let c = v(0.5, 0.25, -8.0);
    assert_eq!(a.dot(b + c), a.dot(b).add(a.dot(c)));
}

#[test]
fn dot_need_not_distribute_where_sums_round() {
    // 1 + 0.1 is rounded before it is tripled; 3 + 0.3 is rounded after
    let a = v(3.0, 0.0, 0.0);
    let b = v(1.0, 0.0, 0.0);
    let c = v(0.1, 0.0, 0.0);
    let left = a.dot(b + c);
    let right = a.dot(b).add(a.dot(c));
    assert_eq!(left.to_bits(), 0x4053_3334);
    assert_eq!(right.to_bits(), 0x4053_3333);
    assert_eq!(left.to_bits(), (3.0f32 * (1.0f32 + 0.1f32)).to_bits());
    assert_eq!(right.to_bits(), (3.0f32 * 1.0f32 + 3.0f32 * 0.1f32).to_bits());
}

#[test]
fn dot_distributes_on_whole_numbers() {
    let a = v(1024.0, -1000.0, 3.0);
    let b = v(-1024.0, 999.0, 17.0);
    let c = v(1024.0, 1024.0, -1024.0);
    assert_eq!(a.dot(b + c), a.dot(b).add(a.dot(c)));
    assert_eq!(a.dot(b + c), s(-2026021.0));
}

#[test]
fn length_of_the_largest_vector_is_infinite() {
    let a = v(f32::MAX, f32::MAX, f32::MAX);
    assert_eq!(a.length().to_bits(), f32::INFINITY.to_bits());
    assert_eq!(v(f32::INFINITY, 0.0, 0.0).length().to_bits(), f32::INFINITY.to_bits());
}

#[test]
fn cross_of_a_vector_that_overflows_is_no_number() {
    let a = v(f32::MAX, f32::MAX, 1.0);
    let c = a.cross(a);
    assert!(c.z.is_nan());
    assert_eq!(c.x, s(0.0));
}
