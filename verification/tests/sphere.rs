use raytracer::camera::Camera;
use raytracer::scalar::Scalar;
use raytracer::sphere::{Ray, Sphere};
use raytracer::vec3::Vec3;

fn s(x: f32) -> Scalar {
    Scalar::from_bits(x.to_bits())
}

fn v(x: f32, y: f32, z: f32) -> Vec3 {
    Vec3::new(s(x), s(y), s(z))
}

#[test]
fn test_sphere_intersections() {
    let sphere = Sphere { radius: s(1.0), position: v(0.0, 0.0, 0.0) };

    // Ray intersects
    assert_eq!(
        sphere.intersect_t(&Ray { origin: v(-10.0, 0.0, 0.0), direction: v(1.0, 0.0, 0.0) }),
        Some(s(9.0))
    );

    // Ray points wrong way
    assert_eq!(
        sphere.intersect_t(&Ray { origin: v(-10.0, 0.0, 0.0), direction: v(-1.0, 0.0, 0.0) }),
        None
    );

    // Ray starts inside
    assert_eq!(
        sphere.intersect_t(&Ray { origin: v(0.0, 0.0, 0.0), direction: v(1.0, 0.0, 0.0) }),
        Some(s(1.0))
    );

    // Ray hits edge
    assert_eq!(
        sphere.intersect_t(&Ray { origin: v(-10.0, 1.0, 0.0), direction: v(1.0, 0.0, 0.0) }),
        Some(s(10.0))
    );

    // Ray misses
    assert_eq!(
        sphere.intersect_t(&Ray { origin: v(-10.0, 2.0, 0.0), direction: v(1.0, 0.0, 0.0) }),
        None
    );

    assert_eq!(
        sphere.intersect(&Ray { origin: v(-10.0, 0.0, 0.0), direction: v(1.0, 0.0, 0.0) }),
        Some(v(-1.0, 0.0, 0.0))
    );
    assert_eq!(
        sphere.intersect(&Ray { origin: v(-10.0, 1.0, 0.0), direction: v(1.0, 0.0, 0.0) }),
        Some(v(0.0, 1.0, 0.0))
    );
}

#[test]
fn intersection_is_the_same_each_time() {
    let sphere = Sphere { radius: s(1.5), position: v(3.0, 0.25, -1.0) };
    let ray = Ray { origin: v(-7.0, 0.5, 0.125), direction: v(2.0, -0.03125, -0.2) };
    let first = sphere.intersect_t(&ray).map(|t| t.to_bits());
    let second = sphere.intersect_t(&ray).map(|t| t.to_bits());
    assert!(first.is_some());
    assert_eq!(first, second);
}

#[test]
fn origin_on_the_surface_hits_at_zero() {
    let sphere = Sphere { radius: s(1.0), position: v(0.0, 0.0, 0.0) };
    let inwards = Ray { origin: v(-1.0, 0.0, 0.0), direction: v(1.0, 0.0, 0.0) };
    assert_eq!(sphere.intersect_t(&inwards), Some(s(0.0)));
    // leaving the sphere, the far root is zero, and zero is not enough
    let outwards = Ray { origin: v(1.0, 0.0, 0.0), direction: v(1.0, 0.0, 0.0) };
    assert_eq!(sphere.intersect_t(&outwards), None);
}

#[test]
fn distance_counts_in_lengths_of_the_direction() {
    let sphere = Sphere { radius: s(1.0), position: v(0.0, 0.0, 0.0) };
    let ray = Ray { origin: v(-10.0, 0.0, 0.0), direction: v(2.0, 0.0, 0.0) };
    assert_eq!(sphere.intersect_t(&ray), Some(s(4.5)));
}

#[test]
fn zero_direction_gives_no_hit() {
    let sphere = Sphere { radius: s(1.0), position: v(0.0, 0.0, 0.0) };
    let ray = Ray { origin: v(-10.0, 0.0, 0.0), direction: v(0.0, 0.0, 0.0) };
    assert_eq!(sphere.intersect_t(&ray), None);
}

#[test]
fn camera_basis_for_perpendicular_axes() {
    let camera = Camera::new(v(-10.0, 0.0, 0.0), v(10.0, 0.0, 0.0), v(0.0, 1.0, 0.0));
    let w = camera.width();
    assert_eq!(w, v(0.0, 0.0, 1.0));
    assert_eq!(w.length(), camera.height.length());
    assert_eq!(w.dot(camera.direction), s(0.0));
    assert_eq!(w.dot(camera.height), s(0.0));
}

#[test]
fn camera_with_parallel_axes_has_no_width() {
    let camera = Camera::new(v(0.0, 0.0, 0.0), v(1.0, 0.0, 0.0), v(2.0, 0.0, 0.0));
    let w = camera.width();
    assert!(w.x.is_nan() && w.y.is_nan() && w.z.is_nan());
}

#[test]
fn camera_ray_through_a_pixel() {
    let camera = Camera::new(v(-10.0, 0.0, 0.0), v(10.0, 0.0, 0.0), v(0.0, 1.0, 0.0));
    let ray = camera.ray(0, 51);
    assert_eq!(ray.origin, v(-10.0, 0.0, 0.0));
    assert_eq!(ray.direction.x.to_bits(), 10.0f32.to_bits());
    assert_eq!(ray.direction.y.to_bits(), (-0.5f32).to_bits());
    assert_eq!(ray.direction.z.to_bits(), (51.0f32 / 255.0 - 0.5).to_bits());
}

#[test]
fn camera_basis_holds_to_the_last_place_only() {
    // the height (1, 1, 0) has a length that is rounded
    let camera = Camera::new(v(0.0, 0.0, 0.0), v(0.0, 0.0, 1.0), v(1.0, 1.0, 0.0));
    let w = camera.width();
    assert_eq!(camera.direction.dot(camera.height), s(0.0));
    assert_eq!(w.length().to_bits(), 0x3fb5_04f2);
    assert_eq!(camera.height.length().to_bits(), 0x3fb5_04f3);
    assert_eq!(w.dot(camera.direction), s(0.0));
    assert_eq!(w.dot(camera.height), s(0.0));
}

#[test]
fn camera_basis_for_whole_axes() {
    let camera = Camera::new(v(1.0, 2.0, 3.0), v(3.0, 0.0, 0.0), v(0.0, 0.0, 7.0));
    let w = camera.width();
    assert_eq!(w, v(0.0, -7.0, 0.0));
    assert_eq!(w.length(), camera.height.length());
    assert_eq!(w.dot(camera.direction), s(0.0));
    assert_eq!(w.dot(camera.height), s(0.0));
}

#[test]
fn pixel_offsets_stay_within_half() {
    let camera = Camera::new(v(0.0, 0.0, 0.0), v(1.0, 0.0, 0.0), v(0.0, 1.0, 0.0));
    for x in 0..255u16 {
        // the height is the second axis, and of length one
        let offset = camera.ray(x, 0).direction.y;
        assert_eq!(offset.to_bits(), ((x as f32 / 255.0) - 0.5).to_bits());
        assert!(offset.ge(s(-0.5)) && offset.lt(s(0.5)));
    }
}

#[test]
fn radius_counts_by_its_square() {
    let ray = Ray { origin: v(-10.0, 0.0, 0.0), direction: v(1.0, 0.0, 0.0) };
    let inside_out = Sphere { radius: s(-1.0), position: v(0.0, 0.0, 0.0) };
    assert_eq!(inside_out.intersect_t(&ray), Some(s(9.0)));
    let point = Sphere { radius: s(0.0), position: v(0.0, 0.0, 0.0) };
    assert_eq!(point.intersect_t(&ray), Some(s(10.0)));
}

#[test]
fn sphere_behind_the_ray_is_missed() {
    let sphere = Sphere { radius: s(1.0), position: v(-20.0, 0.0, 0.0) };
    let ray = Ray { origin: v(-10.0, 0.0, 0.0), direction: v(1.0, 0.0, 0.0) };
    assert_eq!(sphere.intersect_t(&ray), None);
    assert_eq!(sphere.intersect(&ray), None);
}

#[test]
fn ray_of_no_numbers_meets_nothing() {
    let sphere = Sphere { radius: s(1.0), position: v(0.0, 0.0, 0.0) };
    let ray = Ray { origin: v(f32::NAN, 0.0, 0.0), direction: v(1.0, 0.0, 0.0) };
    assert_eq!(sphere.intersect_t(&ray), None);
}

#[test]
fn tiny_direction_has_no_square() {
    // the square of 2^-100 rounds to zero: the quadratic loses its leading
    // coefficient, and its root is a division by zero
    let tiny = f32::from_bits(0x0d80_0000);
    assert_eq!(tiny, 2.0f32.powi(-100));
    let d = v(tiny, 0.0, 0.0);
    assert_eq!(d.dot(d), s(0.0));
    let sphere = Sphere { radius: s(1.0), position: v(0.0, 0.0, 0.0) };
    assert_eq!(
        sphere.intersect_t(&Ray { origin: v(-10.0, 0.0, 0.0), direction: d }),
        Some(s(f32::INFINITY))
    );
    // from 2^-74 on the square is above zero
    let small = f32::from_bits(0x1a80_0000);
    assert_eq!(small, 2.0f32.powi(-74));
    let e = v(0.0, small, 0.0);
    assert!(e.dot(e).gt(s(0.0)));
    assert_eq!(e.dot(e).to_bits(), 2);
}
