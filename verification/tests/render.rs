use raytracer::render::{get_gradient_color, get_raydistance_color};

/// The same scene, traced with the numbers of the machine.
fn traced(x: u16, y: u16) -> [u8; 4] {
    let position = [-10.0f32, 0.0, 0.0];
    let direction = [10.0f32, 0.0, 0.0];
    let height = [0.0f32, 1.0, 0.0];
    let centre = [10.0f32, 0.0, 0.0];
    let radius = 1.0f32;
    let dot = |a: [f32; 3], b: [f32; 3]| a[0] * b[0] + a[1] * b[1] + a[2] * b[2];
    let w = [
        direction[1] * height[2] - height[1] * direction[2],
        direction[2] * height[0] - height[2] * direction[0],
        direction[0] * height[1] - height[0] * direction[1],
    ];
    let wl = dot(w, w).sqrt();
    let hl = dot(height, height).sqrt();
    let width = [w[0] / wl * hl, w[1] / wl * hl, w[2] / wl * hl];
    let v = (x as f32 / 255.0) - 0.5;
    let h = (y as f32 / 255.0) - 0.5;
    let d = [
        direction[0] + height[0] * v + width[0] * h,
        direction[1] + height[1] * v + width[1] * h,
        direction[2] + height[2] * v + width[2] * h,
    ];
    let os = [position[0] + -centre[0], position[1] + -centre[1], position[2] + -centre[2]];
    let a = dot(d, d);
    let b = 2.0 * dot(d, os);
    let c = dot(os, os) - radius * radius;
    let discriminant = b * b - 4.0 * a * c;
    let gradient = [(x * 255 / 255) as u8, (y * 255 / 255) as u8, 0, 255];
    if discriminant < 0.0 {
        return gradient;
    }
    let t1 = (-b - discriminant.sqrt()) / (2.0 * a);
    if t1 >= 0.0 {
        return [((t1 - 1.9) * 1000.0) as u8, 0, 0, 255];
    }
    let t2 = (-b + discriminant.sqrt()) / (2.0 * a);
    if t2 > 0.0 {
        return [((t2 - 1.9) * 1000.0) as u8, 0, 0, 255];
    }
    gradient
}

#[test]
fn gradient_follows_the_coordinates() {
    assert_eq!(get_gradient_color(0, 0), [0, 0, 0, 255]);
    assert_eq!(get_gradient_color(17, 200), [17, 200, 0, 255]);
    assert_eq!(get_gradient_color(254, 1), [254, 1, 0, 255]);
    assert_eq!(get_gradient_color(255, 256), [255, 0, 0, 255]);
    assert_eq!(get_gradient_color(257, 257), [1, 1, 0, 255]);
}

#[test]
fn corners_show_the_gradient() {
    assert_eq!(get_raydistance_color(0, 0), [0, 0, 0, 255]);
    assert_eq!(get_raydistance_color(254, 0), [254, 0, 0, 255]);
    assert_eq!(get_raydistance_color(0, 254), [0, 254, 0, 255]);
    assert_eq!(get_raydistance_color(254, 254), [254, 254, 0, 255]);
    assert_eq!(get_raydistance_color(20, 20), [20, 20, 0, 255]);
    assert_eq!(get_raydistance_color(230, 30), [230, 30, 0, 255]);
}

#[test]
fn centre_shows_the_sphere() {
    // the ray along the axis meets the sphere at t = 1.9 to the last place
    let centre = get_raydistance_color(127, 127);
    assert_eq!(centre, traced(127, 127));
    assert_eq!(centre[1..], [0, 0, 255]);
    let beside = get_raydistance_color(128, 128);
    assert_eq!(beside, traced(128, 128));
    assert_eq!(beside[1..], [0, 0, 255]);
}

#[test]
fn scene_matches_the_machine_on_a_grid() {
    let mut hits = 0;
    let mut misses = 0;
    for x in (0..255u16).step_by(6) {
        for y in (0..255u16).step_by(6) {
            let got = get_raydistance_color(x, y);
            assert_eq!(got, traced(x, y), "pixel ({}, {})", x, y);
            if got == get_gradient_color(x, y) {
                misses += 1;
            } else {
                hits += 1;
            }
        }
    }
    assert!(hits > 1000 && misses > 100);
}

#[test]
fn scene_matches_the_machine_near_the_centre() {
    for x in 95..160u16 {
        for y in 95..160u16 {
            let got = get_raydistance_color(x, y);
            assert_eq!(got, traced(x, y), "pixel ({}, {})", x, y);
            assert_eq!(got[1..], [0, 0, 255]);
        }
    }
}

#[test]
fn scene_matches_the_machine_at_the_rim() {
    for x in 0..60u16 {
        for y in 0..60u16 {
            assert_eq!(get_raydistance_color(x, y), traced(x, y), "pixel ({}, {})", x, y);
        }
    }
}

#[test]
fn red_grows_from_the_centre_to_the_rim() {
    let centre = get_raydistance_color(127, 127);
    let rim = get_raydistance_color(127, 2);
    assert_eq!(centre, [0, 0, 0, 255]);
    assert_eq!(rim, traced(127, 2));
    assert!(rim[0] > 40 && rim[0] < 100);
}

#[test]
fn literal_colours_of_the_scene() {
    assert_eq!(get_raydistance_color(127, 127), [0, 0, 0, 255]);
    assert_eq!(get_raydistance_color(127, 2), [76, 0, 0, 255]);
    assert_eq!(get_raydistance_color(0, 127), [90, 0, 0, 255]);
    assert_eq!(get_raydistance_color(60, 60), [30, 0, 0, 255]);
    assert_eq!(get_raydistance_color(200, 100), [18, 0, 0, 255]);
    assert_eq!(get_raydistance_color(254, 127), [81, 0, 0, 255]);
    // the rim of the sphere runs between these two
    assert_eq!(get_raydistance_color(37, 37), [37, 37, 0, 255]);
    assert_eq!(get_raydistance_color(38, 38), [82, 0, 0, 255]);
}
