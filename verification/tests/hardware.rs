use raytracer::root::{round_root, whole_root};
use raytracer::rounding::{round_ratio, shift_left};
use raytracer::scalar::Scalar;

fn s(x: f32) -> Scalar {
    Scalar::from_bits(x.to_bits())
}

/// The same number: the same pattern, or a NaN on both sides.
fn same(got: Scalar, want: f32) -> bool {
    if want.is_nan() {
        got.is_nan()
    } else {
        got.to_bits() == want.to_bits()
    }
}

fn next(state: &mut u64) -> u32 {
    *state = state.wrapping_mul(6364136223846793005).wrapping_add(1442695040888963407);
    (*state >> 32) as u32
}

const EDGES: [u32; 24] = [
    0x0000_0000, 0x8000_0000, 0x0000_0001, 0x8000_0001, 0x007f_ffff, 0x0080_0000, 0x0080_0001,
    0x00ff_ffff, 0x0100_0000, 0x3f7f_ffff, 0x3f80_0000, 0x3f80_0001, 0xbf80_0000, 0x4000_0000,
    0x4b7f_ffff, 0x4b80_0000, 0x7f7f_ffff, 0xff7f_ffff, 0x7f80_0000, 0xff80_0000, 0x7fc0_0000,
    0x7f80_0001, 0x3400_0000, 0x3380_0000,
];

/// A pattern near `x` in exponent, so that sums cancel and round.
fn near(state: &mut u64, x: u32) -> u32 {
    let e = ((x >> 23) & 0xff) as i32 + (next(state) % 61) as i32 - 30;
    let e = e.clamp(0, 254) as u32;
    (next(state) & 0x807f_ffff) | (e << 23)
}

fn pairs(count: usize) -> Vec<(u32, u32)> {
    let mut all = Vec::new();
    for a in EDGES {
        for b in EDGES {
            all.push((a, b));
        }
    }
    let mut state = 0x2545_f491_4f6c_dd1d_u64;
    for i in 0..count {
        let a = next(&mut state);
        let b = if i % 2 == 0 { next(&mut state) } else { near(&mut state, a) };
        all.push((a, b));
        all.push((a, EDGES[i % EDGES.len()]));
        all.push((EDGES[i % EDGES.len()], b));
    }
    all
}

#[test]
fn sums_match_the_machine() {
    for (a, b) in pairs(20000) {
        let (x, y) = (f32::from_bits(a), f32::from_bits(b));
        assert!(same(s(x).add(s(y)), x + y), "{:#x} + {:#x}", a, b);
        assert!(same(s(x).sub(s(y)), x - y), "{:#x} - {:#x}", a, b);
    }
}

#[test]
fn products_match_the_machine() {
    for (a, b) in pairs(20000) {
        let (x, y) = (f32::from_bits(a), f32::from_bits(b));
        assert!(same(s(x).mul(s(y)), x * y), "{:#x} * {:#x}", a, b);
    }
}

#[test]
fn quotients_match_the_machine() {
    for (a, b) in pairs(20000) {
        let (x, y) = (f32::from_bits(a), f32::from_bits(b));
        assert!(same(s(x).div(s(y)), x / y), "{:#x} / {:#x}", a, b);
    }
}

#[test]
fn roots_match_the_machine() {
    for (a, b) in pairs(20000) {
        for bits in [a, b] {
            let x = f32::from_bits(bits);
            assert!(same(s(x).sqrt(), x.sqrt()), "sqrt {:#x}", bits);
        }
    }
}

#[test]
fn negation_flips_the_sign_bit() {
    for (a, _) in pairs(1000) {
        assert_eq!(Scalar::from_bits(a).neg().to_bits(), a ^ 0x8000_0000);
    }
}

#[test]
fn comparisons_match_the_machine() {
    for (a, b) in pairs(20000) {
        let (x, y) = (f32::from_bits(a), f32::from_bits(b));
        assert_eq!(s(x).lt(s(y)), x < y, "{:#x} < {:#x}", a, b);
        assert_eq!(s(x).le(s(y)), x <= y, "{:#x} <= {:#x}", a, b);
        assert_eq!(s(x).gt(s(y)), x > y, "{:#x} > {:#x}", a, b);
        assert_eq!(s(x).ge(s(y)), x >= y, "{:#x} >= {:#x}", a, b);
        assert_eq!(s(x) == s(y), x == y, "{:#x} == {:#x}", a, b);
        assert_eq!(s(x).is_nan(), x.is_nan());
    }
}

#[test]
fn whole_numbers_convert_exactly() {
    for x in 0..=u16::MAX {
        assert_eq!(Scalar::from_u16(x).to_bits(), (x as f32).to_bits());
    }
    for x in 0..=u8::MAX {
        assert_eq!(Scalar::from_u8(x).to_bits(), (x as f32).to_bits());
    }
}

#[test]
fn bytes_are_cut_as_the_machine_cuts_them() {
    for (a, b) in pairs(20000) {
        for bits in [a, b] {
            let x = f32::from_bits(bits);
            assert_eq!(s(x).to_u8(), x as u8, "{:#x}", bits);
        }
    }
    for i in 0..=2600u32 {
        let x = i as f32 / 10.0 - 2.0;
        assert_eq!(s(x).to_u8(), x as u8);
    }
    assert_eq!(s(255.99).to_u8(), 255);
    assert_eq!(s(256.0).to_u8(), 255);
    assert_eq!(s(0.99).to_u8(), 0);
    assert_eq!(s(1.0).to_u8(), 1);
    assert_eq!(s(-3.0).to_u8(), 0);
    assert_eq!(s(f32::NAN).to_u8(), 0);
    assert_eq!(s(f32::INFINITY).to_u8(), 255);
}

#[test]
fn rounding_goes_to_the_even_neighbour() {
    // 2^24 + 1 lies halfway between two neighbours: the even one wins
    assert_eq!(s(16777216.0).add(s(1.0)), s(16777216.0));
    assert_eq!(s(16777218.0).add(s(1.0)), s(16777220.0));
    // the largest finite number, doubled, is infinity
    assert_eq!(s(f32::MAX).add(s(f32::MAX)).to_bits(), f32::INFINITY.to_bits());
    // the smallest number, halved, is zero
    assert_eq!(Scalar::from_bits(1).mul(s(0.5)).to_bits(), 0);
    assert_eq!(Scalar::from_bits(3).mul(s(0.5)).to_bits(), 2);
}

#[test]
fn zeros_keep_their_signs() {
    assert_eq!(s(0.0).add(s(-0.0)).to_bits(), 0);
    assert_eq!(s(-0.0).add(s(-0.0)).to_bits(), 0x8000_0000);
    assert_eq!(s(5.0).sub(s(5.0)).to_bits(), 0);
    assert_eq!(s(-5.0).add(s(5.0)).to_bits(), 0);
    assert_eq!(s(-0.0).sqrt().to_bits(), 0x8000_0000);
    assert_eq!(s(-2.0).mul(s(0.0)).to_bits(), 0x8000_0000);
}

#[test]
fn quotients_of_units_round_to_nearest() {
    // one third, in units of 2^-149
    assert_eq!(round_ratio(1, 3, 149, 0), (1.0f32 / 3.0).to_bits());
    // 2^24 + 1 units lie halfway: the even neighbour wins
    assert_eq!(round_ratio(0x0100_0001, 1, 0, 0), 0x0100_0000);
    assert_eq!(round_ratio(0x0100_0003, 1, 0, 0), 0x0100_0002);
    // half a unit goes to zero, a unit and a half to two
    assert_eq!(round_ratio(1, 2, 0, 0), 0);
    assert_eq!(round_ratio(3, 2, 0, 0), 2);
    assert_eq!(round_ratio(0, 7, 12, 5), 0);
    // beyond the largest finite magnitude lies infinity
    assert_eq!(round_ratio(1, 1, 277, 0), 0x7f80_0000);
    assert_eq!(round_ratio(0x00ff_ffff, 1, 253, 0), 0x7f7f_ffff);
    assert_eq!(round_ratio(1, 1, 4096, 0), 0x7f80_0000);
    assert_eq!(round_ratio(1, 1, 0, 4096), 0);
}

#[test]
fn roots_of_units_round_to_nearest() {
    assert_eq!(whole_root(0), 0);
    assert_eq!(whole_root(1), 1);
    assert_eq!(whole_root(99), 9);
    assert_eq!(whole_root(100), 10);
    assert_eq!(whole_root(0xffff_ffff_ffff), 0x00ff_ffff);
    // the root of 2, in units of 2^-149: 2 = 2^23 * 2^-22, and 2 * 2^149 * 2^149
    assert_eq!(round_root(0x0080_0000, 276), 2.0f32.sqrt().to_bits());
    // the root of 4
    assert_eq!(round_root(0x0080_0000, 277), 2.0f32.to_bits());
}

#[test]
fn doubling_shifts_left() {
    assert_eq!(shift_left(5, 0), 5);
    assert_eq!(shift_left(5, 3), 40);
    assert_eq!(shift_left(1, 63), 1 << 63);
}
