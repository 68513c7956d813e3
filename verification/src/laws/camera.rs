//! What holds of the camera: where its pixels lie, and the basis that it
//! spans.

use vstd::prelude::*;
use vstd::arithmetic::power2::{pow2, lemma_pow2_adds, lemma_pow2_pos, lemma2_to64};
use crate::camera::{pixel_offset, Camera};
use crate::laws::exact::{exact_product, exact_quotient, lemma_from_int_exact};
use crate::laws::nearest::{lemma_code_value, lemma_round_below};
use crate::laws::scalars::{lemma_order_is_by_value, lemma_root_of_equals};
use crate::laws::vectors::{
    exact_cross,
    exact_dot,
    exact_length,
    lemma_exact_cross_value,
    lemma_exact_dot_value,
};
use crate::scalar::{
    lemma_units_increase,
    scalar,
    units_of,
    Scalar,
    HALF_BITS,
    MINUS_HALF_BITS,
    ZERO_BITS,
};

verus! {

/// The place of a pixel within its span lies from -1/2 up to, and not
/// reaching, 1/2.
pub proof fn lemma_pixel_offset_range(i: u16, span: u16)
    requires
        i < span,
    ensures
        scalar(MINUS_HALF_BITS).le_spec(pixel_offset(i, span)),
        pixel_offset(i, span).lt_spec(scalar(HALF_BITS)),
{
    let p = pow2(149);
    let e = pow2(125);
    lemma2_to64();
    lemma_pow2_pos(125);
    lemma_pow2_adds(24, 125);
    lemma_pow2_adds(1, 124);
    assert(p == 0x0100_0000 * e);
    let a = Scalar::from_int_spec(i as nat);
    let b = Scalar::from_int_spec(span as nat);
    lemma_from_int_exact(i as nat);
    lemma_from_int_exact(span as nat);
    assert(b.units() > 0) by (nonlinear_arith)
        requires
            b.units() == span * p,
            span > 0,
            p > 0,
    ;
    assert(units_of(0) == 0) by (nonlinear_arith)
        requires
            units_of(0) == 0 * pow2(0),
    ;
    assert(b.code() != 0);
    // the quotient stays below 1
    let top: nat = 0x3f7f_ffff;
    lemma_code_value(125, 0x00ff_ffff);
    assert(units_of(top) == 0x00ff_ffff * e);
    let q = a.div_spec(b);
    reveal(Scalar::div_spec);
    let n = a.magnitude() * p;
    let d = b.magnitude();
    assert(n <= units_of(top) * d) by (nonlinear_arith)
        requires
            n == (i * p) * p,
            d == span * p,
            units_of(top) == 0x00ff_ffff * e,
            p == 0x0100_0000 * e,
            i < span,
            span <= 0xffff,
            e > 0,
    ;
    lemma_round_below(n, d, top);
    assert(q.code() <= top && !q.negative());
    if q.code() < top {
        lemma_units_increase(top, q.code());
    }
    assert(q.units() <= 0x00ff_ffff * e);
    // taking the half away
    let half = scalar(HALF_BITS);
    lemma_code_value(125, 0x0080_0000);
    assert(half.units() == 0x0080_0000 * e);
    let off = q.sub_spec(half);
    assert(off == pixel_offset(i, span));
    reveal(Scalar::add_spec);
    let s = q.units() - half.units();
    if s > 0 {
        let under: nat = 0x3eff_fffe;
        lemma_code_value(124, 0x00ff_fffe);
        assert(units_of(under) == 0x007f_ffff * e) by (nonlinear_arith)
            requires
                units_of(under) == 0x00ff_fffe * pow2(124),
                e == 2 * pow2(124),
        ;
        assert((s as nat) <= units_of(under) * 1) by (nonlinear_arith)
            requires
                s > 0,
                s == q.units() - 0x0080_0000 * e,
                q.units() <= 0x00ff_ffff * e,
                units_of(under) == 0x007f_ffff * e,
        ;
        lemma_round_below(s as nat, 1, under);
    } else if s < 0 {
        assert(((-s) as nat) <= units_of(0x3f00_0000) * 1) by (nonlinear_arith)
            requires
                s < 0,
                s == q.units() - 0x0080_0000 * e,
                q.units() >= 0,
                units_of(0x3f00_0000) == 0x0080_0000 * e,
        ;
        lemma_round_below((-s) as nat, 1, 0x3f00_0000);
    }
}

/// The width of the camera came out without rounding: the cross product
/// of direction and height, its length, its division by that length, the
/// length of the height and the multiplication by it.
pub open spec fn exact_width(camera: Camera) -> bool {
    let w = camera.direction.cross_spec(camera.height);
    let unit = w.divided(w.length_spec());
    let tall = camera.height.length_spec();
    &&& exact_cross(camera.direction, camera.height)
    &&& exact_length(w)
    &&& exact_quotient(w.x, w.length_spec())
    &&& exact_quotient(w.y, w.length_spec())
    &&& exact_quotient(w.z, w.length_spec())
    &&& exact_length(camera.height)
    &&& exact_product(unit.x, tall)
    &&& exact_product(unit.y, tall)
    &&& exact_product(unit.z, tall)
}

/// What the exact width of a camera is made of, in whole numbers of units:
/// the cross product `w` of direction `d` and height `h`, its length
/// `long`, the unit vector `e` along it, the length `tall` of the height,
/// and the width `v`.
pub proof fn lemma_exact_width_value(camera: Camera)
    requires
        exact_width(camera),
    ensures
        ({
            let p = pow2(149) as int;
            let d = camera.direction;
            let h = camera.height;
            let w = d.cross_spec(h);
            let e = w.divided(w.length_spec());
            let v = camera.width_spec();
            let long = w.length_spec().units();
            let tall = h.length_spec().units();
            &&& w.x.units() * p == d.y.units() * h.z.units() - h.y.units() * d.z.units()
            &&& w.y.units() * p == d.z.units() * h.x.units() - h.z.units() * d.x.units()
            &&& w.z.units() * p == d.x.units() * h.y.units() - h.x.units() * d.y.units()
            &&& long * long == w.x.units() * w.x.units() + w.y.units() * w.y.units() + w.z.units()
                * w.z.units()
            &&& tall * tall == h.dot_spec(h).units() * p
            &&& e.x.units() * long == w.x.units() * p
            &&& e.y.units() * long == w.y.units() * p
            &&& e.z.units() * long == w.z.units() * p
            &&& v.x.units() * p == e.x.units() * tall
            &&& v.y.units() * p == e.y.units() * tall
            &&& v.z.units() * p == e.z.units() * tall
        }),
{
    let d = camera.direction;
    let h = camera.height;
    let w = d.cross_spec(h);
    lemma_exact_cross_value(d, h);
    lemma_exact_dot_value(w, w);
}

/// The cross product of two vectors of whole numbers is at a right angle to
/// both.
proof fn lemma_cross_meets_at_right_angles(d1: int, d2: int, d3: int, h1: int, h2: int, h3: int)
    ensures
        (d2 * h3 - h2 * d3) * d1 + (d3 * h1 - h3 * d1) * d2 + (d1 * h2 - h1 * d2) * d3 == 0,
        (d2 * h3 - h2 * d3) * h1 + (d3 * h1 - h3 * d1) * h2 + (d1 * h2 - h1 * d2) * h3 == 0,
{
    let (x, y, z) = (d1 * d2 * h3, d1 * d3 * h2, d2 * d3 * h1);
    assert((d2 * h3 - h2 * d3) * d1 == x - y) by (nonlinear_arith)
        requires
            x == d1 * d2 * h3,
            y == d1 * d3 * h2,
    ;
    assert((d3 * h1 - h3 * d1) * d2 == z - x) by (nonlinear_arith)
        requires
            z == d2 * d3 * h1,
            x == d1 * d2 * h3,
    ;
    assert((d1 * h2 - h1 * d2) * d3 == y - z) by (nonlinear_arith)
        requires
            y == d1 * d3 * h2,
            z == d2 * d3 * h1,
    ;
    let (r, s, t) = (h1 * h2 * d3, h1 * h3 * d2, h2 * h3 * d1);
    assert((d2 * h3 - h2 * d3) * h1 == s - r) by (nonlinear_arith)
        requires
            s == h1 * h3 * d2,
            r == h1 * h2 * d3,
    ;
    assert((d3 * h1 - h3 * d1) * h2 == r - t) by (nonlinear_arith)
        requires
            r == h1 * h2 * d3,
            t == h2 * h3 * d1,
    ;
    assert((d1 * h2 - h1 * d2) * h3 == t - s) by (nonlinear_arith)
        requires
            t == h2 * h3 * d1,
            s == h1 * h3 * d2,
    ;
}

/// From `v * p == e * tall` and `e * long == w * p`: `v * (p * long) ==
/// tall * (w * p)`.
proof fn lemma_scaled_twice(v: int, p: int, e: int, tall: int, long: int, w: int)
    requires
        v * p == e * tall,
        e * long == w * p,
    ensures
        v * (p * long) == tall * (w * p),
{
    assert(v * (p * long) == (v * p) * long) by (nonlinear_arith);
    assert((e * tall) * long == tall * (e * long)) by (nonlinear_arith);
}

/// A vector `v` with `v * scale == tall * c`, for a vector `c` at a right
/// angle to `x` and a scale that is not zero, is at a right angle to `x`.
proof fn lemma_dot_of_scaled(
    v1: int,
    v2: int,
    v3: int,
    scale: int,
    tall: int,
    c1: int,
    c2: int,
    c3: int,
    x1: int,
    x2: int,
    x3: int,
)
    requires
        v1 * scale == tall * c1,
        v2 * scale == tall * c2,
        v3 * scale == tall * c3,
        c1 * x1 + c2 * x2 + c3 * x3 == 0,
        scale != 0,
    ensures
        v1 * x1 + v2 * x2 + v3 * x3 == 0,
{
    let (a1, a2, a3) = (v1 * x1, v2 * x2, v3 * x3);
    let (b1, b2, b3) = (c1 * x1, c2 * x2, c3 * x3);
    assert(a1 * scale == (v1 * scale) * x1) by (nonlinear_arith)
        requires
            a1 == v1 * x1,
    ;
    assert(a2 * scale == (v2 * scale) * x2) by (nonlinear_arith)
        requires
            a2 == v2 * x2,
    ;
    assert(a3 * scale == (v3 * scale) * x3) by (nonlinear_arith)
        requires
            a3 == v3 * x3,
    ;
    assert((tall * c1) * x1 == tall * b1) by (nonlinear_arith)
        requires
            b1 == c1 * x1,
    ;
    assert((tall * c2) * x2 == tall * b2) by (nonlinear_arith)
        requires
            b2 == c2 * x2,
    ;
    assert((tall * c3) * x3 == tall * b3) by (nonlinear_arith)
        requires
            b3 == c3 * x3,
    ;
    let vx = a1 + a2 + a3;
    assert(vx * scale == a1 * scale + a2 * scale + a3 * scale) by (nonlinear_arith)
        requires
            vx == a1 + a2 + a3,
    ;
    assert(tall * b1 + tall * b2 + tall * b3 == 0) by (nonlinear_arith)
        requires
            b1 + b2 + b3 == 0,
    ;
    assert(vx == 0) by (nonlinear_arith)
        requires
            vx * scale == 0,
            scale != 0,
    ;
}

/// Equal products have equal squares: from `a * b == c * d`,
/// `a^2 * b^2 == c^2 * d^2`.
proof fn lemma_square_of_products(a: int, b: int, c: int, d: int)
    requires
        a * b == c * d,
    ensures
        (a * a) * (b * b) == (c * c) * (d * d),
{
    assert((a * a) * (b * b) == (a * b) * (a * b)) by (nonlinear_arith);
    assert((c * c) * (d * d) == (c * d) * (c * d)) by (nonlinear_arith);
}

/// A vector `w` divided by its length `long` and multiplied by `tall` is of
/// length `tall`; all of it counted in units `p`.
proof fn lemma_rescaled_length(
    p: int,
    long: int,
    tall: int,
    w1: int,
    w2: int,
    w3: int,
    e1: int,
    e2: int,
    e3: int,
    v1: int,
    v2: int,
    v3: int,
)
    requires
        p > 0,
        long != 0,
        long * long == w1 * w1 + w2 * w2 + w3 * w3,
        e1 * long == w1 * p,
        e2 * long == w2 * p,
        e3 * long == w3 * p,
        v1 * p == e1 * tall,
        v2 * p == e2 * tall,
        v3 * p == e3 * tall,
    ensures
        v1 * v1 + v2 * v2 + v3 * v3 == tall * tall,
{
    let (ww1, ww2, ww3) = (w1 * w1, w2 * w2, w3 * w3);
    let (ee1, ee2, ee3) = (e1 * e1, e2 * e2, e3 * e3);
    let (vv1, vv2, vv3) = (v1 * v1, v2 * v2, v3 * v3);
    let pp = p * p;
    let ll = long * long;
    let tt = tall * tall;
    assert(ll > 0) by (nonlinear_arith)
        requires
            ll == long * long,
            long != 0,
    ;
    assert(pp > 0) by (nonlinear_arith)
        requires
            pp == p * p,
            p > 0,
    ;
    lemma_square_of_products(e1, long, w1, p);
    lemma_square_of_products(e2, long, w2, p);
    lemma_square_of_products(e3, long, w3, p);
    assert(ee1 + ee2 + ee3 == pp) by (nonlinear_arith)
        requires
            ee1 * ll == ww1 * pp,
            ee2 * ll == ww2 * pp,
            ee3 * ll == ww3 * pp,
            ll == ww1 + ww2 + ww3,
            ll > 0,
    ;
    lemma_square_of_products(v1, p, e1, tall);
    lemma_square_of_products(v2, p, e2, tall);
    lemma_square_of_products(v3, p, e3, tall);
    assert(vv1 + vv2 + vv3 == tt) by (nonlinear_arith)
        requires
            vv1 * pp == ee1 * tt,
            vv2 * pp == ee2 * tt,
            vv3 * pp == ee3 * tt,
            ee1 + ee2 + ee3 == pp,
            pp > 0,
    ;
}

/// A vector `w` divided by its length `long` and multiplied by `tall` is at
/// a right angle to what `w` is at a right angle to; all of it counted in
/// units `p`.
proof fn lemma_rescaled_angle(
    p: int,
    long: int,
    tall: int,
    w1: int,
    w2: int,
    w3: int,
    e1: int,
    e2: int,
    e3: int,
    v1: int,
    v2: int,
    v3: int,
    x1: int,
    x2: int,
    x3: int,
)
    requires
        p > 0,
        long != 0,
        (w1 * p) * x1 + (w2 * p) * x2 + (w3 * p) * x3 == 0,
        e1 * long == w1 * p,
        e2 * long == w2 * p,
        e3 * long == w3 * p,
        v1 * p == e1 * tall,
        v2 * p == e2 * tall,
        v3 * p == e3 * tall,
    ensures
        v1 * x1 + v2 * x2 + v3 * x3 == 0,
{
    let scale = p * long;
    assert(scale != 0) by (nonlinear_arith)
        requires
            scale == p * long,
            p > 0,
            long != 0,
    ;
    lemma_scaled_twice(v1, p, e1, tall, long, w1);
    lemma_scaled_twice(v2, p, e2, tall, long, w2);
    lemma_scaled_twice(v3, p, e3, tall, long, w3);
    lemma_dot_of_scaled(v1, v2, v3, scale, tall, w1 * p, w2 * p, w3 * p, x1, x2, x3);
}

/// The exact width of a camera, if it is not of length zero, is as long as
/// the height.
proof fn lemma_camera_width_length(camera: Camera)
    requires
        exact_width(camera),
        camera.direction.cross_spec(camera.height).length_spec().code() != 0,
        exact_dot(camera.width_spec(), camera.width_spec()),
    ensures
        camera.width_spec().length_spec().equals(camera.height.length_spec()),
{
    let p = pow2(149) as int;
    lemma_pow2_pos(149);
    let h = camera.height;
    let w = camera.direction.cross_spec(h);
    let unit = w.divided(w.length_spec());
    let v = camera.width_spec();
    let long = w.length_spec().units();
    let tall = h.length_spec().units();
    let uvv = v.dot_spec(v).units();
    let uhh = h.dot_spec(h).units();
    assert(long != 0) by {
        lemma_units_increase(w.length_spec().code(), 0);
        assert(units_of(0) == 0) by (nonlinear_arith)
            requires
                units_of(0) == 0 * pow2(0),
        ;
    }
    assert(uvv * p == tall * tall && tall * tall == uhh * p) by {
        lemma_exact_width_value(camera);
        lemma_rescaled_length(
            p,
            long,
            tall,
            w.x.units(),
            w.y.units(),
            w.z.units(),
            unit.x.units(),
            unit.y.units(),
            unit.z.units(),
            v.x.units(),
            v.y.units(),
            v.z.units(),
        );
        lemma_exact_dot_value(v, v);
    }
    assert(uvv == uhh) by (nonlinear_arith)
        requires
            uvv * p == tall * tall,
            tall * tall == uhh * p,
            p > 0,
    ;
    assert(v.dot_spec(v).finite() && h.dot_spec(h).finite()) by {
        lemma_exact_dot_value(v, v);
    }
    lemma_order_is_by_value(v.dot_spec(v), h.dot_spec(h));
    lemma_root_of_equals(v.dot_spec(v), h.dot_spec(h));
}

/// The exact width of a camera, if it is not of length zero, is at a right
/// angle to the direction, if `along` is false, or to the height, if it is
/// true.
proof fn lemma_camera_width_angle(camera: Camera, along: bool)
    requires
        exact_width(camera),
        camera.direction.cross_spec(camera.height).length_spec().code() != 0,
        exact_dot(
            camera.width_spec(),
            if along {
                camera.height
            } else {
                camera.direction
            },
        ),
    ensures
        camera.width_spec().dot_spec(
            if along {
                camera.height
            } else {
                camera.direction
            },
        ).equals(scalar(ZERO_BITS)),
{
    let p = pow2(149) as int;
    lemma_pow2_pos(149);
    let d = camera.direction;
    let h = camera.height;
    let x = if along {
        h
    } else {
        d
    };
    let w = d.cross_spec(h);
    let unit = w.divided(w.length_spec());
    let v = camera.width_spec();
    let long = w.length_spec().units();
    let tall = h.length_spec().units();
    let (x1, x2, x3) = (x.x.units(), x.y.units(), x.z.units());
    let (v1, v2, v3) = (v.x.units(), v.y.units(), v.z.units());
    let u = v.dot_spec(x).units();
    assert(long != 0) by {
        lemma_units_increase(w.length_spec().code(), 0);
        assert(units_of(0) == 0) by (nonlinear_arith)
            requires
                units_of(0) == 0 * pow2(0),
        ;
    }
    assert(v1 * x1 + v2 * x2 + v3 * x3 == 0) by {
        lemma_exact_width_value(camera);
        lemma_cross_meets_at_right_angles(
            d.x.units(),
            d.y.units(),
            d.z.units(),
            h.x.units(),
            h.y.units(),
            h.z.units(),
        );
        lemma_rescaled_angle(
            p,
            long,
            tall,
            w.x.units(),
            w.y.units(),
            w.z.units(),
            unit.x.units(),
            unit.y.units(),
            unit.z.units(),
            v1,
            v2,
            v3,
            x1,
            x2,
            x3,
        );
    }
    assert(u * p == 0 && v.dot_spec(x).finite()) by {
        lemma_exact_dot_value(v, x);
    }
    assert(u == 0) by (nonlinear_arith)
        requires
            u * p == 0,
            p > 0,
    ;
    assert(scalar(ZERO_BITS).units() == 0) by (nonlinear_arith)
        requires
            scalar(ZERO_BITS).units() == 0 * pow2(0),
    ;
    lemma_order_is_by_value(v.dot_spec(x), scalar(ZERO_BITS));
}

/// The basis of the camera: wherever the width comes out without rounding
/// and is not of length zero, it is as long as the height, and at a right
/// angle to the direction and to the height. Where the arithmetic rounds,
/// the three hold to the last places only.
pub proof fn lemma_camera_basis(camera: Camera)
    requires
        exact_width(camera),
        camera.direction.cross_spec(camera.height).length_spec().code() != 0,
        exact_dot(camera.width_spec(), camera.width_spec()),
        exact_dot(camera.width_spec(), camera.direction),
        exact_dot(camera.width_spec(), camera.height),
    ensures
        camera.width_spec().length_spec().equals(camera.height.length_spec()),
        camera.width_spec().dot_spec(camera.direction).equals(scalar(ZERO_BITS)),
        camera.width_spec().dot_spec(camera.height).equals(scalar(ZERO_BITS)),
{
    lemma_camera_width_length(camera);
    lemma_camera_width_angle(camera, false);
    lemma_camera_width_angle(camera, true);
}

} // verus!
