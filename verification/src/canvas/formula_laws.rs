//! What the numbers of strokes and views are in exact arithmetic: each is close to the real
//! number that the rule in words gives.

use super::geometry::Place;
use super::stamping;
use super::stamping::{Run, Stamp};
use super::stroke;
use super::stroke::{Brush, Stroke};
use super::viewport;
use super::viewport::{ScrollDelta, View2d};
use crate::binary32::error;
use crate::binary32::num::Num;
use crate::binary32::order;
use crate::binary32::rounding;
use crate::binary32::single;
use crate::binary32::single::Single;
use vstd::arithmetic::power2;
use vstd::prelude::*;

verus! {

/// Whether a constant is finite, positive and all but the decimal number given.
pub open spec fn is_about(x: Num, v: real) -> bool {
    &&& x is Finite
    &&& 0 < x.place() < Num::limit_units()
    &&& error::size(error::amount(x) - v) <= 1 as real / 10000000 as real
}

/// The constants as decimal numbers.
pub proof fn law_constants()
    ensures
        is_about(Single::value(stroke::LEAST_FLOW), 1 as real / 100 as real),
        is_about(Single::value(stroke::LEAST_SPACING), 5 as real / 100 as real),
        is_about(Single::value(stroke::PLAIN_SPACING), 20 as real / 100 as real),
        is_about(Single::value(stroke::MOST_SPACING), 75 as real / 100 as real),
        is_about(Single::value(stroke::LEAST_FOLLOW), 20 as real / 100 as real),
        is_about(Single::value(stroke::FOLLOW_GAIN), 25 as real / 100 as real),
        is_about(Single::value(stroke::MOST_FOLLOW_GAIN), 40 as real / 100 as real),
        is_about(Single::value(stroke::MOST_FOLLOW), 60 as real / 100 as real),
        is_about(Single::value(stroke::HALF), 50 as real / 100 as real),
        is_about(Single::value(stamping::LEAST_STEP_SHARE), 15 as real / 100 as real),
        is_about(Single::value(stamping::DIRECTION_GAIN), 20 as real / 100 as real),
        is_about(Single::value(stamping::LEAST_STEP), 25 as real / 100 as real),
        is_about(Single::value(stamping::SPEED_GAIN), 35 as real / 100 as real),
        is_about(Single::value(stamping::LEAST_FLOW), 35 as real / 100 as real),
        is_about(Single::value(stamping::LEAST_AXIS), 45 as real / 100 as real),
        is_about(Single::value(stamping::AXIS_GAIN), 55 as real / 100 as real),
        is_about(Single::value(stamping::MOST_STEP_SHARE), 70 as real / 100 as real),
        is_about(Single::value(stamping::FLOW_GAIN), 80 as real / 100 as real),
        is_about(Single::value(stamping::ONE), 100 as real / 100 as real),
        is_about(Single::value(stamping::SPACING_GAIN), 110 as real / 100 as real),
        is_about(Single::value(stamping::MOST_SPACING), 260 as real / 100 as real),
        is_about(Single::value(stamping::LEAST_SEGMENT), 1 as real / 100 as real),
        is_about(Single::value(stamping::STEP_MARGIN), 1 as real / 1000 as real),
        is_about(Single::value(stamping::LEAST_TREND), 10 as real / 100 as real),
        is_about(Single::value(viewport::ZOOM_MIN), 5 as real / 100 as real),
        is_about(Single::value(viewport::ZOOM_IN), 110 as real / 100 as real),
        is_about(Single::value(viewport::ZOOM_OUT), 90 as real / 100 as real),
        is_about(Single::value(viewport::ZOOM_MAX), 3200 as real / 100 as real),
        is_about(Single::value(viewport::LINE_PIXELS), 3200 as real / 100 as real),
        is_about(Single::value(viewport::LEAST_RING), 200 as real / 100 as real),
        is_about(Single::value(viewport::CROSS_ARM), 400 as real / 100 as real),
        is_about(Single::value(stamping::SMALL_BRUSH), 2400 as real / 100 as real),
        is_about(Single::value(stamping::BRUSH_RANGE), 9600 as real / 100 as real),
        Single::value(stamping::ZERO) == Num::zero(),
        error::amount(Num::zero()) == 0 as real,
        error::amount(Single::value(stamping::ONE)) == 1 as real,
{
    power2::lemma2_to64();
    power2::lemma2_to64_rest();
    assert(single::magnitude(0) == 0);
    error::lemma_amount(Num::zero());
    lemma_about(stroke::LEAST_FLOW, 0xa3d70a, 119, 30, 0x40000000, 1, 100);
    lemma_about(stroke::LEAST_SPACING, 0xcccccd, 121, 28, 0x10000000, 5, 100);
    lemma_about(stroke::PLAIN_SPACING, 0xcccccd, 123, 26, 0x4000000, 20, 100);
    lemma_about(stroke::MOST_SPACING, 0xc00000, 125, 24, 0x1000000, 75, 100);
    lemma_about(stroke::LEAST_FOLLOW, 0xcccccd, 123, 26, 0x4000000, 20, 100);
    lemma_about(stroke::FOLLOW_GAIN, 0x800000, 124, 25, 0x2000000, 25, 100);
    lemma_about(stroke::MOST_FOLLOW_GAIN, 0xcccccd, 124, 25, 0x2000000, 40, 100);
    lemma_about(stroke::MOST_FOLLOW, 0x99999a, 125, 24, 0x1000000, 60, 100);
    lemma_about(stroke::HALF, 0x800000, 125, 24, 0x1000000, 50, 100);
    lemma_about(stamping::LEAST_STEP_SHARE, 0x99999a, 123, 26, 0x4000000, 15, 100);
    lemma_about(stamping::DIRECTION_GAIN, 0xcccccd, 123, 26, 0x4000000, 20, 100);
    lemma_about(stamping::LEAST_STEP, 0x800000, 124, 25, 0x2000000, 25, 100);
    lemma_about(stamping::SPEED_GAIN, 0xb33333, 124, 25, 0x2000000, 35, 100);
    lemma_about(stamping::LEAST_FLOW, 0xb33333, 124, 25, 0x2000000, 35, 100);
    lemma_about(stamping::LEAST_AXIS, 0xe66666, 124, 25, 0x2000000, 45, 100);
    lemma_about(stamping::AXIS_GAIN, 0x8ccccd, 125, 24, 0x1000000, 55, 100);
    lemma_about(stamping::MOST_STEP_SHARE, 0xb33333, 125, 24, 0x1000000, 70, 100);
    lemma_about(stamping::FLOW_GAIN, 0xcccccd, 125, 24, 0x1000000, 80, 100);
    lemma_about(stamping::ONE, 0x800000, 126, 23, 0x800000, 100, 100);
    lemma_about(stamping::SPACING_GAIN, 0x8ccccd, 126, 23, 0x800000, 110, 100);
    lemma_about(stamping::MOST_SPACING, 0xa66666, 127, 22, 0x400000, 260, 100);
    lemma_about(stamping::LEAST_SEGMENT, 0xa3d70a, 119, 30, 0x40000000, 1, 100);
    lemma_about(stamping::STEP_MARGIN, 0x83126f, 116, 33, 0x200000000, 1, 1000);
    lemma_about(stamping::LEAST_TREND, 0xcccccd, 122, 27, 0x8000000, 10, 100);
    lemma_about(viewport::ZOOM_MIN, 0xcccccd, 121, 28, 0x10000000, 5, 100);
    lemma_about(viewport::ZOOM_IN, 0x8ccccd, 126, 23, 0x800000, 110, 100);
    lemma_about(viewport::ZOOM_OUT, 0xe66666, 125, 24, 0x1000000, 90, 100);
    lemma_about(viewport::ZOOM_MAX, 0x800000, 131, 18, 0x40000, 3200, 100);
    lemma_about(viewport::LINE_PIXELS, 0x800000, 131, 18, 0x40000, 3200, 100);
    lemma_about(viewport::LEAST_RING, 0x800000, 127, 22, 0x400000, 200, 100);
    lemma_about(viewport::CROSS_ARM, 0x800000, 128, 21, 0x200000, 400, 100);
    lemma_about(stamping::SMALL_BRUSH, 0xc00000, 130, 19, 0x80000, 2400, 100);
    lemma_about(stamping::BRUSH_RANGE, 0xc00000, 132, 17, 0x20000, 9600, 100);
    rounding::lemma_pow2_split(149, 23, 126);
    error::lemma_whole_value(stamping::ONE, 1, 0x80_0000, 126);
}

/// A constant is all but a decimal number where its fraction is.
proof fn lemma_about(
    bits: u32,
    m: nat,
    e: nat,
    k: nat,
    p: nat,
    num: nat,
    den: nat,
)
    requires
        bits == e * 0x80_0000 + m,
        0x80_0000 <= m < 0x100_0000,
        e + k == 149,
        e < 149,
        power2::pow2(k) == p,
        p > 0,
        den > 0,
        -(p * den) <= 10000000 * (m * den - num * p) <= p * den,
    ensures
        is_about(Single::value(bits), num as real / den as real),
{
    error::lemma_constant(bits, m, e, k, p);
    assert(bits < single::INFINITY_BITS);
    single::lemma_value_order(stamping::ZERO, bits);
    let a = error::amount(Single::value(bits));
    let pr = p as real;
    let dr = den as real;
    let mr = m as real;
    let nr = num as real;
    let q = nr / dr;
    let c = 1 as real / 10000000 as real;
    error::lemma_cast_product(m as int, den as int);
    error::lemma_cast_product(num as int, p as int);
    error::lemma_cast_product(p as int, den as int);
    error::lemma_nonneg(pr, dr);
    assert(q * dr == nr) by (nonlinear_arith)
        requires
            q == nr / dr,
            dr > 0 as real,
    ;
    let h = pr * dr;
    assert(h > 0 as real) by (nonlinear_arith)
        requires
            h == pr * dr,
            pr > 0 as real,
            dr > 0 as real,
    ;
    error::lemma_spread(a, q, h);
    error::lemma_factors(a, pr, dr);
    error::lemma_factors(q, pr, dr);
    assert(c * h == h / 10000000 as real);
    assert((-c) * h == -(h / 10000000 as real));
    error::lemma_cancel(a - q, c, h);
    error::lemma_cancel(-c, a - q, h);
}

/// A finite number of the format times one is the number.
proof fn lemma_times_one(x: Num)
    requires
        x is Finite,
        order::in_format(x),
    ensures
        x.times(Single::value(stamping::ONE)) == x,
{
    law_constants();
    power2::lemma2_to64();
    rounding::lemma_pow2_split(149, 23, 126);
    error::lemma_whole_value(stamping::ONE, 1, 0x80_0000, 126);
    order::lemma_times_one(x);
}

/// The paint of a stamp is the opacity of the brush times the flow of the stamp, kept between
/// a hundredth and one.
#[verifier::rlimit(40)]
pub proof fn law_stamp_flow(stroke: Stroke, stamp: Stamp)
    requires
        stroke.brush_opacity is Finite,
        stroke.brush_opacity.place() >= 0,
        stamp.flow_scale is Finite,
        stamp.flow_scale.place() >= 0,
    ensures
        error::near(
            stroke.flow(stamp),
            error::between(
                error::amount(stroke.brush_opacity) * error::amount(stamp.flow_scale),
                1 as real / 100 as real,
                1 as real,
            ),
            1 as real / 100000 as real,
        ),
{
    law_constants();
    let o = stroke.brush_opacity;
    let f = stamp.flow_scale;
    let v = error::amount(o) * error::amount(f);
    error::lemma_times_any(o, f);
    single::lemma_value_order(stroke::LEAST_FLOW, stamping::ONE);
    error::lemma_clamped_scaled(
        o.times(f),
        Single::value(stroke::LEAST_FLOW),
        Single::value(stamping::ONE),
        v,
        1 as real / 100 as real,
        1 as real,
    );
}

/// A stamp that is laid down in full lays down as much paint as the brush has opacity, exactly,
/// wherever that is between a hundredth and one. The first stamp of a stroke is such a one.
#[verifier::rlimit(40)]
pub proof fn law_full_stamp_flow(stroke: Stroke, stamp: Stamp, at: Place)
    requires
        stamp.flow_scale == Single::value(stamping::ONE),
        stroke.brush_opacity is Finite,
        order::in_format(stroke.brush_opacity),
        Single::value(stroke::LEAST_FLOW).at_most(stroke.brush_opacity),
        stroke.brush_opacity.at_most(Single::value(stamping::ONE)),
    ensures
        stroke.flow(stamp) == stroke.brush_opacity,
        stroke.flow(stroke.seed(at)) == stroke.brush_opacity,
{
    law_constants();
    lemma_times_one(stroke.brush_opacity);
}

/// The more opaque the brush, and the more the stamp is to lay down, the more paint it lays
/// down.
pub proof fn law_flow_grows(less: Stroke, more: Stroke, light: Stamp, heavy: Stamp)
    requires
        less.brush_opacity is Finite,
        more.brush_opacity is Finite,
        0 <= less.brush_opacity.place() <= more.brush_opacity.place(),
        light.flow_scale is Finite,
        heavy.flow_scale is Finite,
        0 <= light.flow_scale.place() <= heavy.flow_scale.place(),
    ensures
        less.flow(light).at_most(more.flow(heavy)),
        Single::value(stroke::LEAST_FLOW).at_most(less.flow(light)),
        more.flow(heavy).at_most(Single::value(stamping::ONE)),
{
    law_constants();
    let a = less.brush_opacity.times(light.flow_scale);
    let b = more.brush_opacity.times(light.flow_scale);
    let c = more.brush_opacity.times(heavy.flow_scale);
    error::lemma_times_any(less.brush_opacity, light.flow_scale);
    error::lemma_times_any(more.brush_opacity, light.flow_scale);
    error::lemma_times_any(more.brush_opacity, heavy.flow_scale);
    order::lemma_times_order(light.flow_scale, less.brush_opacity, more.brush_opacity);
    order::lemma_times_commutes(more.brush_opacity, light.flow_scale);
    order::lemma_times_commutes(more.brush_opacity, heavy.flow_scale);
    order::lemma_times_order(more.brush_opacity, light.flow_scale, heavy.flow_scale);
    single::lemma_value_order(stroke::LEAST_FLOW, stamping::ONE);
    order::lemma_clamped_order(
        a,
        c,
        Single::value(stroke::LEAST_FLOW),
        Single::value(stamping::ONE),
    );
}

/// A stamp is as wide along the motion as the brush, narrowed by the scale of the stamp, and at
/// least a pixel. One that is not narrowed is as wide as the brush, exactly.
pub proof fn law_stamp_width(stroke: Stroke, stamp: Stamp)
    requires
        stroke.brush_size is Finite,
        stroke.brush_size.place() >= 0,
        stamp.axis_scale is Finite,
        stamp.axis_scale.place() >= 0,
        stroke.brush_size.times(stamp.axis_scale) is Finite,
    ensures
        ({
            let exact = error::amount(stroke.brush_size) * error::amount(stamp.axis_scale);
            error::near(
                stroke.axis_size(stamp),
                error::most(exact, 1 as real),
                (1 as real + exact) / 1000000 as real,
            )
        }),
        order::in_format(stroke.brush_size) && stamp.axis_scale == Single::value(stamping::ONE)
            && error::amount(stroke.brush_size) >= 1 as real ==> stroke.axis_size(stamp)
            == stroke.brush_size,
{
    law_constants();
    let one = Single::value(stamping::ONE);
    let x = stroke.brush_size.times(stamp.axis_scale);
    let exact = error::amount(stroke.brush_size) * error::amount(stamp.axis_scale);
    error::lemma_times_any(stroke.brush_size, stamp.axis_scale);
    error::lemma_greater_near(x, one, exact, 1 as real, (1 as real + exact) / 1000000 as real);
    if order::in_format(stroke.brush_size) && stamp.axis_scale == one {
        lemma_times_one(stroke.brush_size);
        error::lemma_order(stroke.brush_size, one);
    }
}

/// The spacing of a brush is the one that it asks for, exactly, where that lies between a
/// twentieth and three quarters of its size, and the nearest of those two otherwise; without
/// one it is a fifth.
pub proof fn law_spacing_is_kept(brush: Brush)
    ensures
        brush.spacing is Some && !((brush.spacing->0)@ is Nan) ==> {
            let asked = brush.spacing->0;
            let spacing = brush.stamp_spacing();
            let least = Single::value(stroke::LEAST_SPACING);
            let most = Single::value(stroke::MOST_SPACING);
            &&& spacing is Finite
            &&& least.at_most(asked@) && asked@.at_most(most) ==> spacing == asked@
            &&& asked@.below(least) ==> error::near(
                spacing,
                5 as real / 100 as real,
                1 as real / 1000000 as real,
            )
            &&& most.below(asked@) ==> error::near(
                spacing,
                75 as real / 100 as real,
                1 as real / 1000000 as real,
            )
        },
        brush.spacing is None ==> error::near(
            brush.stamp_spacing(),
            20 as real / 100 as real,
            1 as real / 1000000 as real,
        ),
{
    law_constants();
    power2::lemma_pow2_pos(277);
    single::lemma_value_order(stroke::LEAST_SPACING, stroke::MOST_SPACING);
}

/// A stroke is drawn with the brush that it was begun with: its size, its opacity, its colour,
/// and on the layer given. Only the eraser erases, and it has no colour.
pub proof fn law_begun_with_the_brush(brush: Brush, at: Place, dir: Place, layer_id: Seq<char>)
    ensures
        ({
            let stroke = brush.begun(at, dir, layer_id);
            &&& stroke.brush_size == brush.size@
            &&& stroke.brush_opacity == brush.opacity@
            &&& stroke.layer_id == layer_id
            &&& stroke.spacing == brush.stamp_spacing()
            &&& stroke.eraser <==> brush.tool is Erase
            &&& !(brush.tool is Erase) ==> stroke.color == brush.foreground@
            &&& brush.tool is Erase ==> stroke.color.len() == 4 && forall|i: int|
                0 <= i < 4 ==> #[trigger] stroke.color[i] == 0
            &&& stroke.tiles.dom() == Set::<(u32, u32)>::empty()
            &&& stroke.last == Some(at)
            &&& stroke.dir == dir
        }),
{
    assert(brush.begun(at, dir, layer_id).tiles.dom() =~= Set::<(u32, u32)>::empty());
}

/// How much of the way to the pointer a stroke goes: a fifth at rest, and a quarter of its
/// speed more, up to three fifths.
#[verifier::rlimit(40)]
pub proof fn law_follow_is(stroke: Stroke)
    requires
        stroke.speed is Finite,
        stroke.speed.place() >= 0,
    ensures
        error::near(
            stroke.follow(),
            error::between(
                (20 as real + 25 as real * error::amount(stroke.speed)) / 100 as real,
                20 as real / 100 as real,
                60 as real / 100 as real,
            ),
            1 as real / 10000 as real,
        ),
{
    law_constants();
    let s = error::amount(stroke.speed);
    let gain = Single::value(stroke::FOLLOW_GAIN);
    let g = error::amount(gain);
    let zero = Single::value(stamping::ZERO);
    let top = Single::value(stroke::MOST_FOLLOW_GAIN);
    let least = Single::value(stroke::LEAST_FOLLOW);
    error::lemma_order(stroke.speed, stroke.speed);
    error::lemma_times_any(stroke.speed, gain);
    lemma_gain_near(s, g, 25 as real / 100 as real);
    assert(s * (25 as real / 100 as real) == 25 as real * s / 100 as real);
    let v = 25 as real * s / 100 as real;
    let x = stroke.speed.times(gain);
    assert(x is Infinite ==> v >= 8 as real);
    single::lemma_value_order(stamping::ZERO, stroke::MOST_FOLLOW_GAIN);
    single::lemma_value_order(stroke::LEAST_FOLLOW, stroke::MOST_FOLLOW);
    error::lemma_clamped_scaled(x, zero, top, v, 0 as real, 40 as real / 100 as real);
    let y = x.clamped(zero, top);
    error::lemma_large();
    error::lemma_plus(least, y);
    error::lemma_clamped_near(
        least.plus(y),
        least,
        Single::value(stroke::MOST_FOLLOW),
        error::between(v, 0 as real, 40 as real / 100 as real) + 20 as real / 100 as real,
        20 as real / 100 as real,
        60 as real / 100 as real,
        1 as real / 10000 as real,
    );
}

/// A product with a constant is close to the product with the decimal number.
proof fn lemma_gain_near(s: real, g: real, w: real)
    requires
        s >= 0 as real,
        error::size(g - w) <= 1 as real / 10000000 as real,
    ensures
        error::size(s * g - s * w) <= s / 10000000 as real,
{
    let d = g - w;
    let c = 1 as real / 10000000 as real;
    error::lemma_nonneg(s, c - d);
    error::lemma_nonneg(s, c + d);
    assert(s * (c - d) == s * c - s * d) by (nonlinear_arith);
    assert(s * (c + d) == s * c + s * d) by (nonlinear_arith);
    assert(s * (1 as real / 10000000 as real) == s / 10000000 as real);
    assert(s * (g - w) == s * g - s * w) by (nonlinear_arith);
}

/// The reciprocals of numbers that are close are close.
proof fn lemma_reciprocal(u: real, w: real)
    requires
        w >= 1 as real,
        error::size(u - w) <= w / 1000000 as real,
    ensures
        u >= 9 as real / 10 as real,
        error::size(1 as real / u - 1 as real / w) <= 1 as real / 500000 as real,
        error::size(1 as real / u) <= 2 as real,
        0 as real <= 1 as real / w <= 1 as real,
{
    let q = 1 as real / u;
    let v = 1 as real / w;
    let d = q - v;
    let e = 1 as real / 500000 as real;
    assert(u >= 9 as real / 10 as real);
    assert(q * u == 1 as real) by (nonlinear_arith)
        requires
            q == 1 as real / u,
            u > 0 as real,
    ;
    assert(v * w == 1 as real) by (nonlinear_arith)
        requires
            v == 1 as real / w,
            w > 0 as real,
    ;
    let h = u * w;
    error::lemma_spread(q, v, h);
    error::lemma_factors(q, u, w);
    error::lemma_factors(v, u, w);
    assert(1 as real * w == w);
    assert(1 as real * u == u);
    assert(d * h == w - u);
    error::lemma_nonneg(u - 9 as real / 10 as real, w);
    assert((u - 9 as real / 10 as real) * w == u * w - 9 as real * w / 10 as real)
        by (nonlinear_arith);
    assert(e * h == h / 500000 as real);
    assert((-e) * h == -(h / 500000 as real));
    error::lemma_cancel(d, e, h);
    error::lemma_cancel(-e, d, h);
    error::lemma_nonneg(w - 1 as real, 1 as real);
    assert(0 as real * w == 0 as real);
    error::lemma_cancel(v, 1 as real, w);
    error::lemma_cancel(0 as real, v, w);
}

/// How much of its paint a stamp lays down: all of it at rest, and at a speed one part of one
/// and eight tenths of the speed, but no less than 0.35.
#[verifier::rlimit(40)]
pub proof fn law_flow_scale_is(speed: Num)
    requires
        speed is Finite,
        speed.place() >= 0,
        error::amount(speed) <= 1000000 as real,
    ensures
        error::near(
            stamping::flow_scale_of(speed),
            error::between(
                1 as real / (1 as real + 80 as real * error::amount(speed) / 100 as real),
                35 as real / 100 as real,
                1 as real,
            ),
            1 as real / 100000 as real,
        ),
{
    reveal(stamping::flow_scale_of);
    law_constants();
    let s = error::amount(speed);
    let gain = Single::value(stamping::FLOW_GAIN);
    let one = Single::value(stamping::ONE);
    let g = error::amount(gain);
    error::lemma_order(speed, speed);
    error::lemma_times_any(speed, gain);
    lemma_gain_near(s, g, 80 as real / 100 as real);
    assert(s * (80 as real / 100 as real) == 80 as real * s / 100 as real);
    error::lemma_large();
    error::lemma_bounded_product(s, g, 1000000 as real, 1 as real);
    error::lemma_times(speed, gain);
    let t = speed.times(gain);
    error::lemma_plus(one, t);
    let u = one.plus(t);
    let w = 1 as real + 80 as real * s / 100 as real;
    lemma_reciprocal(error::amount(u), w);
    error::lemma_over(one, u);
    single::lemma_value_order(stamping::LEAST_FLOW, stamping::ONE);
    error::lemma_clamped_near(
        one.over(u),
        Single::value(stamping::LEAST_FLOW),
        one,
        1 as real / w,
        35 as real / 100 as real,
        1 as real,
        1 as real / 100000 as real,
    );
}

/// How far a brush counts as a large one, in exact arithmetic: from 24 pixels on, and in full
/// from 120 pixels on.
pub open spec fn exact_largeness(size: real) -> real {
    error::between((size - 24 as real) / 96 as real, 0 as real, 1 as real)
}

/// How far a brush counts as a large one.
#[verifier::rlimit(40)]
proof fn lemma_largeness(size: Num)
    requires
        size is Finite,
        error::size(error::amount(size)) <= error::large() / 1000 as real,
    ensures
        ({
            let large = stamping::largeness(size);
            let exact = exact_largeness(error::amount(size));
            &&& large is Finite
            &&& 0 <= large.place()
            &&& error::size(error::amount(large) - exact) <= exact / 4000000 as real + 1 as real
                / 10000000000000 as real
        }),
{
    law_constants();
    power2::lemma2_to64();
    rounding::lemma_pow2_split(149, 19, 130);
    rounding::lemma_pow2_split(149, 17, 132);
    error::lemma_whole_value(stamping::SMALL_BRUSH, 24, 0xc0_0000, 130);
    error::lemma_whole_value(stamping::BRUSH_RANGE, 96, 0xc0_0000, 132);
    let small = Single::value(stamping::SMALL_BRUSH);
    let range = Single::value(stamping::BRUSH_RANGE);
    let zero = Single::value(stamping::ZERO);
    let one = Single::value(stamping::ONE);
    let v = error::amount(size);
    error::lemma_large();
    error::lemma_minus(size, small);
    let a = size.minus(small);
    let x = error::amount(a);
    error::lemma_over(a, range);
    let b = a.over(range);
    let w = (v - 24 as real) / 96 as real;
    assert(error::size(error::amount(b) - w) <= 3 as real * error::size(w) / 16777216 as real
        + 1 as real / 20000000000000 as real);
    single::lemma_value_order(stamping::ZERO, stamping::ONE);
    error::lemma_order(b, zero);
    error::lemma_order(one, b);
    error::lemma_order(zero, one);
    error::lemma_order(b, b);
}

/// How far a stamp is narrowed along the motion: not at all at rest or with a small brush, and
/// otherwise by 0.55 of the speed times how far the brush counts as a large one, but to no less
/// than 0.45.
#[verifier::rlimit(40)]
pub proof fn law_axis_scale_is(size: Num, speed: Num)
    requires
        size is Finite,
        error::size(error::amount(size)) <= error::large() / 1000 as real,
        speed is Finite,
        speed.place() >= 0,
        error::amount(speed) <= 100000 as real,
    ensures
        ({
            let s = error::amount(speed);
            let large = exact_largeness(error::amount(size));
            error::near(
                stamping::axis_scale_of(size, speed),
                error::between(
                    1 as real - 55 as real * (s * large) / 100 as real,
                    45 as real / 100 as real,
                    1 as real,
                ),
                1 as real / 100000 as real,
            )
        }),
{
    reveal(stamping::axis_scale_of);
    law_constants();
    lemma_largeness(size);
    let s = error::amount(speed);
    let large = stamping::largeness(size);
    let l = error::amount(large);
    let exact = exact_largeness(error::amount(size));
    let gain = Single::value(stamping::AXIS_GAIN);
    let one = Single::value(stamping::ONE);
    let g = error::amount(gain);
    error::lemma_large();
    error::lemma_order(speed, speed);
    error::lemma_order(large, large);
    lemma_narrowing(s, l, exact);
    error::lemma_times(speed, large);
    let p = speed.times(large);
    error::lemma_times_any(speed, large);
    assert(p.place() >= 0) by {
        order::lemma_product_of_nonneg(speed, large);
    }
    error::lemma_order(p, p);
    let pr = error::amount(p);
    let sl = s * exact;
    assert(error::size(pr - sl) <= 4 as real * sl / 10000000 as real + 2 as real
        / 100000000 as real);
    lemma_gain_near(pr, g, 55 as real / 100 as real);
    assert(pr * (55 as real / 100 as real) == 55 as real * pr / 100 as real);
    error::lemma_bounded_product(pr, g, 200000 as real, 1 as real);
    error::lemma_times(p, gain);
    let q = p.times(gain);
    error::lemma_minus(one, q);
    let v = 1 as real - 55 as real * sl / 100 as real;
    single::lemma_value_order(stamping::LEAST_AXIS, stamping::ONE);
    error::lemma_clamped_scaled(
        one.minus(q),
        Single::value(stamping::LEAST_AXIS),
        one,
        v,
        45 as real / 100 as real,
        1 as real,
    );
}

/// A speed times how far a brush counts as a large one.
proof fn lemma_narrowing(s: real, l: real, exact: real)
    requires
        0 as real <= s <= 100000 as real,
        0 as real <= exact <= 1 as real,
        l >= 0 as real,
        error::size(l - exact) <= exact / 4000000 as real + 1 as real / 10000000000000 as real,
    ensures
        error::size(s * l - s * exact) <= (s * exact) / 4000000 as real + 1 as real
            / 100000000 as real,
        0 as real <= s * exact <= 100000 as real,
        0 as real <= s * l <= 200000 as real,
{
    let d = l - exact;
    let e = exact / 4000000 as real + 1 as real / 10000000000000 as real;
    error::lemma_nonneg(s, e - d);
    error::lemma_nonneg(s, e + d);
    error::lemma_nonneg(s, exact);
    error::lemma_nonneg(s, l);
    error::lemma_bounded_product(s, exact, 100000 as real, 1 as real);
    error::lemma_bounded_product(s, l, 100000 as real, 2 as real);
    assert(s * (e - d) == s * e - s * d) by (nonlinear_arith);
    assert(s * (e + d) == s * e + s * d) by (nonlinear_arith);
    assert(s * (l - exact) == s * l - s * exact) by (nonlinear_arith);
    assert(s * (exact / 4000000 as real + 1 as real / 10000000000000 as real) == (s * exact)
        / 4000000 as real + s / 10000000000000 as real) by (nonlinear_arith);
}

/// The speed of a stroke goes 0.35 of the way from what it was to that of the segment: its
/// length, in brush diameters where the brush is wider than a pixel.
pub proof fn law_speed_is(speed: Num, size: Num, dist: Num)
    requires
        speed is Finite,
        speed.place() >= 0,
        dist is Finite,
        dist.place() >= 0,
        size is Finite,
        error::amount(speed) + error::amount(dist) <= error::large() / 1000 as real,
    ensures
        ({
            let s = error::amount(speed);
            let m = if error::amount(size) > 1 as real {
                error::amount(dist) / error::amount(size)
            } else {
                error::amount(dist)
            };
            &&& 0 as real <= m <= error::amount(dist)
            &&& error::near(
                stamping::smoothed_speed(speed, size, dist),
                s + 35 as real * (m - s) / 100 as real,
                (1 as real + s + m) / 1000000 as real,
            )
        }),
{
    reveal(stamping::smoothed_speed);
    error::lemma_large();
    let one = Single::value(stamping::ONE);
    let gain = Single::value(stamping::SPEED_GAIN);
    let sample = if one.below(size) {
        dist.over(size)
    } else {
        dist
    };
    error::lemma_order(speed, speed);
    error::lemma_order(dist, dist);
    let m = lemma_sample(size, dist);
    lemma_speed_step(speed, sample, m);
}

/// A speed goes a part of the way to that of a segment.
#[verifier::rlimit(40)]
proof fn lemma_speed_step(speed: Num, sample: Num, m: real)
    requires
        speed is Finite,
        error::amount(speed) >= 0 as real,
        m >= 0 as real,
        error::rounded_from(sample, m),
        error::amount(speed) + m <= error::large() / 1000 as real,
    ensures
        error::near(
            speed.plus(sample.minus(speed).times(Single::value(stamping::SPEED_GAIN))),
            error::amount(speed) + 35 as real * (m - error::amount(speed)) / 100 as real,
            (1 as real + error::amount(speed) + m) / 1000000 as real,
        ),
{
    error::lemma_large();
    lemma_speed_gain();
    let gain = Single::value(stamping::SPEED_GAIN);
    let s = error::amount(speed);
    let g = error::amount(gain);
    let l = error::large();
    error::lemma_minus(sample, speed);
    let way = sample.minus(speed);
    let w = error::amount(way);
    assert(error::size(w) <= l / 100 as real);
    lemma_signed_gain_near(w, g, 35 as real / 100 as real);
    error::lemma_times(way, gain);
    let t = way.times(gain);
    lemma_speed_moved(s, m, error::amount(sample), w, w * g, error::amount(t));
    error::lemma_plus(speed, t);
    lemma_sum_moved(s, error::amount(t), m, error::amount(speed.plus(t)));
}

/// The last step of it.
proof fn lemma_sum_moved(s: real, t: real, m: real, r: real)
    requires
        s >= 0 as real,
        m >= 0 as real,
        error::size(t - 35 as real * (m - s) / 100 as real) <= (1 as real + s + m)
            / 1500000 as real,
        error::size(t) <= s + m + 1 as real,
        error::size(r - (s + t)) <= error::slack(s + t),
    ensures
        error::size(r - (s + 35 as real * (m - s) / 100 as real)) <= (1 as real + s + m)
            / 1000000 as real,
{
}

/// The gain of the speed.
proof fn lemma_speed_gain()
    ensures
        is_about(Single::value(stamping::SPEED_GAIN), 35 as real / 100 as real),
{
    law_constants();
}

/// The speed of a segment.
proof fn lemma_sample(size: Num, dist: Num) -> (m: real)
    requires
        size is Finite,
        dist is Finite,
        dist.place() >= 0,
        error::amount(dist) <= error::large() / 1000 as real,
    ensures
        m == if error::amount(size) > 1 as real {
            error::amount(dist) / error::amount(size)
        } else {
            error::amount(dist)
        },
        0 as real <= m <= error::amount(dist),
        error::rounded_from(
            if Single::value(stamping::ONE).below(size) {
                dist.over(size)
            } else {
                dist
            },
            m,
        ),
{
    law_constants();
    error::lemma_large();
    let d = error::amount(dist);
    let z = error::amount(size);
    error::lemma_order(dist, dist);
    error::lemma_order(Single::value(stamping::ONE), size);
    let m = if z > 1 as real {
        d / z
    } else {
        d
    };
    if z > 1 as real {
        assert(m * z == d) by (nonlinear_arith)
            requires
                m == d / z,
                z > 0 as real,
        ;
        assert(0 as real * z == 0 as real);
        error::lemma_cancel(0 as real, m, z);
        error::lemma_nonneg(m, z - 1 as real);
        assert(m * (z - 1 as real) == m * z - m) by (nonlinear_arith);
        error::lemma_over(dist, size);
    }
    m
}

/// What rounding makes of the change of a speed.
proof fn lemma_speed_moved(s: real, m: real, a: real, w: real, p: real, t: real)
    requires
        s >= 0 as real,
        m >= 0 as real,
        error::size(a - m) <= error::slack(m),
        error::size(w - (a - s)) <= error::slack(a - s),
        error::size(p - w * (35 as real / 100 as real)) <= error::size(w) / 10000000 as real,
        error::size(p) <= 4 as real * error::size(w),
        error::size(t - p) <= error::slack(p),
    ensures
        error::size(t - 35 as real * (m - s) / 100 as real) <= (1 as real + s + m)
            / 1500000 as real,
        error::size(t) <= s + m + 1 as real,
{
    assert(w * (35 as real / 100 as real) == 35 as real * w / 100 as real);
}

/// A product with a constant is close to the product with the decimal number, and no longer
/// than the other factor where the constant is no greater than one.
pub proof fn lemma_signed_gain_near(s: real, g: real, w: real)
    requires
        error::size(g - w) <= 1 as real / 10000000 as real,
        0 as real <= w <= 3 as real,
    ensures
        error::size(s * g - s * w) <= error::size(s) / 10000000 as real,
        error::size(s * g) <= 4 as real * error::size(s),
{
    assert(s * (g - w) == s * g - s * w) by (nonlinear_arith);
    error::lemma_bounded_product(
        s,
        g - w,
        error::size(s),
        1 as real / 10000000 as real,
    );
    error::lemma_bounded_product(s, g, error::size(s), 4 as real);
    let z = error::size(s);
    assert(z * (1 as real / 10000000 as real) == z / 10000000 as real);
    assert(z * 4 as real == 4 as real * z);
}

/// A stroke goes towards the pointer by the part of the way that it follows, in each
/// coordinate, and from where it was last.
pub proof fn law_stroke_goes_towards_pointer(stroke: Stroke, pointer: Place)
    requires
        stroke.speed is Finite,
        stroke.speed.place() >= 0,
        stroke.last is Some,
        (stroke.last->0).x is Finite,
        (stroke.last->0).y is Finite,
        pointer.x is Finite,
        pointer.y is Finite,
        error::size(error::amount((stroke.last->0).x)) + error::size(error::amount(pointer.x))
            <= error::large() / 1000 as real,
        error::size(error::amount((stroke.last->0).y)) + error::size(error::amount(pointer.y))
            <= error::large() / 1000 as real,
    ensures
        ({
            let last = stroke.last->0;
            let f = error::amount(stroke.follow());
            let to = stroke.segment_end(pointer);
            let x = error::amount(last.x);
            let y = error::amount(last.y);
            let px = error::amount(pointer.x);
            let py = error::amount(pointer.y);
            &&& stroke.segment_start(pointer) == last
            &&& stroke.after_pointer(pointer).last == Some(to)
            &&& error::near(
                to.x,
                x + f * (px - x),
                (1 as real + error::size(x) + error::size(px)) / 1000000 as real,
            )
            &&& error::near(
                to.y,
                y + f * (py - y),
                (1 as real + error::size(y) + error::size(py)) / 1000000 as real,
            )
        }),
{
    law_follow_is(stroke);
    let last = stroke.last->0;
    lemma_part_way(last.x, pointer.x, stroke.follow());
    lemma_part_way(last.y, pointer.y, stroke.follow());
}

/// A part of the way from one coordinate to another.
#[verifier::rlimit(40)]
proof fn lemma_part_way(x: Num, y: Num, f: Num)
    requires
        x is Finite,
        y is Finite,
        f is Finite,
        0 as real <= error::amount(f) <= 1 as real,
        error::size(error::amount(x)) + error::size(error::amount(y)) <= error::large()
            / 1000 as real,
    ensures
        ({
            let a = error::amount(x);
            let b = error::amount(y);
            error::near(
                x.plus(y.minus(x).times(f)),
                a + error::amount(f) * (b - a),
                (1 as real + error::size(a) + error::size(b)) / 1000000 as real,
            )
        }),
{
    error::lemma_large();
    let a = error::amount(x);
    let b = error::amount(y);
    let k = error::amount(f);
    error::lemma_minus(y, x);
    let way = y.minus(x);
    let w = error::amount(way);
    assert(error::size(w) <= 2 as real * (error::size(a) + error::size(b)) + 1 as real);
    lemma_part_of(w, k);
    error::lemma_times(way, f);
    let t = error::amount(way.times(f));
    lemma_part_moved(a, b, k, w, t);
    let far = error::size(a) + error::size(b);
    assert(error::size(a + t) <= 3 as real * far + 1 as real);
    error::lemma_plus(x, way.times(f));
    lemma_part_end(a, b, k * (b - a), t, error::amount(x.plus(way.times(f))));
}

/// The last step of going a part of the way.
proof fn lemma_part_end(a: real, b: real, part: real, t: real, r: real)
    requires
        error::size(t - part) <= 3 as real * (error::size(a) + error::size(b)) / 16777216 as real
            + 1 as real / 10000000 as real,
        error::size(t) <= 2 as real * (error::size(a) + error::size(b)) + 1 as real,
        error::size(r - (a + t)) <= error::slack(a + t),
    ensures
        error::size(r - (a + part)) <= (1 as real + error::size(a) + error::size(b))
            / 1000000 as real,
{
}

/// A part of a number is no longer than the number.
proof fn lemma_part_of(w: real, k: real)
    requires
        0 as real <= k <= 1 as real,
    ensures
        error::size(w * k) <= error::size(w),
{
    let z = error::size(w);
    error::lemma_bounded_product(w, k, z, 1 as real);
    assert(z * 1 as real == z);
}

/// What rounding makes of a part of the way from `a` to `b`.
proof fn lemma_part_moved(a: real, b: real, k: real, w: real, t: real)
    requires
        0 as real <= k <= 1 as real,
        error::size(w - (b - a)) <= error::slack(b - a),
        error::size(t - w * k) <= error::slack(w * k),
        error::size(w * k) <= error::size(w),
    ensures
        error::size(t - k * (b - a)) <= 3 as real * (error::size(a) + error::size(b))
            / 16777216 as real + 1 as real / 10000000 as real,
        error::size(t) <= 2 as real * (error::size(a) + error::size(b)) + 1 as real,
{
    let off = w - (b - a);
    lemma_part_of(off, k);
    assert((b - a + off) * k == k * (b - a) + off * k) by (nonlinear_arith);
    assert(w * k == k * (b - a) + off * k);
}

/// How far the distance of two stamps is stretched at a speed, in exact arithmetic.
pub open spec fn exact_stretch(speed: real) -> real {
    error::between(
        1 as real + 110 as real * speed / 100 as real,
        1 as real,
        260 as real / 100 as real,
    )
}

/// The least distance of two stamps, in exact arithmetic: 0.15 of the size of the brush, and no
/// less than a quarter of a pixel.
pub open spec fn exact_least_step(size: real) -> real {
    error::most(15 as real * size / 100 as real, 25 as real / 100 as real)
}

/// The greatest distance of two stamps, in exact arithmetic: 0.70 of the size of the brush, and
/// no less than the least one.
pub open spec fn exact_most_step(size: real) -> real {
    error::most(70 as real * size / 100 as real, exact_least_step(size))
}

/// How far the distance of two stamps is stretched at a speed.
#[verifier::rlimit(40)]
proof fn lemma_stretch(speed: Num)
    requires
        speed is Finite,
        speed.place() >= 0,
    ensures
        ({
            let x = Single::value(stamping::ONE).plus(
                speed.times(Single::value(stamping::SPACING_GAIN)),
            ).clamped(Single::value(stamping::ONE), Single::value(stamping::MOST_SPACING));
            error::near(x, exact_stretch(error::amount(speed)), 1 as real / 100000 as real)
        }),
{
    law_constants();
    let s = error::amount(speed);
    let gain = Single::value(stamping::SPACING_GAIN);
    let one = Single::value(stamping::ONE);
    let g = error::amount(gain);
    error::lemma_order(speed, speed);
    error::lemma_times_any(speed, gain);
    lemma_gain_near(s, g, 110 as real / 100 as real);
    assert(s * (110 as real / 100 as real) == 110 as real * s / 100 as real);
    let t = speed.times(gain);
    let u = one.plus(t);
    let v = 1 as real + 110 as real * s / 100 as real;
    error::lemma_large();
    power2::lemma_pow2_pos(277);
    if t is Finite && (error::size(1 as real + error::amount(t)) <= error::large() || u
        is Finite) {
        error::lemma_plus(one, t);
    } else {
        assert(u is Infinite && u.place() > 0) by {
            reveal(Num::plus);
            if t is Finite {
                error::lemma_order(t, t);
            }
        }
    }
    single::lemma_value_order(stamping::ONE, stamping::MOST_SPACING);
    error::lemma_clamped_scaled(
        u,
        one,
        Single::value(stamping::MOST_SPACING),
        v,
        1 as real,
        260 as real / 100 as real,
    );
}

/// The bounds of the distance of two stamps.
#[verifier::rlimit(40)]
proof fn lemma_step_bounds(size: Num)
    requires
        size is Finite,
        size.place() >= 0,
        error::amount(size) <= error::large() / 1000 as real,
    ensures
        ({
            let z = error::amount(size);
            let e = (1 as real + z) / 1000000 as real;
            &&& error::near(stamping::least_step(size), exact_least_step(z), e)
            &&& error::near(stamping::most_step(size), exact_most_step(z), e)
            &&& stamping::least_step(size).at_most(stamping::most_step(size))
        }),
{
    law_constants();
    let z = error::amount(size);
    let e = (1 as real + z) / 1000000 as real;
    let low = Single::value(stamping::LEAST_STEP_SHARE);
    let high = Single::value(stamping::MOST_STEP_SHARE);
    let least = Single::value(stamping::LEAST_STEP);
    error::lemma_large();
    error::lemma_order(size, size);
    lemma_signed_gain_near(z, error::amount(low), 15 as real / 100 as real);
    lemma_signed_gain_near(z, error::amount(high), 70 as real / 100 as real);
    assert(z * (15 as real / 100 as real) == 15 as real * z / 100 as real);
    assert(z * (70 as real / 100 as real) == 70 as real * z / 100 as real);
    error::lemma_times(size, low);
    error::lemma_times(size, high);
    error::lemma_greater_near(
        size.times(low),
        least,
        15 as real * z / 100 as real,
        25 as real / 100 as real,
        e,
    );
    error::lemma_greater_near(
        size.times(high),
        stamping::least_step(size),
        70 as real * z / 100 as real,
        exact_least_step(z),
        e,
    );
}

/// What rounding makes of the spacing of a brush, stretched.
proof fn lemma_spaced(z: real, p: real, st: real, exact: real, a: real, b: real)
    requires
        z >= 0 as real,
        0 as real <= p <= 1 as real,
        1 as real <= exact <= 3 as real,
        error::size(st - exact) <= 1 as real / 100000 as real,
        error::size(a - z * p) <= error::slack(z * p),
        error::size(b - a * st) <= error::slack(a * st),
    ensures
        error::size(b - (z * p) * exact) <= (1 as real + z) / 50000 as real,
        0 as real <= z * p <= z,
{
    let zp = z * p;
    error::lemma_nonneg(z, p);
    error::lemma_nonneg(z, 1 as real - p);
    assert(z * (1 as real - p) == z - z * p) by (nonlinear_arith);
    let f = a - zp;
    let g = st - exact;
    assert((zp + f) * st == zp * st + f * st) by (nonlinear_arith);
    assert(zp * (exact + g) == zp * exact + zp * g) by (nonlinear_arith);
    let sl = error::slack(zp);
    error::lemma_bounded_product(f, st, sl, 4 as real);
    assert(sl * 4 as real == 4 as real * sl);
    error::lemma_bounded_product(zp, g, zp, 1 as real / 100000 as real);
    assert(zp * (1 as real / 100000 as real) == zp / 100000 as real);
    assert(a * st == zp * exact + zp * g + f * st);
    error::lemma_bounded_product(zp, exact, zp, 3 as real);
    assert(zp * 3 as real == 3 as real * zp);
}

/// The distance of two stamps: the size of the brush times its spacing, stretched by one and
/// 1.10 of the speed up to 2.6, and kept between 0.15 and 0.70 of the size of the brush.
#[verifier::rlimit(40)]
pub proof fn law_step_is(size: Num, spacing: Num, speed: Num)
    requires
        size is Finite,
        size.place() >= 0,
        error::amount(size) <= error::large() / 1000 as real,
        spacing is Finite,
        0 as real <= error::amount(spacing) <= 1 as real,
        speed is Finite,
        speed.place() >= 0,
    ensures
        ({
            let z = error::amount(size);
            error::near(
                stamping::step_of(size, spacing, speed),
                error::between(
                    (z * error::amount(spacing)) * exact_stretch(error::amount(speed)),
                    exact_least_step(z),
                    exact_most_step(z),
                ),
                (1 as real + z) / 50000 as real,
            )
        }),
{
    reveal(stamping::step_of);
    let stretch = Single::value(stamping::ONE).plus(
        speed.times(Single::value(stamping::SPACING_GAIN)),
    ).clamped(Single::value(stamping::ONE), Single::value(stamping::MOST_SPACING));
    let z = error::amount(size);
    let p = error::amount(spacing);
    let st = error::amount(stretch);
    let exact = exact_stretch(error::amount(speed));
    error::lemma_large();
    error::lemma_order(size, size);
    error::lemma_order(speed, speed);
    lemma_stretch(speed);
    lemma_step_bounds(size);
    lemma_part_of(z, p);
    error::lemma_times(size, spacing);
    let wide = size.times(spacing);
    let a = error::amount(wide);
    error::lemma_bounded_product(a, st, error::size(a), 4 as real);
    let sa = error::size(a);
    assert(sa * 4 as real == 4 as real * sa);
    error::lemma_times(wide, stretch);
    let b = error::amount(wide.times(stretch));
    lemma_spaced(z, p, st, exact, a, b);
    error::lemma_clamped_near(
        wide.times(stretch),
        stamping::least_step(size),
        stamping::most_step(size),
        (z * p) * exact,
        exact_least_step(z),
        exact_most_step(z),
        (1 as real + z) / 50000 as real,
    );
}

/// The zoom after a turn of the wheel: 1.1 times what it was where the wheel was turned away
/// from the user, and 0.9 times otherwise, kept between 0.05 and 32.
pub proof fn law_zoom_step(view: View2d, turn: Num)
    requires
        Single::value(viewport::ZOOM_MIN).at_most(view.zoom),
        view.zoom.at_most(Single::value(viewport::ZOOM_MAX)),
    ensures
        ({
            let z = error::amount(view.zoom);
            let factor = if turn.place() < 0 {
                110 as real / 100 as real
            } else {
                90 as real / 100 as real
            };
            error::near(
                view.zoom_after(turn),
                error::between(z * factor, 5 as real / 100 as real, 32 as real),
                1 as real / 10000 as real,
            )
        }),
{
    law_constants();
    single::lemma_value_order(viewport::ZOOM_MIN, viewport::ZOOM_MAX);
    assert(view.zoom is Finite);
    error::lemma_order(view.zoom, Single::value(viewport::ZOOM_MAX));
    error::lemma_order(Single::value(viewport::ZOOM_MIN), view.zoom);
    let z = error::amount(view.zoom);
    let (bits, w): (u32, real) = if turn.place() < 0 {
        (viewport::ZOOM_IN, 110 as real / 100 as real)
    } else {
        (viewport::ZOOM_OUT, 90 as real / 100 as real)
    };
    let factor = Single::value(bits);
    lemma_signed_gain_near(z, error::amount(factor), w);
    error::lemma_large();
    error::lemma_times(view.zoom, factor);
    error::lemma_clamped_near(
        view.zoom.times(factor),
        Single::value(viewport::ZOOM_MIN),
        Single::value(viewport::ZOOM_MAX),
        z * w,
        5 as real / 100 as real,
        32 as real,
        1 as real / 10000 as real,
    );
}

/// A wheel that is turned by lines turns the same way as one that is turned by pixels, by 32
/// pixels for each line.
pub proof fn law_lines_turn_as_pixels(y: Single)
    requires
        y@ is Finite,
    ensures
        (ScrollDelta::Pixels(y)).turn() == y@,
        !((ScrollDelta::Lines(y)).turn() is Nan),
        (ScrollDelta::Lines(y)).turn().place() < 0 <==> y@.place() < 0,
        error::size(error::amount(y@)) <= error::large() / 1000 as real ==> error::rounded_from(
            (ScrollDelta::Lines(y)).turn(),
            error::amount(y@) * 32 as real,
        ),
{
    law_constants();
    let line = Single::value(viewport::LINE_PIXELS);
    power2::lemma2_to64();
    rounding::lemma_pow2_split(154, 23, 131);
    rounding::lemma_pow2_split(154, 5, 149);
    error::lemma_whole_value(viewport::LINE_PIXELS, 32, 0x80_0000, 131);
    power2::lemma_pow2_pos(277);
    power2::lemma_pow2_pos(149);
    error::lemma_large();
    let a = error::amount(y@);
    if error::size(a) <= error::large() / 1000 as real {
        assert(error::size(a * 32 as real) <= error::large());
        error::lemma_times(y@, line);
    }
    reveal(Num::times);
    order::lemma_single_in_format(y);
    order::lemma_times_more(y@, line);
}

/// What is carried into a segment: all of it, but no more than a thousandth of a pixel less
/// than the step.
pub proof fn law_carried_is(carry: Num, step: Num)
    requires
        carry is Finite,
        carry.place() >= 0,
        step is Finite,
        step.place() >= 0,
        error::amount(step) <= error::large() / 1000 as real,
    ensures
        ({
            let c = error::amount(carry);
            let top = error::most(error::amount(step) - 1 as real / 1000 as real, 0 as real);
            error::near(
                stamping::carried(carry, step),
                if c < top {
                    c
                } else {
                    top
                },
                (1 as real + error::amount(step)) / 1000000 as real,
            )
        }),
{
    reveal(stamping::carried);
    law_constants();
    error::lemma_large();
    let margin = Single::value(stamping::STEP_MARGIN);
    let zero = Single::value(stamping::ZERO);
    let s = error::amount(step);
    let e = (1 as real + s) / 1000000 as real;
    error::lemma_order(step, step);
    error::lemma_order(carry, carry);
    error::lemma_minus(step, margin);
    let less = step.minus(margin);
    error::lemma_greater_near(less, zero, s - 1 as real / 1000 as real, 0 as real, e);
    error::lemma_order(less.greater(zero), carry);
}

/// A segment owes a stamp as long as the next one would not stand beyond its end.
pub proof fn law_stamps_end_with_the_segment(run: Run)
    requires
        run.offset is Finite,
        run.dist is Finite,
    ensures
        run.owes() <==> error::amount(run.offset) <= error::amount(run.dist),
        run.after_stamp().dist == run.dist,
        run.after_stamp().step == run.step,
        run.step is Finite && run.after_stamp().offset is Finite ==> error::rounded_from(
            run.after_stamp().offset,
            error::amount(run.offset) + error::amount(run.step),
        ),
{
    error::lemma_order(run.offset, run.dist);
    if run.step is Finite && run.after_stamp().offset is Finite {
        error::lemma_plus(run.offset, run.step);
    }
}

/// A brush without opacity still lays down a hundredth.
pub proof fn law_least_flow(stroke: Stroke, stamp: Stamp)
    requires
        stroke.brush_opacity is Finite,
        stroke.brush_opacity.place() <= 0,
        stamp.flow_scale is Finite,
        stamp.flow_scale.place() >= 0,
    ensures
        error::near(
            stroke.flow(stamp),
            1 as real / 100 as real,
            1 as real / 1000000 as real,
        ),
{
    law_constants();
    power2::lemma_pow2_pos(149);
    power2::lemma_pow2_pos(277);
    order::lemma_round_zero(Num::one_units());
    let o = stroke.brush_opacity;
    let f = stamp.flow_scale;
    let x = o.times(f);
    order::lemma_product_of_nonneg_and_not(f, o);
    order::lemma_times_commutes(f, o);
    single::lemma_value_order(stroke::LEAST_FLOW, stamping::ONE);
}

} // verus!
