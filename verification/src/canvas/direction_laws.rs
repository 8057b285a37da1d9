//! The direction of a stroke: it is a unit vector, but for rounding, and it turns no further
//! than the recent positions ask for.

use super::formula_laws;
use super::geometry::Place;
use super::stamping;
use super::stroke;
use super::stroke::Stroke;
use super::view_laws;
use super::viewport::View2d;
use crate::binary32::error;
use crate::binary32::num::Num;
use crate::binary32::rounding;
use crate::binary32::single;
use crate::binary32::single::Single;
use vstd::arithmetic::power2;
use vstd::prelude::*;

verus! {

/// The exact square of the length of a way.
pub open spec fn square_length(way: Place) -> real {
    let x = error::amount(way.x);
    let y = error::amount(way.y);
    x * x + y * y
}

/// Whether a way is finite and far from the limit of the format.
pub open spec fn is_moderate(way: Place) -> bool {
    &&& way.x is Finite
    &&& way.y is Finite
    &&& square_length(way) <= error::large() / 1000 as real
}

/// Whether a way is of unit length, but for rounding.
pub open spec fn is_unit(way: Place) -> bool {
    &&& way.x is Finite
    &&& way.y is Finite
    &&& error::size(square_length(way) - 1 as real) <= 1 as real / 65536 as real
}

/// A square is not negative.
proof fn lemma_square(v: real)
    ensures
        v * v >= 0 as real,
{
    assert(v * v >= 0 as real) by (nonlinear_arith);
}

/// A number is not much greater than its square.
proof fn lemma_below_square(v: real)
    ensures
        v <= v * v + 1 as real,
{
    let h = 1 as real / 2 as real;
    lemma_square(v - h);
    assert((v - h) * (v - h) == v * v - 2 as real * (v * h) + h * h) by (nonlinear_arith);
    assert(v * h == v / 2 as real);
}

/// The square of a value that was rounded.
proof fn lemma_rounded_square(l: real, v: real)
    requires
        v >= 0 as real,
        error::size(l - v) <= error::slack(v),
    ensures
        error::size(l * l - v * v) <= 4 as real * (v * v) / 16777216 as real + 4 as real
            / 281474976710656 as real,
{
    let g = l - v;
    let c = 1 as real / 281474976710656 as real;
    let e = v / 16777216 as real + c;
    assert(error::slack(v) == e);
    assert((v + g) * (v + g) == v * v + 2 as real * (v * g) + g * g) by (nonlinear_arith);
    assert(l * l == v * v + 2 as real * (v * g) + g * g);
    error::lemma_nonneg(v, e - g);
    error::lemma_nonneg(v, e + g);
    assert(v * (e - g) == v * e - v * g) by (nonlinear_arith);
    assert(v * (e + g) == v * e + v * g) by (nonlinear_arith);
    assert(v * (v / 16777216 as real + c) == (v * v) / 16777216 as real + v * c)
        by (nonlinear_arith);
    assert(v * c == v / 281474976710656 as real);
    error::lemma_nonneg(e - g, e + g);
    assert((e - g) * (e + g) == e * e - g * g) by (nonlinear_arith);
    lemma_square(g);
    let f = v / 16777216 as real;
    assert((f + c) * (f + c) == f * f + 2 as real * (f * c) + c * c) by (nonlinear_arith);
    assert((v / 16777216 as real) * (v / 16777216 as real) == (v * v) / 281474976710656 as real)
        by (nonlinear_arith);
    assert(f * c == f / 281474976710656 as real);
    assert(c * c == c / 281474976710656 as real);
    lemma_below_square(v);
    lemma_square(v);
}

/// The square of a value, as the format has it.
proof fn lemma_times_itself(x: Num)
    requires
        x is Finite,
        error::amount(x) * error::amount(x) <= error::large() || x.times(x) is Finite,
    ensures
        error::rounded_from(x.times(x), error::amount(x) * error::amount(x)),
        x.times(x).place() >= 0,
{
    lemma_square(error::amount(x));
    error::lemma_times(x, x);
    reveal(Num::times);
}

/// The square of the length of a way is close to the exact one.
pub proof fn lemma_length(way: Place)
    requires
        is_moderate(way) || way.length() is Finite,
    ensures
        way.x is Finite,
        way.y is Finite,
        way.length() is Finite,
        way.length().place() >= 0,
        ({
            let l = error::amount(way.length());
            let n = square_length(way);
            error::size(l * l - n) <= 10 as real * n / 16777216 as real + 16 as real
                / 281474976710656 as real
        }),
{
    if way.length() is Finite {
        reveal(Num::square_root);
        reveal(Num::plus);
        reveal(Num::times);
    }
    let x = error::amount(way.x);
    let y = error::amount(way.y);
    lemma_square(x);
    lemma_square(y);
    error::lemma_large();
    lemma_times_itself(way.x);
    lemma_times_itself(way.y);
    let xx = way.x.times(way.x);
    let yy = way.y.times(way.y);
    error::lemma_plus(xx, yy);
    let sum = xx.plus(yy);
    assert(sum.place() >= 0) by {
        reveal(Num::plus);
    }
    let s = error::amount(sum);
    let n = square_length(way);
    assert(error::size(s - n) <= 3 as real * n / 16777216 as real + 4 as real
        / 281474976710656 as real);
    let v = error::lemma_square_root(sum);
    let l = error::amount(way.length());
    lemma_rounded_square(l, v);
    lemma_below_square(v);
    lemma_square(v);
    assert(way.length().place() >= 0) by {
        reveal(Num::square_root);
        power2::lemma_pow2_pos(277);
    }
}

/// The square of a quotient that was rounded.
proof fn lemma_shrunk_square(x: Num, d: Num)
    requires
        x is Finite,
        d is Finite,
        error::amount(d) > 0 as real,
        error::size(error::amount(x) / error::amount(d)) <= 2 as real,
    ensures
        x.over(d) is Finite,
        ({
            let a = error::amount(x) / error::amount(d);
            let b = error::amount(x.over(d));
            error::size(b * b - a * a) <= 20 as real / 16777216 as real
        }),
{
    let a = error::amount(x) / error::amount(d);
    error::lemma_large();
    error::lemma_over(x, d);
    let b = error::amount(x.over(d));
    let g = b - a;
    let e = 3 as real / 16777216 as real;
    assert((a + g) * (a + g) == a * a + 2 as real * (a * g) + g * g) by (nonlinear_arith);
    assert(b * b == a * a + 2 as real * (a * g) + g * g);
    error::lemma_bounded_product(a, g, 2 as real, e);
    error::lemma_bounded_product(g, g, 1 as real, e);
}

/// A number with a small square is small.
proof fn lemma_root_size(a: real)
    requires
        a * a <= 2 as real,
    ensures
        error::size(a) <= 2 as real,
{
    if error::size(a) > 2 as real {
        let b = error::size(a);
        error::lemma_nonneg(b - 2 as real, b);
        assert((b - 2 as real) * b == b * b - 2 as real * b) by (nonlinear_arith);
        assert((-a) * (-a) == a * a) by (nonlinear_arith);
        assert(false);
    }
}

/// The square of a length that is not too short.
proof fn lemma_least_square(l: real)
    requires
        l >= 1 as real / 10001 as real,
    ensures
        l * l >= 1 as real / 100020001 as real,
{
    let c = 1 as real / 10001 as real;
    error::lemma_nonneg(l - c, l);
    assert((l - c) * l == l * l - c * l) by (nonlinear_arith);
    assert(c * l == l / 10001 as real);
}

/// A way divided by its length is of unit length, as far as exact arithmetic goes from
/// the length that the format has.
proof fn lemma_exact_unit(x: real, y: real, l: real)
    requires
        l >= 1 as real / 10001 as real,
        ({
            let n = x * x + y * y;
            error::size(l * l - n) <= 10 as real * n / 16777216 as real + 16 as real
                / 281474976710656 as real
        }),
    ensures
        ({
            let a = x / l;
            let b = y / l;
            &&& error::size(a * a + b * b - 1 as real) <= 120 as real / 16777216 as real
            &&& error::size(a) <= 2 as real
            &&& error::size(b) <= 2 as real
        }),
{
    let a = x / l;
    let b = y / l;
    assert(a * l == x) by (nonlinear_arith)
        requires
            a == x / l,
            l > 0 as real,
    ;
    assert(b * l == y) by (nonlinear_arith)
        requires
            b == y / l,
            l > 0 as real,
    ;
    assert((a * l) * (a * l) == (a * a) * (l * l)) by (nonlinear_arith);
    assert((b * l) * (b * l) == (b * b) * (l * l)) by (nonlinear_arith);
    let m = a * a + b * b;
    let ll = l * l;
    let n = x * x + y * y;
    assert((a * a + b * b) * ll == (a * a) * ll + (b * b) * ll) by (nonlinear_arith);
    assert(m * ll == n);
    lemma_least_square(l);
    lemma_square(a);
    lemma_square(b);
    let e = 10 as real * m / 16777216 as real + 100 as real / 16777216 as real;
    assert((10 as real * m / 16777216 as real + 100 as real / 16777216 as real) * ll == 10 as real
        * (m * ll) / 16777216 as real + 100 as real * ll / 16777216 as real) by (nonlinear_arith);
    assert((m - 1 as real) * ll == m * ll - ll) by (nonlinear_arith);
    assert((-e) * ll == -(e * ll)) by (nonlinear_arith);
    error::lemma_cancel(m - 1 as real, e, ll);
    error::lemma_cancel(-e, m - 1 as real, ll);
    lemma_root_size(a);
    lemma_root_size(b);
}

/// A way that is not too short, divided by its length, is of unit length.
pub proof fn lemma_shrunk_unit(way: Place)
    requires
        way.length() is Finite,
        error::amount(way.length()) >= 1 as real / 10001 as real,
    ensures
        is_unit(way.shrunk(way.length())),
{
    lemma_length(way);
    let l = error::amount(way.length());
    lemma_exact_unit(error::amount(way.x), error::amount(way.y), l);
    lemma_shrunk_square(way.x, way.length());
    lemma_shrunk_square(way.y, way.length());
}

/// The least lengths that a direction is taken from.
pub proof fn lemma_least_lengths()
    ensures
        Single::value(stamping::LEAST_DIRECTION) is Finite,
        error::amount(Single::value(stamping::LEAST_DIRECTION)) >= 1 as real / 10001 as real,
        Single::value(stamping::LEAST_DIRECTION).place() <= Single::value(
            stamping::LEAST_SEGMENT,
        ).place(),
        Single::value(stamping::LEAST_SEGMENT).place() <= Single::value(
            stamping::LEAST_TREND,
        ).place(),
        Single::value(stamping::LEAST_TREND).place() < Num::limit_units(),
{
    single::lemma_value_order(stamping::LEAST_DIRECTION, stamping::LEAST_SEGMENT);
    single::lemma_value_order(stamping::LEAST_SEGMENT, stamping::LEAST_TREND);
    rounding::lemma_pow2_split(149, 37, 112);
    rounding::lemma_pow2_split(37, 32, 5);
    power2::lemma2_to64();
    let least = Single::value(stamping::LEAST_DIRECTION);
    let p = power2::pow2(112);
    assert(stamping::LEAST_DIRECTION as nat / 0x80_0000 == 113);
    assert(stamping::LEAST_DIRECTION as nat % 0x80_0000 == 0x51b717);
    assert(least->units == 0xd1b717 * p);
    assert(Num::one_units() <= 10001 * least->units) by (nonlinear_arith)
        requires
            Num::one_units() == (0x1_0000_0000 * 32) * p,
            least->units == 0xd1b717 * p,
            p > 0,
    ;
    error::lemma_amount(least);
    let a = error::amount(least);
    let o = Num::one_units() as real;
    assert((10001 as real * a) * o == 10001 as real * (a * o)) by (nonlinear_arith);
    error::lemma_cancel(1 as real, 10001 as real * a, o);
}

/// A length that is not below one of the least lengths is not too short.
pub proof fn lemma_long_enough(length: Num)
    requires
        length is Finite,
        Single::value(stamping::LEAST_DIRECTION).place() <= length.place(),
    ensures
        error::amount(length) >= 1 as real / 10001 as real,
{
    lemma_least_lengths();
    let least = Single::value(stamping::LEAST_DIRECTION);
    error::lemma_amount(least);
    error::lemma_amount(length);
    error::lemma_cancel(
        error::amount(least),
        error::amount(length),
        Num::one_units() as real,
    );
}

/// The heading of a segment is a unit vector, but for rounding.
pub proof fn law_heading_is_unit(from: Place, to: Place)
    requires
        stroke::segment_length(from, to) is Finite,
        !stroke::is_negligible(from, to),
    ensures
        is_unit(stroke::segment_heading(from, to)),
{
    lemma_least_lengths();
    lemma_length(from.to(to));
    lemma_long_enough(stroke::segment_length(from, to));
    lemma_shrunk_unit(from.to(to));
}

/// The gain that a direction is drawn on by.
proof fn lemma_gain()
    ensures
        Single::value(stamping::DIRECTION_GAIN) is Finite,
        0 as real <= error::amount(Single::value(stamping::DIRECTION_GAIN)) <= 1 as real
            / 4 as real,
        Single::value(stamping::LEAST_STEP) is Finite,
        error::amount(Single::value(stamping::LEAST_STEP)) == 1 as real / 4 as real,
        Single::value(stamping::LEAST_DIRECTION).below(Single::value(stamping::LEAST_STEP)),
{
    let gain = Single::value(stamping::DIRECTION_GAIN);
    let quarter = Single::value(stamping::LEAST_STEP);
    single::lemma_value_order(stamping::DIRECTION_GAIN, stamping::LEAST_STEP);
    single::lemma_value_order(stamping::LEAST_DIRECTION, stamping::LEAST_STEP);
    power2::lemma2_to64();
    rounding::lemma_pow2_split(147, 23, 124);
    rounding::lemma_pow2_split(149, 2, 147);
    assert(stamping::LEAST_STEP as nat / 0x80_0000 == 125);
    assert(stamping::LEAST_STEP as nat % 0x80_0000 == 0);
    assert(quarter->units == power2::pow2(147));
    error::lemma_amount(gain);
    error::lemma_amount(quarter);
    let k = error::amount(gain);
    let q = error::amount(quarter);
    let o = Num::one_units() as real;
    assert((4 as real * q) * o == 4 as real * (q * o)) by (nonlinear_arith);
    error::lemma_cancel(4 as real * q, 1 as real, o);
    error::lemma_cancel(1 as real, 4 as real * q, o);
    error::lemma_cancel(k, q, o);
    assert(0 as real * o == 0 as real);
    error::lemma_cancel(0 as real, k, o);
}

/// A part of the way from one small number to another is a small number, and goes no more
/// than a quarter of the way against the first.
pub proof fn lemma_small_step(d: Num, t: Num)
    requires
        d is Finite,
        t is Finite,
        error::size(error::amount(d)) <= 2 as real,
        error::size(error::amount(t)) <= 2 as real,
    ensures
        ({
            let r = d.plus(t.minus(d).times(Single::value(stamping::DIRECTION_GAIN)));
            let a = error::amount(r);
            let x = error::amount(d);
            let y = error::amount(t);
            &&& r is Finite
            &&& error::size(a) <= 9 as real
            &&& a * a >= 3 as real * (x * x) / 8 as real - y * y / 8 as real - 1 as real
                / 1000 as real
        }),
{
    error::lemma_large();
    lemma_gain();
    let gain = Single::value(stamping::DIRECTION_GAIN);
    let k = error::amount(gain);
    let x = error::amount(d);
    let y = error::amount(t);
    error::lemma_minus(t, d);
    let way = t.minus(d);
    let w = error::amount(way);
    assert(error::size(w) <= 5 as real);
    error::lemma_bounded_product(w, k, 5 as real, 1 as real);
    error::lemma_times(way, gain);
    let g = error::amount(way.times(gain));
    assert(error::size(g) <= 6 as real);
    error::lemma_plus(d, way.times(gain));
    let a = error::amount(d.plus(way.times(gain)));
    lemma_step_square(x, y, k, a, w, g);
}

/// The square of the number that a small step leads to.
proof fn lemma_step_square(x: real, y: real, k: real, a: real, w: real, g: real)
    requires
        error::size(x) <= 2 as real,
        error::size(y) <= 2 as real,
        error::size(w) <= 5 as real,
        error::size(g) <= 6 as real,
        0 as real <= k <= 1 as real / 4 as real,
        error::size(w - (y - x)) <= error::slack(y - x),
        error::size(g - w * k) <= error::slack(w * k),
        error::size(a - (x + g)) <= error::slack(x + g),
        error::size(w * k) <= 5 as real,
    ensures
        a * a >= 3 as real * (x * x) / 8 as real - y * y / 8 as real - 1 as real / 1000 as real,
{
    let e = 1 as real / 100000 as real;
    // Away from the exact step by no more than e.
    let f = w - (y - x);
    error::lemma_bounded_product(f, k, e / 10 as real, 1 as real);
    assert((y - x + f) * k == k * (y - x) + f * k) by (nonlinear_arith);
    let off = a - (x + k * (y - x));
    assert(w * k == k * (y - x) + f * k);
    assert(error::size(off) <= e);
    // The square is at least the product with the first number, less a quarter of its square.
    let h = x / 2 as real;
    lemma_square(a - h);
    assert((a - h) * (a - h) == a * a - 2 as real * (a * h) + h * h) by (nonlinear_arith);
    assert(2 as real * (a * (x / 2 as real)) == a * x) by (nonlinear_arith);
    assert((x / 2 as real) * (x / 2 as real) == x * x / 4 as real) by (nonlinear_arith);
    // The product with the first number.
    let v = k * (y - x);
    assert((x + v + off) * x == x * x + v * x + off * x) by (nonlinear_arith);
    assert(a == x + v + off);
    error::lemma_bounded_product(off, x, e, 2 as real);
    let p = y * y / 2 as real + 3 as real * (x * x) / 2 as real;
    let m = (y - x) * x;
    lemma_square(x + y);
    lemma_square(x);
    lemma_square(y);
    assert((x + y) * (x + y) == x * x + 2 as real * (x * y) + y * y) by (nonlinear_arith);
    assert((y - x) * x == x * y - x * x) by (nonlinear_arith);
    assert(m + p >= 0 as real);
    error::lemma_nonneg(k, m + p);
    error::lemma_nonneg(1 as real / 4 as real - k, p);
    assert(k * (m + p) == k * m + k * p) by (nonlinear_arith);
    assert((1 as real / 4 as real - k) * p == p / 4 as real - k * p) by (nonlinear_arith);
    assert((k * (y - x)) * x == k * ((y - x) * x)) by (nonlinear_arith);
}

/// The parts of a unit vector are small.
pub proof fn lemma_unit_parts(way: Place)
    requires
        is_unit(way),
    ensures
        error::size(error::amount(way.x)) <= 2 as real,
        error::size(error::amount(way.y)) <= 2 as real,
        is_moderate(way),
{
    error::lemma_large();
    lemma_square(error::amount(way.x));
    lemma_square(error::amount(way.y));
    lemma_root_size(error::amount(way.x));
    lemma_root_size(error::amount(way.y));
}

/// A trend divided by its length is a unit vector, or nothing where its length is beyond
/// the format.
proof fn lemma_trend(trend: Place)
    requires
        trend.x is Finite,
        trend.y is Finite,
        Single::value(stamping::LEAST_TREND).below(trend.length()),
    ensures
        ({
            let t = trend.shrunk(trend.length());
            &&& t.x is Finite
            &&& t.y is Finite
            &&& error::size(error::amount(t.x)) <= 2 as real
            &&& error::size(error::amount(t.y)) <= 2 as real
            &&& square_length(t) <= 101 as real / 100 as real
        }),
{
    let t = trend.shrunk(trend.length());
    lemma_least_lengths();
    if trend.length() is Finite {
        lemma_long_enough(trend.length());
        lemma_shrunk_unit(trend);
        lemma_unit_parts(t);
    } else {
        reveal(Num::over);
        error::lemma_amount(t.x);
        error::lemma_amount(t.y);
        assert(0 as real * 0 as real == 0 as real);
    }
}

/// Whether the recent positions, the last of them `dist` away from the one before, have a
/// trend that a direction is drawn on to.
pub open spec fn has_trend(window: Seq<Place>, dist: Num) -> bool {
    &&& window.len() >= 2
    &&& Single::value(stamping::ONE).at_most(dist)
    &&& Single::value(stamping::LEAST_TREND).below(window[0].to(window.last()).length())
}

/// The direction drawn on to the trend of the recent positions is finite and not short.
pub proof fn lemma_drawn(dir: Place, window: Seq<Place>, dist: Num)
    requires
        is_unit(dir),
        has_trend(window, dist) ==> {
            let trend = window[0].to(window.last());
            trend.x is Finite && trend.y is Finite
        },
    ensures
        is_moderate(stamping::drawn(dir, window, dist)),
        square_length(stamping::drawn(dir, window, dist)) >= 1 as real / 5 as real,
{
    lemma_unit_parts(dir);
    let trend = window[0].to(window.last());
    if has_trend(window, dist) {
        lemma_trend(trend);
        let t = trend.shrunk(trend.length());
        lemma_small_step(dir.x, t.x);
        lemma_small_step(dir.y, t.y);
        let to = dir.along(dir.to(t), Single::value(stamping::DIRECTION_GAIN));
        let x = error::amount(to.x);
        let y = error::amount(to.y);
        error::lemma_bounded_product(x, x, 9 as real, 9 as real);
        error::lemma_bounded_product(y, y, 9 as real, 9 as real);
        error::lemma_large();
    }
}

/// A direction that is not short is longer than the least that can be told.
pub proof fn lemma_can_be_told(dir: Place)
    requires
        is_moderate(dir),
        square_length(dir) >= 1 as real / 5 as real,
    ensures
        Single::value(stamping::LEAST_DIRECTION).below(dir.length()),
{
    lemma_length(dir);
    lemma_gain();
    let quarter = Single::value(stamping::LEAST_STEP);
    let length = dir.length();
    let l = error::amount(length);
    let o = Num::one_units() as real;
    error::lemma_amount(length);
    error::lemma_amount(quarter);
    assert(0 as real * o == 0 as real);
    error::lemma_cancel(0 as real, l, o);
    if length.place() < quarter.place() {
        error::lemma_cancel(l, 1 as real / 4 as real, o);
        error::lemma_bounded_product(l, l, 1 as real / 4 as real, 1 as real / 4 as real);
        assert((1 as real / 4 as real) * (1 as real / 4 as real) == 1 as real / 16 as real);
        assert(false);
    }
}

/// The direction of a stroke stays a unit vector, but for rounding, however it turns: the
/// recent positions only have to lie no further apart than the format can hold.
pub proof fn law_direction_is_unit(stroke: Stroke, from: Place, to: Place)
    requires
        is_unit(stroke.dir),
        ({
            let window = stamping::pushed(stroke.window, to);
            let trend = window[0].to(to);
            has_trend(window, stroke::segment_length(from, to)) ==> trend.x is Finite
                && trend.y is Finite
        }),
    ensures
        is_unit(stroke.after_segment(from, to).dir),
{
    if !stroke::is_negligible(from, to) {
        reveal(stamping::turned);
        let window = stamping::pushed(stroke.window, to);
        let dist = stroke::segment_length(from, to);
        assert(window.last() == to);
        lemma_drawn(stroke.dir, window, dist);
        let dir = stamping::drawn(stroke.dir, window, dist);
        lemma_can_be_told(dir);
        lemma_length(dir);
        lemma_long_enough(dir.length());
        lemma_shrunk_unit(dir);
    }
}

/// Whether two ways differ by no more than `e` in each part.
pub open spec fn is_near(way: Place, other: Place, e: real) -> bool {
    &&& way.x is Finite
    &&& way.y is Finite
    &&& other.x is Finite
    &&& other.y is Finite
    &&& error::size(error::amount(other.x) - error::amount(way.x)) <= e
    &&& error::size(error::amount(other.y) - error::amount(way.y)) <= e
}

/// How far a way is from unit length, and what rounding adds to it.
pub open spec fn unit_error(way: Place) -> real {
    error::size(square_length(way) - 1 as real) + 16 as real / 16777216 as real
}

/// A number whose square is close to one is close to one.
proof fn lemma_near_one(l: real, h: real)
    requires
        l >= 0 as real,
        error::size(l * l - 1 as real) <= h,
        h <= 1 as real / 40 as real,
    ensures
        l >= 9 as real / 10 as real,
        19 as real * error::size(l - 1 as real) <= 10 as real * h,
{
    let g = l - 1 as real;
    if l < 9 as real / 10 as real {
        error::lemma_bounded_product(l, l, 9 as real / 10 as real, 9 as real / 10 as real);
        assert((9 as real / 10 as real) * (9 as real / 10 as real) == 81 as real / 100 as real);
        assert(false);
    }
    let a = error::size(g);
    assert(g * (l + 1 as real) == l * l - 1 as real) by (nonlinear_arith)
        requires
            g == l - 1 as real,
    ;
    assert((-g) * (l + 1 as real) == -(g * (l + 1 as real))) by (nonlinear_arith);
    error::lemma_nonneg(a, l - 9 as real / 10 as real);
    assert(a * (l - 9 as real / 10 as real) == a * (l + 1 as real) - 19 as real * a / 10 as real)
        by (nonlinear_arith);
}

/// Dividing a part of a way by a length close to one changes it little.
proof fn lemma_part_kept(x: real, l: real, h: real, q: real)
    requires
        x * x <= 1 as real + 1 as real / 50 as real,
        l >= 9 as real / 10 as real,
        19 as real * error::size(l - 1 as real) <= 10 as real * h,
        error::size(x / l) <= 2 as real,
        error::size(q - x / l) <= error::slack(x / l),
    ensures
        error::size(q - x) <= 7 as real * h / 10 as real + 3 as real / 16777216 as real,
{
    let a = x / l;
    let g = l - 1 as real;
    assert(a * l == x) by (nonlinear_arith)
        requires
            a == x / l,
            l > 0 as real,
    ;
    let top = 11 as real / 10 as real;
    lemma_unit_part(x);
    let f = 10 as real * h / 19 as real;
    error::lemma_bounded_product(x, g, top, f);
    assert(top * f == 11 as real * f / 10 as real);
    // What the quotient is off by, scaled by the length.
    let d = a - x;
    assert((a - x) * l == a * l - x * l) by (nonlinear_arith);
    assert(x * g == x * l - x) by (nonlinear_arith)
        requires
            g == l - 1 as real,
    ;
    assert(d * l == -(x * g));
    let e = error::size(d);
    assert((-d) * l == -(d * l)) by (nonlinear_arith);
    error::lemma_nonneg(e, l);
    assert(e * l == error::size(x * g));
    error::lemma_nonneg(e, l - 9 as real / 10 as real);
    assert(e * (l - 9 as real / 10 as real) == e * l - 9 as real * e / 10 as real)
        by (nonlinear_arith);
}

/// Bringing a way that is close to unit length to unit length changes it little.
proof fn lemma_unit_kept(dir: Place, heading: Place)
    requires
        dir.x is Finite,
        dir.y is Finite,
        error::size(square_length(dir) - 1 as real) <= 1 as real / 50 as real,
    ensures
        is_near(dir, stamping::unit(dir, heading), unit_error(dir)),
{
    error::lemma_large();
    let x = error::amount(dir.x);
    let y = error::amount(dir.y);
    lemma_square(x);
    lemma_square(y);
    lemma_length(dir);
    lemma_can_be_told(dir);
    lemma_long_enough(dir.length());
    let length = dir.length();
    let l = error::amount(length);
    lemma_exact_unit(x, y, l);
    error::lemma_over(dir.x, length);
    error::lemma_over(dir.y, length);
    let h = error::size(square_length(dir) - 1 as real) + 11 as real / 16777216 as real;
    lemma_near_one(l, h);
    lemma_part_kept(x, l, h, error::amount(dir.x.over(length)));
    lemma_part_kept(y, l, h, error::amount(dir.y.over(length)));
}

/// A segment that is shorter than one, the first one of a stroke, and one that leaves the
/// recent positions without a trend keep the direction, but for rounding.
pub proof fn law_direction_kept(stroke: Stroke, from: Place, to: Place)
    requires
        is_unit(stroke.dir),
        !has_trend(stamping::pushed(stroke.window, to), stroke::segment_length(from, to)),
    ensures
        is_near(stroke.dir, stroke.after_segment(from, to).dir, unit_error(stroke.dir)),
{
    if !stroke::is_negligible(from, to) {
        reveal(stamping::turned);
        lemma_unit_kept(stroke.dir, stroke::segment_heading(from, to));
    }
}

/// The direction that a segment leads to rests on the oldest and on the newest of the recent
/// positions: whatever jitter lies between them does not turn it.
pub proof fn law_direction_ignores_jitter(
    stroke: Stroke,
    jittered: Seq<Place>,
    from: Place,
    to: Place,
)
    requires
        stamping::pushed(stroke.window, to).len() >= 2,
        stamping::pushed(jittered, to).len() >= 2,
        stamping::pushed(stroke.window, to)[0] == stamping::pushed(jittered, to)[0],
    ensures
        (Stroke { window: jittered, ..stroke }).after_segment(from, to).dir
            == stroke.after_segment(from, to).dir,
{
    reveal(stamping::turned);
}

/// A part of the way to a number nearby stays nearby.
proof fn lemma_near_step(d: Num, t: Num, e: real)
    requires
        d is Finite,
        t is Finite,
        error::size(error::amount(d)) <= 2 as real,
        error::size(error::amount(t) - error::amount(d)) <= e,
        e <= 1 as real,
    ensures
        ({
            let r = d.plus(t.minus(d).times(Single::value(stamping::DIRECTION_GAIN)));
            &&& r is Finite
            &&& error::size(error::amount(r) - error::amount(d)) <= e / 4 as real + 8 as real
                / 16777216 as real
        }),
{
    error::lemma_large();
    lemma_gain();
    let gain = Single::value(stamping::DIRECTION_GAIN);
    let k = error::amount(gain);
    error::lemma_minus(t, d);
    let way = t.minus(d);
    let w = error::amount(way);
    let m = e + 2 as real / 16777216 as real;
    error::lemma_bounded_product(w, k, m, 1 as real / 4 as real);
    assert(m * (1 as real / 4 as real) == m / 4 as real);
    error::lemma_times(way, gain);
    error::lemma_plus(d, way.times(gain));
}

/// The square of a number close to another is close to the square of that.
proof fn lemma_near_square(x: real, r: real, e: real)
    requires
        error::size(x) <= 11 as real / 10 as real,
        error::size(r - x) <= e,
        e <= 1 as real / 10 as real,
    ensures
        error::size(r * r - x * x) <= 23 as real * e / 10 as real,
{
    let g = r - x;
    error::lemma_bounded_product(g, r + x, e, 23 as real / 10 as real);
    assert((r - x) * (r + x) == r * r - x * x) by (nonlinear_arith);
    assert(e * (23 as real / 10 as real) == 23 as real * e / 10 as real);
}

/// A number with a square close to one is not much greater than one.
proof fn lemma_unit_part(x: real)
    requires
        x * x <= 1 as real + 1 as real / 50 as real,
    ensures
        error::size(x) <= 11 as real / 10 as real,
{
    let b = error::size(x);
    let top = 11 as real / 10 as real;
    if b > top {
        error::lemma_nonneg(b - top, b);
        assert((b - top) * b == b * b - top * b) by (nonlinear_arith);
        assert((-x) * (-x) == x * x) by (nonlinear_arith);
        assert(top * b == 11 as real * b / 10 as real);
        assert(false);
    }
}

/// A straight line stays straight: where the way from the oldest to the newest of the recent
/// positions leads in the direction of the stroke to within `e`, the stroke keeps that
/// direction to within twice as much, but for rounding.
pub proof fn law_straight_stays_straight(stroke: Stroke, from: Place, to: Place, e: real)
    requires
        is_unit(stroke.dir),
        e <= 1 as real / 100 as real,
        ({
            let window = stamping::pushed(stroke.window, to);
            let trend = window[0].to(to);
            has_trend(window, stroke::segment_length(from, to)) && is_near(
                stroke.dir,
                trend.shrunk(trend.length()),
                e,
            )
        }),
    ensures
        is_near(
            stroke.dir,
            stroke.after_segment(from, to).dir,
            2 as real * e + 64 as real / 16777216 as real + error::size(
                square_length(stroke.dir) - 1 as real,
            ),
        ),
{
    if !stroke::is_negligible(from, to) {
        reveal(stamping::turned);
        let dir = stroke.dir;
        let window = stamping::pushed(stroke.window, to);
        let dist = stroke::segment_length(from, to);
        assert(window.last() == to);
        let trend = window[0].to(to);
        let t = trend.shrunk(trend.length());
        let x = error::amount(dir.x);
        let y = error::amount(dir.y);
        lemma_square(x);
        lemma_square(y);
        lemma_unit_part(x);
        lemma_unit_part(y);
        lemma_near_step(dir.x, t.x, e);
        lemma_near_step(dir.y, t.y, e);
        let next = stamping::drawn(dir, window, dist);
        assert(next == dir.along(dir.to(t), Single::value(stamping::DIRECTION_GAIN)));
        let f = e / 4 as real + 8 as real / 16777216 as real;
        lemma_near_square(x, error::amount(next.x), f);
        lemma_near_square(y, error::amount(next.y), f);
        lemma_unit_kept(next, stroke::segment_heading(from, to));
    }
}

/// The exact way from one place to another, in one coordinate.
pub open spec fn exact_way(from: Num, to: Num) -> real {
    error::amount(to) - error::amount(from)
}

/// The exact square of the distance of two places.
pub open spec fn square_distance(from: Place, to: Place) -> real {
    exact_way(from.x, to.x) * exact_way(from.x, to.x) + exact_way(from.y, to.y) * exact_way(
        from.y,
        to.y,
    )
}

/// The square of a way in one coordinate is close to the exact one.
proof fn lemma_way_square(from: Num, to: Num)
    requires
        from is Finite,
        to is Finite,
        to.minus(from) is Finite,
    ensures
        ({
            let w = error::amount(to.minus(from));
            let d = exact_way(from, to);
            &&& error::size(w - d) <= error::slack(d)
            &&& error::size(w * w - d * d) <= 4 as real * (d * d) / 16777216 as real + 4 as real
                / 281474976710656 as real
        }),
{
    error::lemma_minus(to, from);
    let w = error::amount(to.minus(from));
    let d = exact_way(from, to);
    if d >= 0 as real {
        lemma_rounded_square(w, d);
    } else {
        lemma_rounded_square(-w, -d);
        assert((-w) * (-w) == w * w) by (nonlinear_arith);
        assert((-d) * (-d) == d * d) by (nonlinear_arith);
    }
}

/// The length of a segment is the distance of its ends: its square is the sum of the squares
/// of the two ways, but for rounding.
pub proof fn law_segment_length_is(from: Place, to: Place)
    requires
        stroke::segment_length(from, to) is Finite,
    ensures
        ({
            let l = error::amount(stroke::segment_length(from, to));
            let d = square_distance(from, to);
            &&& l >= 0 as real
            &&& error::size(l * l - d) <= d / 1000000 as real + 1 as real / 1000000000000 as real
        }),
{
    let way = from.to(to);
    lemma_length(way);
    assert(from.x is Finite && from.y is Finite && to.x is Finite && to.y is Finite) by {
        reveal(Num::plus);
    }
    lemma_way_square(from.x, to.x);
    lemma_way_square(from.y, to.y);
    lemma_square(exact_way(from.x, to.x));
    lemma_square(exact_way(from.y, to.y));
    error::lemma_order(way.length(), way.length());
}

/// A segment is drawn if and only if it is a hundredth of a pixel long or longer, but for
/// rounding.
pub proof fn law_short_segments_are_not_drawn(from: Place, to: Place)
    requires
        stroke::segment_length(from, to) is Finite,
    ensures
        square_distance(from, to) >= 101 as real * 101 as real / 100000000 as real
            ==> !stroke::is_negligible(from, to),
        square_distance(from, to) <= 99 as real * 99 as real / 100000000 as real
            ==> stroke::is_negligible(from, to),
{
    law_segment_length_is(from, to);
    formula_laws::law_constants();
    let length = stroke::segment_length(from, to);
    let least = Single::value(stamping::LEAST_SEGMENT);
    let l = error::amount(length);
    error::lemma_order(length, least);
    error::lemma_order(least, length);
    let top = 10001 as real / 1000000 as real;
    let low = 9999 as real / 1000000 as real;
    if l <= top {
        error::lemma_bounded_product(l, l, top, top);
        assert((10001 as real / 1000000 as real) * (10001 as real / 1000000 as real)
            == 100020001 as real / 1000000000000 as real);
    }
    if l >= low {
        error::lemma_nonneg(l - low, l);
        assert((l - low) * l == l * l - low * l) by (nonlinear_arith);
        assert(low * l == 9999 as real * l / 1000000 as real);
    }
}

/// The heading of a segment leads from its start to its end: the heading times the length is
/// the way, in each coordinate, but for rounding.
pub proof fn law_heading_leads_to_the_end(from: Place, to: Place)
    requires
        stroke::segment_length(from, to) is Finite,
        !stroke::is_negligible(from, to),
    ensures
        ({
            let l = error::amount(stroke::segment_length(from, to));
            let h = stroke::segment_heading(from, to);
            let dx = exact_way(from.x, to.x);
            let dy = exact_way(from.y, to.y);
            &&& l > 0 as real
            &&& h.x is Finite
            &&& h.y is Finite
            &&& error::size(error::amount(h.x) * l - dx) <= (error::size(dx) + l + 1 as real
                / 1000 as real) / 1000000 as real
            &&& error::size(error::amount(h.y) * l - dy) <= (error::size(dy) + l + 1 as real
                / 1000 as real) / 1000000 as real
        }),
{
    law_heading_is_unit(from, to);
    let way = from.to(to);
    lemma_least_lengths();
    lemma_length(way);
    lemma_long_enough(way.length());
    assert(from.x is Finite && from.y is Finite && to.x is Finite && to.y is Finite) by {
        reveal(Num::plus);
    }
    lemma_leads(from.x, to.x, way.length());
    lemma_leads(from.y, to.y, way.length());
}

/// The heading in one coordinate.
proof fn lemma_leads(from: Num, to: Num, length: Num)
    requires
        from is Finite,
        to is Finite,
        to.minus(from) is Finite,
        length is Finite,
        error::amount(length) >= 1 as real / 10001 as real,
        to.minus(from).over(length) is Finite,
    ensures
        ({
            let l = error::amount(length);
            let d = exact_way(from, to);
            error::size(error::amount(to.minus(from).over(length)) * l - d) <= (error::size(d) + l
                + 1 as real / 1000 as real) / 1000000 as real
        }),
{
    let way = to.minus(from);
    lemma_way_square(from, to);
    error::lemma_over(way, length);
    let l = error::amount(length);
    let w = error::amount(way);
    let r = w / l;
    let q = error::amount(way.over(length));
    assert(r * l == w) by (nonlinear_arith)
        requires
            r == w / l,
            l > 0 as real,
    ;
    let e = error::slack(r);
    let a = error::size(r);
    view_laws::lemma_scaled(r, l);
    view_laws::lemma_scaled_size(q - r, e, l);
    assert((q - r) * l == q * l - r * l) by (nonlinear_arith);
    assert((a / 16777216 as real + 1 as real / 281474976710656 as real) * l == (a * l)
        / 16777216 as real + l / 281474976710656 as real) by (nonlinear_arith);
}

/// The direction of the first stroke is a unit vector.
pub proof fn law_first_direction_is_unit()
    ensures
        is_unit(View2d::initial().last_dir),
{
    power2::lemma2_to64();
    rounding::lemma_pow2_split(149, 23, 126);
    error::lemma_whole_value(stamping::ONE, 1, 0x80_0000, 126);
    assert(single::magnitude(0) == 0);
    error::lemma_amount(Single::value(stamping::ZERO));
    assert(1 as real * 1 as real == 1 as real);
    assert(0 as real * 0 as real == 0 as real);
}

} // verus!
