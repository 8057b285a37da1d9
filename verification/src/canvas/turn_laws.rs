//! How far the direction of a stroke turns.

use super::direction_laws;
use super::formula_laws;
use super::geometry::Place;
use super::same_direction;
use super::stamping;
use super::stroke;
use super::stroke::Stroke;
use super::view_laws;
use crate::binary32::error;
use crate::binary32::num::Num;
use crate::binary32::single::Single;
use vstd::prelude::*;

verus! {

/// A fifth of the way from one number to another, in exact arithmetic.
pub open spec fn fifth_of_the_way(d: real, t: real) -> real {
    d + 20 as real * (t - d) / 100 as real
}

/// A part of the way from one small number to another is a fifth of it, but for rounding.
#[verifier::rlimit(40)]
proof fn lemma_fifth(d: Num, t: Num)
    requires
        d is Finite,
        t is Finite,
        error::size(error::amount(d)) <= 2 as real,
        error::size(error::amount(t)) <= 2 as real,
    ensures
        ({
            let r = d.plus(t.minus(d).times(Single::value(stamping::DIRECTION_GAIN)));
            &&& r is Finite
            &&& error::size(error::amount(r) - fifth_of_the_way(error::amount(d), error::amount(t)))
                <= 1 as real / 500000 as real
        }),
{
    error::lemma_large();
    lemma_fifth_gain();
    let gain = Single::value(stamping::DIRECTION_GAIN);
    let k = error::amount(gain);
    let x = error::amount(d);
    let y = error::amount(t);
    error::lemma_minus(t, d);
    let way = t.minus(d);
    let w = error::amount(way);
    formula_laws::lemma_signed_gain_near(w, k, 20 as real / 100 as real);
    error::lemma_times(way, gain);
    let g = error::amount(way.times(gain));
    lemma_fifth_moved(x, y, w, w * k, g);
    error::lemma_plus(d, way.times(gain));
}

/// The gain of the direction is a fifth.
proof fn lemma_fifth_gain()
    ensures
        formula_laws::is_about(
            Single::value(stamping::DIRECTION_GAIN),
            20 as real / 100 as real,
        ),
{
    formula_laws::law_constants();
}

/// What rounding makes of a fifth of the way.
proof fn lemma_fifth_moved(x: real, y: real, w: real, p: real, g: real)
    requires
        error::size(x) <= 2 as real,
        error::size(y) <= 2 as real,
        error::size(w - (y - x)) <= error::slack(y - x),
        error::size(p - w * (20 as real / 100 as real)) <= error::size(w) / 10000000 as real,
        error::size(p) <= 4 as real * error::size(w),
        error::size(g - p) <= error::slack(p),
    ensures
        error::size(x + g - fifth_of_the_way(x, y)) <= 1 as real / 1000000 as real,
        error::size(x + g) <= 4 as real,
{
    assert(w * (20 as real / 100 as real) == 20 as real * w / 100 as real);
}

/// Where the recent positions have a trend, the direction of a stroke turns a fifth of the way
/// to it: it leads where the old direction, moved by a fifth towards the direction of the
/// trend, leads, but for rounding.
#[verifier::rlimit(40)]
pub proof fn law_direction_turns_to_the_trend(stroke: Stroke, from: Place, to: Place)
    requires
        direction_laws::is_unit(stroke.dir),
        !stroke::is_negligible(from, to),
        direction_laws::has_trend(stamping::pushed(stroke.window, to), stroke::segment_length(from, to)),
        stamping::pushed(stroke.window, to)[0].to(to).length() is Finite,
    ensures
        ({
            let trend = stamping::pushed(stroke.window, to)[0].to(to);
            let t = trend.shrunk(trend.length());
            let q = stroke.after_segment(from, to).dir;
            let rx = fifth_of_the_way(error::amount(stroke.dir.x), error::amount(t.x));
            let ry = fifth_of_the_way(error::amount(stroke.dir.y), error::amount(t.y));
            &&& direction_laws::is_unit(t)
            &&& direction_laws::is_unit(q)
            &&& error::size(error::amount(q.x) * ry - error::amount(q.y) * rx) <= 1 as real
                / 1000 as real
            &&& error::amount(q.x) * rx + error::amount(q.y) * ry > 0 as real
        }),
{
    reveal(stamping::turned);
    let window = stamping::pushed(stroke.window, to);
    let dist = stroke::segment_length(from, to);
    assert(window.last() == to);
    let trend = window[0].to(to);
    let t = trend.shrunk(trend.length());
    direction_laws::lemma_least_lengths();
    direction_laws::lemma_length(trend);
    direction_laws::lemma_long_enough(trend.length());
    direction_laws::lemma_shrunk_unit(trend);
    direction_laws::lemma_unit_parts(t);
    direction_laws::lemma_unit_parts(stroke.dir);
    direction_laws::law_direction_is_unit(stroke, from, to);
    direction_laws::lemma_drawn(stroke.dir, window, dist);
    let r = stamping::drawn(stroke.dir, window, dist);
    direction_laws::lemma_small_step(stroke.dir.x, t.x);
    direction_laws::lemma_small_step(stroke.dir.y, t.y);
    lemma_fifth(stroke.dir.x, t.x);
    lemma_fifth(stroke.dir.y, t.y);
    direction_laws::lemma_can_be_told(r);
    direction_laws::lemma_length(r);
    let length = r.length();
    lemma_told_length(r);
    let q = r.shrunk(length);
    direction_laws::lemma_unit_parts(q);
    error::lemma_over(r.x, length);
    error::lemma_over(r.y, length);
    let l = error::amount(length);
    lemma_quotient_back(error::amount(r.x), l, error::amount(q.x));
    lemma_quotient_back(error::amount(r.y), l, error::amount(q.y));
    same_direction::lemma_same_direction(
        error::amount(r.x),
        error::amount(r.y),
        l,
        error::amount(q.x),
        error::amount(q.y),
        fifth_of_the_way(error::amount(stroke.dir.x), error::amount(t.x)),
        fifth_of_the_way(error::amount(stroke.dir.y), error::amount(t.y)),
    );
}

/// The length of a way that is neither short nor long.
proof fn lemma_told_length(way: Place)
    requires
        direction_laws::is_moderate(way),
        direction_laws::square_length(way) >= 1 as real / 5 as real,
        error::size(error::amount(way.x)) <= 9 as real,
        error::size(error::amount(way.y)) <= 9 as real,
    ensures
        way.length() is Finite,
        1 as real / 4 as real <= error::amount(way.length()) <= 20 as real,
{
    direction_laws::lemma_length(way);
    let x = error::amount(way.x);
    let y = error::amount(way.y);
    error::lemma_bounded_product(x, x, 9 as real, 9 as real);
    error::lemma_bounded_product(y, y, 9 as real, 9 as real);
    let l = error::amount(way.length());
    error::lemma_order(way.length(), way.length());
    if l > 20 as real {
        error::lemma_nonneg(l - 20 as real, l);
        assert((l - 20 as real) * l == l * l - 20 as real * l) by (nonlinear_arith);
        assert(false);
    }
    if l < 1 as real / 4 as real {
        error::lemma_bounded_product(l, l, 1 as real / 4 as real, 1 as real / 4 as real);
        assert((1 as real / 4 as real) * (1 as real / 4 as real) == 1 as real / 16 as real);
        assert(false);
    }
}

/// A rounded quotient, scaled back.
proof fn lemma_quotient_back(x: real, l: real, q: real)
    requires
        1 as real / 4 as real <= l <= 20 as real,
        error::size(x) <= 9 as real,
        error::size(q - x / l) <= error::slack(x / l),
    ensures
        error::size(q * l - x) <= 1 as real / 100000 as real,
{
    let r = x / l;
    assert(r * l == x) by (nonlinear_arith)
        requires
            r == x / l,
            l > 0 as real,
    ;
    let e = error::slack(r);
    let a = error::size(r);
    view_laws::lemma_scaled(r, l);
    view_laws::lemma_scaled_size(q - r, e, l);
    assert((q - r) * l == q * l - r * l) by (nonlinear_arith);
    assert((a / 16777216 as real + 1 as real / 281474976710656 as real) * l == (a * l)
        / 16777216 as real + l / 281474976710656 as real) by (nonlinear_arith);
}

} // verus!
