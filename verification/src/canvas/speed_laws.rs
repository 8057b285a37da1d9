//! What a stroke does as it grows faster: its stamps stand wider apart, each lays down less
//! paint, a large brush is narrowed, and the stroke follows the pointer more closely.

use super::geometry::Place;
use super::stamping;
use super::stroke;
use super::stroke::Stroke;
use crate::binary32::error;
use crate::binary32::num::Num;
use crate::binary32::order;
use crate::binary32::rounding;
use crate::binary32::single;
use crate::binary32::single::Single;
use vstd::arithmetic::power2;
use vstd::prelude::*;

verus! {

/// A constant that is not zero is finite and positive.
proof fn lemma_constant(bits: u32)
    requires
        0 < bits < single::INFINITY_BITS,
    ensures
        Single::value(bits) is Finite,
        Single::value(bits).place() > 0,
        Single::value(stamping::ZERO) == Num::zero(),
{
    single::lemma_value_order(stamping::ZERO, bits);
    assert(single::magnitude(0) == 0);
}

/// A speed times a gain: it is not negative, and grows with the speed.
proof fn lemma_gained(a: Num, b: Num, gain: Num)
    requires
        a.place() >= 0,
        order::in_order(a, b),
        gain is Finite,
        gain.place() > 0,
    ensures
        order::in_order(a.times(gain), b.times(gain)),
        a.times(gain).place() >= 0,
{
    assert(!(a.times(gain) is Nan) && !(b.times(gain) is Nan)) by {
        reveal(Num::times);
        power2::lemma_pow2_pos(277);
    }
    order::lemma_times_order(gain, a, b);
    order::lemma_product_of_nonneg(a, gain);
}

/// One and what is not negative make no less than one.
proof fn lemma_one_and(t: Num)
    requires
        t.place() >= 0,
        !(t is Nan),
    ensures
        !(Single::value(stamping::ONE).plus(t) is Nan),
        Single::value(stamping::ONE).at_most(Single::value(stamping::ONE).plus(t)),
{
    let one = Single::value(stamping::ONE);
    lemma_constant(stamping::ONE);
    power2::lemma_pow2_pos(277);
    order::lemma_single_in_format(Single { bits: stamping::ONE });
    order::lemma_plus_zero(one);
    assert(!(one.plus(t) is Nan)) by {
        reveal(Num::plus);
    }
    order::lemma_plus_order(one, Num::zero(), t);
}

/// The faster a stroke, the wider apart its stamps stand.
pub proof fn law_step_grows(size: Num, spacing: Num, a: Num, b: Num)
    requires
        !(size is Nan),
        spacing is Finite,
        Single::value(stamping::ZERO).below(spacing),
        Single::value(stamping::ZERO).at_most(a),
        order::in_order(a, b),
    ensures
        stamping::step_of(size, spacing, a).at_most(stamping::step_of(size, spacing, b)),
{
    reveal(stamping::step_of);
    let one = Single::value(stamping::ONE);
    let most = Single::value(stamping::MOST_SPACING);
    let gain = Single::value(stamping::SPACING_GAIN);
    lemma_constant(stamping::SPACING_GAIN);
    lemma_constant(stamping::ONE);
    single::lemma_value_order(stamping::ONE, stamping::MOST_SPACING);
    lemma_gained(a, b, gain);
    lemma_one_and(a.times(gain));
    lemma_one_and(b.times(gain));
    order::lemma_plus_order(one, a.times(gain), b.times(gain));
    let p = one.plus(a.times(gain)).clamped(one, most);
    let q = one.plus(b.times(gain)).clamped(one, most);
    order::lemma_clamped_order(one.plus(a.times(gain)), one.plus(b.times(gain)), one, most);
    assert(p is Finite && q is Finite) by {
        power2::lemma_pow2_pos(277);
    }
    let wide = size.times(spacing);
    stamping::lemma_step_bounds(size);
    power2::lemma_pow2_pos(277);
    assert(!(wide is Nan)) by {
        reveal(Num::times);
    }
    assert(!(wide.times(p) is Nan) && !(wide.times(q) is Nan)) by {
        reveal(Num::times);
    }
    if wide is Finite && wide.place() >= 0 {
        order::lemma_times_commutes(wide, p);
        order::lemma_times_commutes(wide, q);
        order::lemma_times_order(wide, p, q);
    } else {
        // An endless brush stays so, and a negative one has the least step.
        assert(wide.times(p).place() <= 0 && wide.times(q).place() <= 0 || wide.times(p)
            == wide.times(q)) by {
            reveal(Num::times);
        }
        single::lemma_value_order(stamping::ZERO, stamping::LEAST_STEP);
    }
    if wide.times(p).at_most(wide.times(q)) {
        order::lemma_clamped_order(
            wide.times(p),
            wide.times(q),
            stamping::least_step(size),
            stamping::most_step(size),
        );
    }
}

/// The faster a stroke, the less paint each of its stamps lays down.
pub proof fn law_flow_shrinks(a: Num, b: Num)
    requires
        Single::value(stamping::ZERO).at_most(a),
        order::in_order(a, b),
    ensures
        stamping::flow_scale_of(b).at_most(stamping::flow_scale_of(a)),
{
    reveal(stamping::flow_scale_of);
    let one = Single::value(stamping::ONE);
    let gain = Single::value(stamping::FLOW_GAIN);
    lemma_constant(stamping::FLOW_GAIN);
    lemma_constant(stamping::ONE);
    single::lemma_value_order(stamping::LEAST_FLOW, stamping::ONE);
    lemma_gained(a, b, gain);
    lemma_one_and(a.times(gain));
    lemma_one_and(b.times(gain));
    order::lemma_plus_order(one, a.times(gain), b.times(gain));
    let p = one.plus(a.times(gain));
    let q = one.plus(b.times(gain));
    order::lemma_over_divisor_order(one, p, q);
    order::lemma_clamped_order(
        one.over(q),
        one.over(p),
        Single::value(stamping::LEAST_FLOW),
        one,
    );
}

/// The faster a stroke, the narrower a large brush is along the motion; a small one keeps
/// its shape. With a small brush the speed has to be finite.
pub proof fn law_axis_shrinks(size: Num, a: Num, b: Num)
    requires
        !(size is Nan),
        Single::value(stamping::ZERO).at_most(a),
        order::in_order(a, b),
        b is Infinite ==> Single::value(stamping::ZERO).below(stamping::largeness(size)),
    ensures
        stamping::axis_scale_of(size, b).at_most(stamping::axis_scale_of(size, a)),
{
    reveal(stamping::axis_scale_of);
    let one = Single::value(stamping::ONE);
    let gain = Single::value(stamping::AXIS_GAIN);
    let large = stamping::largeness(size);
    lemma_constant(stamping::AXIS_GAIN);
    lemma_constant(stamping::ONE);
    lemma_constant(stamping::SMALL_BRUSH);
    lemma_constant(stamping::BRUSH_RANGE);
    single::lemma_value_order(stamping::LEAST_AXIS, stamping::ONE);
    single::lemma_value_order(stamping::ZERO, stamping::ONE);
    power2::lemma_pow2_pos(277);
    assert(large is Finite && large.place() >= 0) by {
        reveal(Num::plus);
        reveal(Num::over);
    }
    assert(!(a.times(large) is Nan) && !(b.times(large) is Nan)) by {
        reveal(Num::times);
    }
    order::lemma_times_order(large, a, b);
    order::lemma_product_of_nonneg(a, large);
    let p = a.times(large).times(gain);
    let q = b.times(large).times(gain);
    lemma_gained(a.times(large), b.times(large), gain);
    order::lemma_negated_order(p, q);
    assert(!(one.minus(p) is Nan) && !(one.minus(q) is Nan)) by {
        reveal(Num::plus);
    }
    order::lemma_plus_order(one, q.negated(), p.negated());
    order::lemma_clamped_order(
        one.minus(q),
        one.minus(p),
        Single::value(stamping::LEAST_AXIS),
        one,
    );
}

/// The faster a stroke, the more closely it follows the pointer.
pub proof fn law_follow_grows(slow: Stroke, fast: Stroke)
    requires
        Single::value(stamping::ZERO).at_most(slow.speed),
        order::in_order(slow.speed, fast.speed),
    ensures
        slow.follow().at_most(fast.follow()),
{
    let least = Single::value(stroke::LEAST_FOLLOW);
    let gain = Single::value(stroke::FOLLOW_GAIN);
    let zero = Single::value(stamping::ZERO);
    let most = Single::value(stroke::MOST_FOLLOW_GAIN);
    lemma_constant(stroke::FOLLOW_GAIN);
    lemma_constant(stroke::LEAST_FOLLOW);
    single::lemma_value_order(stamping::ZERO, stroke::MOST_FOLLOW_GAIN);
    single::lemma_value_order(stroke::LEAST_FOLLOW, stroke::MOST_FOLLOW);
    power2::lemma_pow2_pos(277);
    lemma_gained(slow.speed, fast.speed, gain);
    let a = slow.speed.times(gain);
    let b = fast.speed.times(gain);
    order::lemma_clamped_order(a, b, zero, most);
    let p = a.clamped(zero, most);
    let q = b.clamped(zero, most);
    assert(!(least.plus(p) is Nan) && !(least.plus(q) is Nan)) by {
        reveal(Num::plus);
    }
    order::lemma_plus_order(least, p, q);
    order::lemma_clamped_order(
        least.plus(p),
        least.plus(q),
        least,
        Single::value(stroke::MOST_FOLLOW),
    );
}

/// The longer a segment is, the faster the stroke grows over it.
pub proof fn law_speed_grows(speed: Num, size: Num, a: Num, b: Num)
    requires
        speed is Finite,
        size is Finite,
        Single::value(stamping::ZERO).at_most(a),
        order::in_order(a, b),
    ensures
        order::in_order(
            stamping::smoothed_speed(speed, size, a),
            stamping::smoothed_speed(speed, size, b),
        ),
{
    reveal(stamping::smoothed_speed);
    let gain = Single::value(stamping::SPEED_GAIN);
    let large = Single::value(stamping::ONE).below(size);
    lemma_constant(stamping::SPEED_GAIN);
    lemma_constant(stamping::ONE);
    let p = if large {
        a.over(size)
    } else {
        a
    };
    let q = if large {
        b.over(size)
    } else {
        b
    };
    if large {
        order::lemma_over_order(a, b, size);
    }
    let back = speed.negated();
    power2::lemma_pow2_pos(277);
    assert(p.minus(speed) == back.plus(p) && q.minus(speed) == back.plus(q) && !(back.plus(p)
        is Nan) && !(back.plus(q) is Nan)) by {
        reveal(Num::plus);
    }
    order::lemma_plus_order(back, p, q);
    let x = p.minus(speed);
    let y = q.minus(speed);
    assert(!(x.times(gain) is Nan) && !(y.times(gain) is Nan)) by {
        reveal(Num::times);
    }
    order::lemma_times_order(gain, x, y);
    assert(!(speed.plus(x.times(gain)) is Nan) && !(speed.plus(y.times(gain)) is Nan)) by {
        reveal(Num::plus);
    }
    order::lemma_plus_order(speed, x.times(gain), y.times(gain));
}

/// The speed of a stroke never becomes negative, and stays a number of the format.
pub proof fn law_speed_not_negative(speed: Num, size: Num, dist: Num)
    requires
        speed is Finite,
        order::in_format(speed),
        speed.place() >= 0,
        size is Finite,
        Single::value(stamping::ZERO).at_most(dist),
    ensures
        Single::value(stamping::ZERO).at_most(stamping::smoothed_speed(speed, size, dist)),
        order::in_format(stamping::smoothed_speed(speed, size, dist)),
{
    reveal(stamping::smoothed_speed);
    let zero = Num::zero();
    let gain = Single::value(stamping::SPEED_GAIN);
    lemma_constant(stamping::SPEED_GAIN);
    lemma_constant(stamping::ONE);
    power2::lemma_pow2_pos(277);
    let sample = if Single::value(stamping::ONE).below(size) {
        dist.over(size)
    } else {
        dist
    };
    if Single::value(stamping::ONE).below(size) {
        order::lemma_over_order(dist, dist, size);
    }
    // What is added is at least a part of the speed, taken away.
    let back = speed.negated();
    assert(order::in_format(back));
    order::lemma_plus_zero(back);
    let x = sample.minus(speed);
    assert(x == back.plus(sample) && !(x is Nan)) by {
        reveal(Num::plus);
    }
    order::lemma_plus_order(back, zero, sample);
    assert(order::in_order(back, x));
    assert(!(x.times(gain) is Nan) && back.times(gain) == speed.times(gain).negated()) by {
        reveal(Num::times);
    }
    single::lemma_value_order(stamping::SPEED_GAIN, stamping::ONE);
    power2::lemma2_to64();
    rounding::lemma_pow2_split(149, 23, 126);
    error::lemma_whole_value(stamping::ONE, 1, 0x80_0000, 126);
    order::lemma_part_at_most(speed, gain);
    order::lemma_times_order(gain, back, x);
    let y = x.times(gain);
    assert(order::in_order(back, y));
    // So what is left is at least the speed less itself.
    assert(speed.plus(back).place() == 0 && !(speed.plus(back) is Nan) && !(speed.plus(y)
        is Nan)) by {
        reveal(Num::plus);
    }
    order::lemma_plus_order(speed, back, y);
    if y is Finite {
        order::lemma_plus_in_format(speed, y);
    } else {
        reveal(Num::plus);
    }
}

/// The further the pointer leads a stroke at once, the wider apart the stamps of the
/// segment stand, the less paint each lays down, the narrower a large brush is, and the
/// more closely the stroke follows the pointer after it.
pub proof fn law_longer_segment(stroke: Stroke, from: Place, near: Place, far: Place)
    requires
        stroke.brush_size is Finite,
        stroke.spacing is Finite,
        Single::value(stamping::ZERO).below(stroke.spacing),
        stroke.speed is Finite,
        order::in_format(stroke.speed),
        stroke.speed.place() >= 0,
        order::in_order(stroke::segment_length(from, near), stroke::segment_length(from, far)),
        !stroke::is_negligible(from, near),
    ensures
        ({
            let slow = stroke.run_over(from, near);
            let fast = stroke.run_over(from, far);
            &&& slow.step.at_most(fast.step)
            &&& fast.flow_scale.at_most(slow.flow_scale)
            &&& stroke.speed_over(from, far) is Finite || Single::value(stamping::ZERO).below(
                stamping::largeness(stroke.brush_size),
            ) ==> fast.axis_scale.at_most(slow.axis_scale)
            &&& stroke.after_segment(from, near).follow().at_most(
                stroke.after_segment(from, far).follow(),
            )
        }),
{
    let size = stroke.brush_size;
    let zero = Single::value(stamping::ZERO);
    lemma_constant(stamping::LEAST_SEGMENT);
    law_speed_grows(
        stroke.speed,
        size,
        stroke::segment_length(from, near),
        stroke::segment_length(from, far),
    );
    law_speed_not_negative(stroke.speed, size, stroke::segment_length(from, near));
    let a = stroke.speed_over(from, near);
    let b = stroke.speed_over(from, far);
    assert(order::in_order(a.greater(zero), b.greater(zero)));
    law_step_grows(size, stroke.spacing, a.greater(zero), b.greater(zero));
    law_flow_shrinks(a.greater(zero), b.greater(zero));
    if b is Finite || zero.below(stamping::largeness(size)) {
        law_axis_shrinks(size, a.greater(zero), b.greater(zero));
    }
    law_follow_grows(stroke.after_segment(from, near), stroke.after_segment(from, far));
}

} // verus!
