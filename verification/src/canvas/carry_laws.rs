//! The way since the last stamp is carried from segment to segment, so that the stamps
//! of a stroke stand evenly across the joints.

use super::geometry::Place;
use super::stamping;
use super::stamping::Run;
use super::stroke;
use super::stroke::Stroke;
use super::stroke_laws;
use crate::binary32::error;
use crate::binary32::num::Num;
use crate::binary32::order;
use crate::binary32::single;
use crate::binary32::single::Single;
use vstd::arithmetic::div_mod;
use vstd::arithmetic::power2;
use vstd::prelude::*;

verus! {

/// What a segment owes after `n` stamps.
pub open spec fn run_after(run: Run, n: nat) -> Run
    decreases n,
{
    if n == 0 {
        run
    } else {
        run_after(run, (n - 1) as nat).after_stamp()
    }
}

/// Whether a segment owes `n` stamps and no more.
pub open spec fn owes_in_all(run: Run, n: nat) -> bool {
    &&& forall|k: nat| k < n ==> (#[trigger] run_after(run, k)).owes()
    &&& !run_after(run, n).owes()
}

/// The exact way from the last of `n` stamps to the end of the segment; where there was
/// none, the way carried into the segment and the length of it.
pub open spec fn way_since(carry: Num, run: Run, n: nat) -> real {
    if n == 0 {
        error::amount(carry) + error::amount(run.dist)
    } else {
        error::amount(run.dist) - error::amount(run_after(run, (n - 1) as nat).offset)
    }
}

/// The most that rounding leads away over a segment of `n` stamps: once for each of them,
/// and once more at the end.
pub open spec fn way_error(run: Run, n: nat) -> real {
    (n + 1) as real * error::slack(error::amount(run.dist) + error::amount(run.step))
}

/// The length of a way lies within the format, and is not negative.
proof fn lemma_length_place(way: Place)
    requires
        way.length() is Finite,
    ensures
        0 <= way.length().place() < Num::limit_units(),
{
    reveal(Num::square_root);
    power2::lemma_pow2_pos(277);
}

/// The distance of two stamps is a number of the format.
proof fn lemma_step_in_format(size: Num, spacing: Num, speed: Num)
    ensures
        order::in_format(stamping::step_of(size, spacing, speed)),
{
    reveal(stamping::step_of);
    order::lemma_times_in_format(size, Single::value(stamping::LEAST_STEP_SHARE));
    order::lemma_times_in_format(size, Single::value(stamping::MOST_STEP_SHARE));
    order::lemma_single_in_format(Single { bits: stamping::LEAST_STEP });
    let stretch = Single::value(stamping::ONE).plus(
        speed.times(Single::value(stamping::SPACING_GAIN)),
    ).clamped(Single::value(stamping::ONE), Single::value(stamping::MOST_SPACING));
    order::lemma_times_in_format(size.times(spacing), stretch);
}

/// The constants of the carry.
proof fn lemma_constants()
    ensures
        Single::value(stamping::ZERO) == Num::zero(),
        Single::value(stamping::STEP_MARGIN) is Finite,
        0 < Single::value(stamping::STEP_MARGIN).place() < Single::value(
            stamping::LEAST_STEP,
        ).place(),
        Single::value(stamping::LEAST_STEP) is Finite,
{
    assert(single::magnitude(0) == 0);
    single::lemma_value_order(stamping::ZERO, stamping::STEP_MARGIN);
    single::lemma_value_order(stamping::STEP_MARGIN, stamping::LEAST_STEP);
}

/// What is carried into a segment is not negative and no longer than the step, and is all
/// that was carried where that is short of the step.
proof fn lemma_carried(carry: Num, step: Num)
    requires
        carry is Finite,
        carry.place() >= 0,
        step is Finite,
        order::in_format(step),
        Single::value(stamping::LEAST_STEP).at_most(step),
    ensures
        ({
            let c = stamping::carried(carry, step);
            &&& c is Finite
            &&& 0 <= c.place() <= step.place()
            &&& carry.at_most(step.minus(Single::value(stamping::STEP_MARGIN))) ==> c == carry
        }),
{
    reveal(stamping::carried);
    lemma_constants();
    let margin = Single::value(stamping::STEP_MARGIN);
    let less = step.minus(margin);
    order::lemma_minus_format(step, margin);
}

/// The first stamp of a segment stands where what was carried comes up to a step.
proof fn lemma_first_offset(c: Num, step: Num)
    requires
        c is Finite,
        step is Finite,
        order::in_format(step),
        0 <= c.place() <= step.place(),
    ensures
        ({
            let first = stamping::first_offset(c, step);
            &&& first is Finite
            &&& 0 <= first.place() <= step.place()
            &&& error::size(
                error::amount(first) - (error::amount(step) - error::amount(c)),
            ) <= error::slack(error::amount(step) - error::amount(c))
        }),
{
    reveal(stamping::first_offset);
    lemma_constants();
    error::lemma_amount(c);
    if c.place() > 0 {
        order::lemma_minus_format(step, c);
        error::lemma_minus(step, c);
    } else {
        assert(error::amount(c) == 0 as real);
    }
}

/// Numbers that are in order stand for reals that are.
proof fn lemma_amount_order(x: Num, y: Num)
    requires
        x is Finite,
        y is Finite,
        x.place() <= y.place(),
    ensures
        error::amount(x) <= error::amount(y),
{
    error::lemma_amount(x);
    error::lemma_amount(y);
    error::lemma_cancel(error::amount(x), error::amount(y), Num::one_units() as real);
}

/// A number that is not negative stands for a real that is not.
proof fn lemma_amount_nonneg(x: Num)
    requires
        x is Finite,
        x.place() >= 0,
    ensures
        error::amount(x) >= 0 as real,
{
    error::lemma_amount(x);
    let o = Num::one_units() as real;
    assert(0 as real * o == 0 as real);
    error::lemma_cancel(0 as real, error::amount(x), o);
}

/// One time more.
proof fn lemma_once_more(k: int, v: real)
    ensures
        (k + 1) as real * v == k as real * v + v,
{
    let r = k as real;
    assert((k + 1) as real == r + 1 as real);
    assert((r + 1 as real) * v == r * v + v) by (nonlinear_arith);
}

/// Stamp `k` of a segment stands where exact arithmetic puts it, but for rounding once for
/// each stamp up to it.
proof fn lemma_offset(c: Num, run: Run, k: nat)
    requires
        c is Finite,
        run.step is Finite,
        order::in_format(run.step),
        0 <= c.place() <= run.step.place(),
        run.dist is Finite,
        0 <= run.dist.place() < Num::limit_units(),
        run.offset == stamping::first_offset(c, run.step),
        forall|i: nat| i <= k ==> (#[trigger] run_after(run, i)).owes(),
    ensures
        ({
            let at = run_after(run, k);
            let step = error::amount(run.step);
            let exact = (k + 1) as real * step - error::amount(c);
            let e = error::slack(error::amount(run.dist) + step);
            &&& at.offset is Finite
            &&& at.offset.place() >= 0
            &&& at.dist == run.dist
            &&& at.step == run.step
            &&& error::size(error::amount(at.offset) - exact) <= (k + 1) as real * e
        }),
    decreases k,
{
    let step = error::amount(run.step);
    let dist = error::amount(run.dist);
    let e = error::slack(dist + step);
    lemma_amount_nonneg(c);
    lemma_amount_nonneg(run.step);
    lemma_amount_nonneg(run.dist);
    lemma_amount_order(c, run.step);
    lemma_once_more(k as int, step);
    lemma_once_more(k as int, e);
    if k == 0 {
        lemma_first_offset(c, run.step);
        assert(0 as real * step == 0 as real);
        assert(0 as real * e == 0 as real);
    } else {
        let before = run_after(run, (k - 1) as nat);
        lemma_offset(c, run, (k - 1) as nat);
        assert(before.owes());
        let at = run_after(run, k);
        assert(at.owes());
        order::lemma_sum_of_nonneg(before.offset, run.step);
        assert(at.offset is Finite);
        error::lemma_plus(before.offset, run.step);
        lemma_amount_nonneg(before.offset);
        lemma_amount_order(before.offset, run.dist);
    }
}

/// The remainder is what is left when whole steps are taken away.
proof fn lemma_remainder(x: Num, step: Num) -> (q: int)
    requires
        x is Finite,
        x.place() >= 0,
        step is Finite,
        step.place() > 0,
    ensures
        x.remainder(step) is Finite,
        0 <= x.remainder(step).place() < step.place(),
        error::amount(x.remainder(step)) == error::amount(x) - q as real * error::amount(step),
        x.place() < step.place() ==> x.remainder(step) == x,
{
    reveal(Num::remainder);
    let m = x->units as int;
    let n = step->units as int;
    let q = m / n;
    div_mod::lemma_fundamental_div_mod(m, n);
    div_mod::lemma_mod_bound(m, n);
    if m < n {
        div_mod::lemma_small_mod(m as nat, n as nat);
    }
    let r = x.remainder(step);
    error::lemma_amount(x);
    error::lemma_amount(step);
    error::lemma_amount(r);
    error::lemma_cast_product(n, q);
    let o = Num::one_units() as real;
    let a = error::amount(x);
    let b = error::amount(step);
    let c = error::amount(r);
    let k = q as real;
    assert((a - k * b) * o == a * o - k * (b * o)) by (nonlinear_arith);
    assert(n as real * k == k * (b * o)) by (nonlinear_arith)
        requires
            n as real == b * o,
    ;
    assert(c * o == (a - k * b) * o);
    error::lemma_cancel(c, a - k * b, o);
    error::lemma_cancel(a - k * b, c, o);
    q
}

/// The difference of two whole numbers of steps.
proof fn lemma_steps_between(n: int, q: int, v: real)
    ensures
        (n - q) as real * v == n as real * v - q as real * v,
        v > 0 as real && n - q >= 1 ==> (n - q) as real * v >= v,
        v > 0 as real && n - q <= -1 ==> (n - q) as real * v <= -v,
{
    let a = n as real;
    let b = q as real;
    assert((n - q) as real == a - b);
    assert((a - b) * v == a * v - b * v) by (nonlinear_arith);
    let d = a - b;
    if v > 0 as real && n - q >= 1 {
        error::lemma_nonneg(d - 1 as real, v);
        assert((d - 1 as real) * v == d * v - v) by (nonlinear_arith);
    }
    if v > 0 as real && n - q <= -1 {
        error::lemma_nonneg(-1 as real - d, v);
        assert((-1 as real - d) * v == -v - d * v) by (nonlinear_arith);
    }
}

/// So many steps.
pub open spec fn steps(j: int, step: real) -> real {
    j as real * step
}

/// Two numbers are equal up to whole steps and an error, and equal up to the error alone
/// where the one is not within the error of a whole step.
pub open spec fn carries(after: real, since: real, step: real, e: real) -> bool {
    &&& exists|j: int| error::size(after - since - #[trigger] steps(j, step)) <= e
    &&& e <= since && since < step - e ==> error::size(after - since) <= e
}

/// The law of the carry, for what is carried into a segment.
proof fn lemma_carry(c: Num, run: Run, n: nat)
    requires
        c is Finite,
        run.step is Finite,
        order::in_format(run.step),
        run.step.place() > 0,
        0 <= c.place() <= run.step.place(),
        run.dist is Finite,
        0 <= run.dist.place() < Num::limit_units(),
        run.offset == stamping::first_offset(c, run.step),
        owes_in_all(run, n),
        c.plus(run.dist) is Finite,
    ensures
        ({
            let after = stamping::carry_after(c, run.dist, run.step);
            &&& after is Finite
            &&& 0 <= after.place() < run.step.place()
            &&& carries(
                error::amount(after),
                way_since(c, run, n),
                error::amount(run.step),
                way_error(run, n),
            )
            &&& n == 0 && c.plus(run.dist).below(run.step) ==> after == c.plus(run.dist)
        }),
{
    reveal(stamping::carry_after);
    lemma_constants();
    let x = c.plus(run.dist);
    let step = error::amount(run.step);
    let dist = error::amount(run.dist);
    let e = error::slack(dist + step);
    lemma_amount_nonneg(c);
    lemma_amount_nonneg(run.dist);
    lemma_amount_order(c, run.step);
    order::lemma_sum_of_nonneg(c, run.dist);
    error::lemma_plus(c, run.dist);
    let q = lemma_remainder(x, run.step);
    let after = error::amount(x.remainder(run.step));
    lemma_amount_nonneg(x.remainder(run.step));
    error::lemma_amount(run.step);
    error::lemma_amount(x.remainder(run.step));
    lemma_amount_order(x.remainder(run.step), run.step);
    assert(after < step) by {
        if after >= step {
            lemma_same_amount(x.remainder(run.step), run.step);
        }
    }
    let since = way_since(c, run, n);
    let wide = way_error(run, n);
    lemma_once_more(n as int, e);
    if n > 0 {
        assert forall|i: nat| i <= n - 1 implies (#[trigger] run_after(run, i)).owes() by {}
        lemma_offset(c, run, (n - 1) as nat);
        assert((n - 1) as nat + 1 == n);
    } else {
        assert(0 as real * step == 0 as real);
        assert(0 as real * e == 0 as real);
    }
    lemma_steps_between(n as int, q, step);
    assert(error::size(after - since - steps(n - q, step)) <= wide);
    if wide <= since && since < step - wide {
        if n - q >= 1 {
            assert(false);
        } else if n - q <= -1 {
            assert(false);
        } else {
            assert(0 as real * step == 0 as real);
        }
    }
}

/// Numbers that stand for the same real stand at the same place.
proof fn lemma_same_amount(x: Num, y: Num)
    requires
        x is Finite,
        y is Finite,
        error::amount(x) >= error::amount(y),
    ensures
        x.place() >= y.place(),
{
    error::lemma_amount(x);
    error::lemma_amount(y);
    let o = Num::one_units() as real;
    let d = error::amount(x) - error::amount(y);
    error::lemma_nonneg(d, o);
    let a = error::amount(x);
    let b = error::amount(y);
    assert((a - b) * o == a * o - b * o) by (nonlinear_arith);
}

/// What a segment owes is owed by its step, which is of the format and never too short.
proof fn lemma_run(stroke: Stroke, from: Place, to: Place)
    requires
        !(stroke.brush_size is Nan),
        stroke.spacing is Finite,
        Single::value(stamping::ZERO).below(stroke.spacing),
    ensures
        order::in_format(stroke.run_over(from, to).step),
        Single::value(stamping::LEAST_STEP).at_most(stroke.run_over(from, to).step),
{
    lemma_constants();
    power2::lemma_pow2_pos(277);
    let speed = stroke.speed_over(from, to).greater(Single::value(stamping::ZERO));
    stroke_laws::law_step_in_bounds(stroke.brush_size, stroke.spacing, speed);
    lemma_step_in_format(stroke.brush_size, stroke.spacing, speed);
}

/// The stamps of a segment stand evenly: stamp `k` of those that it owes, counted from
/// zero, stands at `k + 1` steps less what was carried into the segment, but for rounding
/// once for each stamp up to it. It stands on the line from the start of the segment, within
/// its length.
pub proof fn law_stamps_stand_evenly(stroke: Stroke, from: Place, to: Place, k: nat)
    requires
        !(stroke.brush_size is Nan),
        stroke.spacing is Finite,
        Single::value(stamping::ZERO).below(stroke.spacing),
        stroke.carry is Finite,
        stroke.carry.place() >= 0,
        stroke.run_over(from, to).step is Finite,
        stroke.run_over(from, to).dist is Finite,
        forall|i: nat|
            i <= k ==> (#[trigger] run_after(stroke.run_over(from, to), i)).owes(),
    ensures
        ({
            let run = stroke.run_over(from, to);
            let at = run_after(run, k);
            let into = stamping::carried(stroke.carry, run.step);
            let exact = steps(k as int + 1, error::amount(run.step)) - error::amount(into);
            &&& at.offset is Finite
            &&& 0 <= at.offset.place() <= run.dist.place()
            &&& error::size(error::amount(at.offset) - exact) <= way_error(run, k)
            &&& at.next_stamp().pos == from.along(run.heading, at.offset)
        }),
{
    let run = stroke.run_over(from, to);
    let into = stamping::carried(stroke.carry, run.step);
    lemma_constants();
    lemma_run(stroke, from, to);
    lemma_carried(stroke.carry, run.step);
    lemma_length_place(from.to(to));
    lemma_offset(into, run, k);
    lemma_same_line(run, k);
    assert(run_after(run, k).owes());
}

/// A segment goes on from the same place in the same direction, stamp by stamp.
proof fn lemma_same_line(run: Run, k: nat)
    ensures
        run_after(run, k).from == run.from,
        run_after(run, k).heading == run.heading,
    decreases k,
{
    if k > 0 {
        lemma_same_line(run, (k - 1) as nat);
    }
}

/// After a segment the carry is the way from the last stamp to the end of the segment, or
/// what was carried into the segment and its length where it placed no stamp, but for
/// rounding. It is never negative, and always shorter than the step.
///
/// Where the way comes within the rounding of a whole step, the carry may count that step
/// as done or as still to come. What is carried into the segment is all that was carried
/// before, unless the step has become too short for that.
pub proof fn law_carry_is_way_since_stamp(stroke: Stroke, from: Place, to: Place, n: nat)
    requires
        !(stroke.brush_size is Nan),
        stroke.spacing is Finite,
        Single::value(stamping::ZERO).below(stroke.spacing),
        stroke.carry is Finite,
        stroke.carry.place() >= 0,
        !stroke::is_negligible(from, to),
        stroke.run_over(from, to).step is Finite,
        stroke.run_over(from, to).dist is Finite,
        owes_in_all(stroke.run_over(from, to), n),
        stamping::carried(stroke.carry, stroke.run_over(from, to).step).plus(
            stroke.run_over(from, to).dist,
        ) is Finite,
    ensures
        ({
            let run = stroke.run_over(from, to);
            let into = stamping::carried(stroke.carry, run.step);
            let after = stroke.after_segment(from, to).carry;
            &&& after is Finite
            &&& 0 <= after.place() < run.step.place()
            &&& carries(
                error::amount(after),
                way_since(into, run, n),
                error::amount(run.step),
                way_error(run, n),
            )
            &&& n == 0 && into.plus(run.dist).below(run.step) ==> after == into.plus(run.dist)
            &&& 0 <= into.place() <= stroke.carry.place()
            &&& stroke.carry.at_most(
                run.step.minus(Single::value(stamping::STEP_MARGIN)),
            ) ==> into == stroke.carry
        }),
{
    let run = stroke.run_over(from, to);
    lemma_constants();
    lemma_run(stroke, from, to);
    lemma_carried(stroke.carry, run.step);
    lemma_length_place(from.to(to));
    lemma_carry(stamping::carried(stroke.carry, run.step), run, n);
    reveal(stamping::carried);
}

/// At the joint of two segments no gap is left: what is carried into a segment and the way
/// to its first stamp make up a step, but for rounding once.
pub proof fn law_no_gap_at_joint(stroke: Stroke, from: Place, to: Place)
    requires
        !(stroke.brush_size is Nan),
        stroke.spacing is Finite,
        Single::value(stamping::ZERO).below(stroke.spacing),
        stroke.carry is Finite,
        stroke.carry.place() >= 0,
        stroke.run_over(from, to).step is Finite,
    ensures
        ({
            let run = stroke.run_over(from, to);
            let into = stamping::carried(stroke.carry, run.step);
            &&& run.offset is Finite
            &&& 0 <= run.offset.place() <= run.step.place()
            &&& error::size(
                error::amount(into) + error::amount(run.offset) - error::amount(run.step),
            ) <= error::slack(error::amount(run.step))
        }),
{
    let run = stroke.run_over(from, to);
    let into = stamping::carried(stroke.carry, run.step);
    lemma_constants();
    lemma_run(stroke, from, to);
    lemma_carried(stroke.carry, run.step);
    lemma_first_offset(into, run.step);
    lemma_amount_nonneg(into);
    lemma_amount_order(into, run.step);
}

} // verus!
