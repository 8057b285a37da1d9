//! How stamps are laid along a segment of a stroke.
//!
//! The faster the pointer moves, the wider apart the stamps stand, the less paint
//! each lays down, and, with a large brush, the narrower each is along the motion.

use super::geometry::{Place, Point};
use crate::binary32::num::Num;
use crate::binary32::single;
use crate::binary32::single::Single;
use std::collections::VecDeque;
use vstd::prelude::*;

verus! {

/// 0.0
pub const ZERO: u32 = 0;

/// 0.0001
pub const LEAST_DIRECTION: u32 = 0x38d1_b717;

/// 0.001
pub const STEP_MARGIN: u32 = 0x3a83_126f;

/// 0.01
pub const LEAST_SEGMENT: u32 = 0x3c23_d70a;

/// 0.1
pub const LEAST_TREND: u32 = 0x3dcc_cccd;

/// 0.15
pub const LEAST_STEP_SHARE: u32 = 0x3e19_999a;

/// 0.20
pub const DIRECTION_GAIN: u32 = 0x3e4c_cccd;

/// 0.25
pub const LEAST_STEP: u32 = 0x3e80_0000;

/// 0.35
pub const SPEED_GAIN: u32 = 0x3eb3_3333;

/// 0.35
pub const LEAST_FLOW: u32 = 0x3eb3_3333;

/// 0.45
pub const LEAST_AXIS: u32 = 0x3ee6_6666;

/// 0.55
pub const AXIS_GAIN: u32 = 0x3f0c_cccd;

/// 0.70
pub const MOST_STEP_SHARE: u32 = 0x3f33_3333;

/// 0.8
pub const FLOW_GAIN: u32 = 0x3f4c_cccd;

/// 1.0
pub const ONE: u32 = 0x3f80_0000;

/// 1.10
pub const SPACING_GAIN: u32 = 0x3f8c_cccd;

/// 2.6
pub const MOST_SPACING: u32 = 0x4026_6666;

/// 24.0
pub const SMALL_BRUSH: u32 = 0x41c0_0000;

/// 96.0
pub const BRUSH_RANGE: u32 = 0x42c0_0000;

/// The number of recent positions that the direction of a stroke is taken from.
pub const DIR_WINDOW: usize = 12;

/// Points as pairs of numbers.
pub open spec fn places(points: Seq<Point>) -> Seq<Place> {
    points.map_values(|p: Point| p@)
}

/// The recent positions after another one has come, the oldest making room.
pub open spec fn pushed(window: Seq<Place>, place: Place) -> Seq<Place> {
    if window.len() >= DIR_WINDOW {
        window.subrange(1, window.len() as int).push(place)
    } else {
        window.push(place)
    }
}

/// The direction of a stroke drawn on to the trend of its recent positions, the
/// last of them `dist` away from the one before. A move or a trend that is too
/// short leaves the direction as it is.
pub open spec fn drawn(dir: Place, window: Seq<Place>, dist: Num) -> Place {
    let trend = window[0].to(window.last());
    if window.len() >= 2 && Single::value(ONE).at_most(dist) && Single::value(LEAST_TREND).below(
        trend.length(),
    ) {
        dir.along(dir.to(trend.shrunk(trend.length())), Single::value(DIRECTION_GAIN))
    } else {
        dir
    }
}

/// A direction at unit length, or the heading of the segment where the direction
/// is too short to tell.
pub open spec fn unit(dir: Place, heading: Place) -> Place {
    if Single::value(LEAST_DIRECTION).below(dir.length()) {
        dir.shrunk(dir.length())
    } else {
        heading
    }
}

/// The direction of a stroke after a segment.
#[verifier::opaque]
pub open spec fn turned(dir: Place, window: Seq<Place>, dist: Num, heading: Place) -> Place {
    unit(drawn(dir, window, dist), heading)
}

/// The smoothed speed of a stroke, in brush diameters for each pointer sample,
/// after a segment of the length given.
#[verifier::opaque]
pub open spec fn smoothed_speed(speed: Num, size: Num, dist: Num) -> Num {
    let sample = if Single::value(ONE).below(size) {
        dist.over(size)
    } else {
        dist
    };
    speed.plus(sample.minus(speed).times(Single::value(SPEED_GAIN)))
}

/// The least distance of two stamps of a brush.
pub open spec fn least_step(size: Num) -> Num {
    size.times(Single::value(LEAST_STEP_SHARE)).greater(Single::value(LEAST_STEP))
}

/// The greatest distance of two stamps of a brush.
pub open spec fn most_step(size: Num) -> Num {
    size.times(Single::value(MOST_STEP_SHARE)).greater(least_step(size))
}

/// The distance of two stamps at a speed: the spacing of the brush, stretched as
/// the speed grows.
#[verifier::opaque]
pub open spec fn step_of(size: Num, spacing: Num, speed: Num) -> Num {
    let stretch = Single::value(ONE).plus(speed.times(Single::value(SPACING_GAIN))).clamped(
        Single::value(ONE),
        Single::value(MOST_SPACING),
    );
    size.times(spacing).times(stretch).clamped(least_step(size), most_step(size))
}

/// How far a brush counts as a large one: not at all up to 24 pixels, and in full from
/// 120 pixels on.
pub open spec fn largeness(size: Num) -> Num {
    size.minus(Single::value(SMALL_BRUSH)).over(Single::value(BRUSH_RANGE)).clamped(
        Single::value(ZERO),
        Single::value(ONE),
    )
}

/// How far a stamp is narrowed along the motion at a speed; small brushes keep
/// their shape.
#[verifier::opaque]
pub open spec fn axis_scale_of(size: Num, speed: Num) -> Num {
    Single::value(ONE).minus(
        speed.times(largeness(size)).times(Single::value(AXIS_GAIN)),
    ).clamped(Single::value(LEAST_AXIS), Single::value(ONE))
}

/// How much of its paint a stamp lays down at a speed.
#[verifier::opaque]
pub open spec fn flow_scale_of(speed: Num) -> Num {
    Single::value(ONE).over(
        Single::value(ONE).plus(speed.times(Single::value(FLOW_GAIN))),
    ).clamped(Single::value(LEAST_FLOW), Single::value(ONE))
}

/// The way since the last stamp that counts towards the next, given the step.
#[verifier::opaque]
pub open spec fn carried(carry: Num, step: Num) -> Num {
    carry.lesser(step.minus(Single::value(STEP_MARGIN)).greater(Single::value(ZERO)))
}

/// How far along a segment its first stamp stands.
#[verifier::opaque]
pub open spec fn first_offset(carry: Num, step: Num) -> Num {
    if carry.at_most(Single::value(ZERO)) {
        step
    } else {
        step.minus(carry)
    }
}

/// The way since the last stamp once a segment of the length given is done.
#[verifier::opaque]
pub open spec fn carry_after(carry: Num, dist: Num, step: Num) -> Num {
    if Single::value(ZERO).below(step) {
        carry.plus(dist).remainder(step)
    } else {
        Single::value(ZERO)
    }
}

/// A stamp, as numbers.
pub struct Stamp {
    pub pos: Place,
    pub dir: Place,
    pub axis_scale: Num,
    pub flow_scale: Num,
}

/// One stamp of the brush: where it is put, how it is turned, how far it is
/// narrowed and how much paint it lays down.
#[derive(Clone, Copy, Debug)]
pub struct StampSample {
    pub pos: Point,
    pub dir: Point,
    pub axis_scale: Single,
    pub flow_scale: Single,
}

impl View for StampSample {
    type V = Stamp;

    open spec fn view(&self) -> Stamp {
        Stamp {
            pos: self.pos@,
            dir: self.dir@,
            axis_scale: self.axis_scale@,
            flow_scale: self.flow_scale@,
        }
    }
}

/// The stamps that a segment still owes, as numbers.
pub struct Run {
    /// Where the segment starts.
    pub from: Place,
    /// Its unit direction.
    pub heading: Place,
    /// Its length.
    pub dist: Num,
    /// How far along it the next stamp stands.
    pub offset: Num,
    /// The distance of two stamps.
    pub step: Num,
    /// How the stamps are turned.
    pub dir: Place,
    pub axis_scale: Num,
    pub flow_scale: Num,
}

impl Run {
    /// Whether a stamp is owed.
    pub open spec fn owes(self) -> bool {
        self.offset.at_most(self.dist)
    }

    /// The next stamp.
    pub open spec fn next_stamp(self) -> Stamp {
        Stamp {
            pos: self.from.along(self.heading, self.offset),
            dir: self.dir,
            axis_scale: self.axis_scale,
            flow_scale: self.flow_scale,
        }
    }

    /// What is owed after the next stamp.
    pub open spec fn after_stamp(self) -> Run {
        Run { offset: self.offset.plus(self.step), ..self }
    }
}

/// The stamps that a segment still owes.
#[derive(Clone, Copy, Debug)]
pub struct StampRun {
    pub from: Point,
    pub heading: Point,
    pub dist: Single,
    pub offset: Single,
    pub step: Single,
    pub dir: Point,
    pub axis_scale: Single,
    pub flow_scale: Single,
}

impl View for StampRun {
    type V = Run;

    open spec fn view(&self) -> Run {
        Run {
            from: self.from@,
            heading: self.heading@,
            dist: self.dist@,
            offset: self.offset@,
            step: self.step@,
            dir: self.dir@,
            axis_scale: self.axis_scale@,
            flow_scale: self.flow_scale@,
        }
    }
}

impl StampRun {
    /// The next stamp of the segment, if there is one.
    pub fn next(&mut self) -> (r: Option<StampSample>)
        ensures
            match r {
                Some(sample) => {
                    &&& old(self)@.owes()
                    &&& sample@ == old(self)@.next_stamp()
                    &&& final(self)@ == old(self)@.after_stamp()
                },
                None => !old(self)@.owes() && *final(self) == *old(self),
            },
    {
        if !self.offset.le(self.dist) {
            return None;
        }
        let sample = StampSample {
            pos: self.from.along(self.heading, self.offset),
            dir: self.dir,
            axis_scale: self.axis_scale,
            flow_scale: self.flow_scale,
        };
        self.offset = self.offset.add(self.step);
        Some(sample)
    }
}

/// The direction of a stroke after a segment.
pub fn turn(dir: Point, window: &VecDeque<Point>, dist: Single, heading: Point) -> (r: Point)
    requires
        window.len() > 0,
    ensures
        r@ == turned(dir@, places(window@), dist@, heading@),
{
    let count: usize = window.len();
    let oldest: Point = window[0];
    let newest: Point = window[count - 1];
    proof {
        reveal(turned);
    }
    let mut to: Point = dir;
    let one: Single = Single { bits: ONE };
    if count >= 2 && one.le(dist) {
        let trend: Point = oldest.to(newest);
        let length: Single = trend.length();
        let least: Single = Single { bits: LEAST_TREND };
        if least.lt(length) {
            to = dir.along(dir.to(trend.shrunk(length)), Single { bits: DIRECTION_GAIN });
        }
    }
    let length: Single = to.length();
    let least: Single = Single { bits: LEAST_DIRECTION };
    if least.lt(length) {
        to.shrunk(length)
    } else {
        heading
    }
}

/// The smoothed speed of a stroke after a segment.
pub fn smooth_speed(speed: Single, size: Single, dist: Single) -> (r: Single)
    ensures
        r@ == smoothed_speed(speed@, size@, dist@),
{
    proof {
        reveal(smoothed_speed);
    }
    let one: Single = Single { bits: ONE };
    let sample: Single = if one.lt(size) {
        dist.div(size)
    } else {
        dist
    };
    speed.add(sample.sub(speed).mul(Single { bits: SPEED_GAIN }))
}

/// The bounds of the step are in order, whatever the size of the brush.
pub proof fn lemma_step_bounds(size: Num)
    ensures
        least_step(size).at_most(most_step(size)),
        Single::value(LEAST_STEP).at_most(least_step(size)),
{
    single::lemma_value_order(LEAST_STEP, LEAST_STEP);
}

/// The distance of two stamps at a speed.
pub fn step_at(size: Single, spacing: Single, speed: Single) -> (r: Single)
    ensures
        r@ == step_of(size@, spacing@, speed@),
{
    proof {
        reveal(step_of);
        lemma_step_bounds(size@);
        single::lemma_value_order(ONE, MOST_SPACING);
    }
    let one: Single = Single { bits: ONE };
    let stretch: Single = one.add(speed.mul(Single { bits: SPACING_GAIN })).clamp(
        one,
        Single { bits: MOST_SPACING },
    );
    let least: Single = size.mul(Single { bits: LEAST_STEP_SHARE }).max(
        Single { bits: LEAST_STEP },
    );
    let most: Single = size.mul(Single { bits: MOST_STEP_SHARE }).max(least);
    size.mul(spacing).mul(stretch).clamp(least, most)
}

/// How far a stamp is narrowed along the motion.
pub fn axis_scale_at(size: Single, speed: Single) -> (r: Single)
    ensures
        r@ == axis_scale_of(size@, speed@),
{
    proof {
        reveal(axis_scale_of);
        single::lemma_value_order(ZERO, ONE);
        single::lemma_value_order(LEAST_AXIS, ONE);
    }
    let one: Single = Single { bits: ONE };
    let large: Single = size.sub(Single { bits: SMALL_BRUSH }).div(
        Single { bits: BRUSH_RANGE },
    ).clamp(Single { bits: ZERO }, one);
    one.sub(speed.mul(large).mul(Single { bits: AXIS_GAIN })).clamp(
        Single { bits: LEAST_AXIS },
        one,
    )
}

/// How much of its paint a stamp lays down.
pub fn flow_scale_at(speed: Single) -> (r: Single)
    ensures
        r@ == flow_scale_of(speed@),
{
    proof {
        reveal(flow_scale_of);
        single::lemma_value_order(LEAST_FLOW, ONE);
    }
    let one: Single = Single { bits: ONE };
    one.div(one.add(speed.mul(Single { bits: FLOW_GAIN }))).clamp(
        Single { bits: LEAST_FLOW },
        one,
    )
}

/// The way since the last stamp that counts towards the next.
pub fn carry_for(carry: Single, step: Single) -> (r: Single)
    ensures
        r@ == carried(carry@, step@),
{
    proof {
        reveal(carried);
    }
    carry.min(step.sub(Single { bits: STEP_MARGIN }).max(Single { bits: ZERO }))
}

/// How far along a segment its first stamp stands.
pub fn offset_for(carry: Single, step: Single) -> (r: Single)
    ensures
        r@ == first_offset(carry@, step@),
{
    proof {
        reveal(first_offset);
    }
    if carry.le(Single { bits: ZERO }) {
        step
    } else {
        step.sub(carry)
    }
}

/// The way since the last stamp once a segment is done.
pub fn carry_past(carry: Single, dist: Single, step: Single) -> (r: Single)
    ensures
        r@ == carry_after(carry@, dist@, step@),
{
    proof {
        reveal(carry_after);
    }
    let zero: Single = Single { bits: ZERO };
    if zero.lt(step) {
        carry.add(dist).rem(step)
    } else {
        zero
    }
}

/// A stamp and a run of stamps are, as values, what their parts are as values.
pub proof fn law_stamps_as_values(sample: StampSample, run: StampRun)
    ensures
        sample@.pos.x == sample.pos.x@ && sample@.pos.y == sample.pos.y@,
        sample@.dir.x == sample.dir.x@ && sample@.dir.y == sample.dir.y@,
        sample@.axis_scale == sample.axis_scale@,
        sample@.flow_scale == sample.flow_scale@,
        run@.from.x == run.from.x@ && run@.from.y == run.from.y@,
        run@.heading.x == run.heading.x@ && run@.heading.y == run.heading.y@,
        run@.dist == run.dist@,
        run@.offset == run.offset@,
        run@.step == run.step@,
        run@.dir.x == run.dir.x@ && run@.dir.y == run.dir.y@,
        run@.axis_scale == run.axis_scale@,
        run@.flow_scale == run.flow_scale@,
{
}

/// Points as pairs of numbers are as many, and in the same order.
pub proof fn law_places_are_the_points(points: Seq<Point>, i: int)
    requires
        0 <= i < points.len(),
    ensures
        places(points).len() == points.len(),
        places(points)[i].x == points[i].x@,
        places(points)[i].y == points[i].y@,
{
}

} // verus!
