//! Points of the plane.

use crate::binary32::num::Num;
use crate::binary32::single::Single;
use vstd::prelude::*;

verus! {

/// A point, as a pair of numbers.
pub struct Place {
    pub x: Num,
    pub y: Num,
}

impl Place {
    /// The way from `self` to `other`.
    pub open spec fn to(self, other: Place) -> Place {
        Place { x: other.x.minus(self.x), y: other.y.minus(self.y) }
    }

    /// The length of a way.
    pub open spec fn length(self) -> Num {
        self.x.times(self.x).plus(self.y.times(self.y)).square_root()
    }

    /// The way with both parts divided by `d`.
    pub open spec fn shrunk(self, d: Num) -> Place {
        Place { x: self.x.over(d), y: self.y.over(d) }
    }

    /// The point at `t` times the way `way` from here.
    pub open spec fn along(self, way: Place, t: Num) -> Place {
        Place { x: self.x.plus(way.x.times(t)), y: self.y.plus(way.y.times(t)) }
    }

    /// The sum of two points.
    pub open spec fn offset(self, way: Place) -> Place {
        Place { x: self.x.plus(way.x), y: self.y.plus(way.y) }
    }
}

/// A point.
#[derive(Clone, Copy, Debug)]
pub struct Point {
    pub x: Single,
    pub y: Single,
}

impl View for Point {
    type V = Place;

    open spec fn view(&self) -> Place {
        Place { x: self.x@, y: self.y@ }
    }
}

impl Point {
    /// The way from `self` to `other`.
    pub fn to(self, other: Point) -> (r: Point)
        ensures
            r@ == self@.to(other@),
    {
        Point { x: other.x.sub(self.x), y: other.y.sub(self.y) }
    }

    /// The length of a way.
    pub fn length(self) -> (r: Single)
        ensures
            r@ == self@.length(),
    {
        self.x.mul(self.x).add(self.y.mul(self.y)).sqrt()
    }

    /// The way with both parts divided by `d`.
    pub fn shrunk(self, d: Single) -> (r: Point)
        ensures
            r@ == self@.shrunk(d@),
    {
        Point { x: self.x.div(d), y: self.y.div(d) }
    }

    /// The point at `t` times the way `way` from here.
    pub fn along(self, way: Point, t: Single) -> (r: Point)
        ensures
            r@ == self@.along(way@, t@),
    {
        Point { x: self.x.add(way.x.mul(t)), y: self.y.add(way.y.mul(t)) }
    }

    /// The sum of two points.
    pub fn offset(self, way: Point) -> (r: Point)
        ensures
            r@ == self@.offset(way@),
    {
        Point { x: self.x.add(way.x), y: self.y.add(way.y) }
    }
}

} // verus!
