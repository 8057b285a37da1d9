//! When two ways lead in the same direction.

use crate::binary32::error;
use vstd::prelude::*;

verus! {

/// Two ways of which one is all but a multiple of the other do not lead apart.
proof fn lemma_apart(x: real, y: real, ex: real, ey: real)
    requires
        error::size(x) <= 9 as real,
        error::size(y) <= 9 as real,
        error::size(ex) <= 1 as real / 100000 as real,
        error::size(ey) <= 1 as real / 100000 as real,
    ensures
        error::size((x + ex) * y - (y + ey) * x) <= 18 as real / 100000 as real,
{
    error::lemma_bounded_product(ex, y, 1 as real / 100000 as real, 9 as real);
    error::lemma_bounded_product(ey, x, 1 as real / 100000 as real, 9 as real);
    error::lemma_spread(x, ex, y);
    error::lemma_spread(y, ey, x);
    error::lemma_factors(x, y, y);
}

/// Nor do they lead back.
proof fn lemma_together(x: real, y: real, ex: real, ey: real)
    requires
        error::size(x) <= 9 as real,
        error::size(y) <= 9 as real,
        error::size(ex) <= 1 as real / 100000 as real,
        error::size(ey) <= 1 as real / 100000 as real,
        x * x + y * y >= 1 as real / 5 as real,
    ensures
        (x + ex) * x + (y + ey) * y >= 19 as real / 100 as real,
{
    error::lemma_bounded_product(ex, x, 1 as real / 100000 as real, 9 as real);
    error::lemma_bounded_product(ey, y, 1 as real / 100000 as real, 9 as real);
    error::lemma_spread(x, ex, x);
    error::lemma_spread(y, ey, y);
}

/// A bound on a number from a bound on its multiple.
proof fn lemma_unscaled(a: real, l: real)
    requires
        1 as real / 4 as real <= l,
        error::size(a * l) <= 18 as real / 100000 as real,
    ensures
        error::size(a) <= 8 as real / 10000 as real,
{
    let e = 8 as real / 10000 as real;
    assert(e * l == 8 as real * l / 10000 as real);
    assert((-e) * l == -(8 as real * l / 10000 as real));
    error::lemma_cancel(a, e, l);
    error::lemma_cancel(-e, a, l);
}

/// Changing one of two ways a little changes little of how they stand to each other.
proof fn lemma_shifted(qx: real, qy: real, x: real, y: real, rx: real, ry: real)
    requires
        error::size(qx) <= 2 as real,
        error::size(qy) <= 2 as real,
        error::size(x - rx) <= 1 as real / 500000 as real,
        error::size(y - ry) <= 1 as real / 500000 as real,
    ensures
        error::size((qx * ry - qy * rx) - (qx * y - qy * x)) <= 1 as real / 100000 as real,
        error::size((qx * rx + qy * ry) - (qx * x + qy * y)) <= 1 as real / 100000 as real,
{
    let fx = rx - x;
    let fy = ry - y;
    let f = 1 as real / 500000 as real;
    error::lemma_bounded_product(qx, fy, 2 as real, f);
    error::lemma_bounded_product(qy, fx, 2 as real, f);
    error::lemma_bounded_product(qx, fx, 2 as real, f);
    error::lemma_bounded_product(qy, fy, 2 as real, f);
    lemma_less(qx, ry, y);
    lemma_less(qy, rx, x);
    lemma_less(qx, rx, x);
    lemma_less(qy, ry, y);
}

/// A product with a difference.
proof fn lemma_less(a: real, b: real, c: real)
    ensures
        a * (b - c) == a * b - a * c,
{
    assert(a * (b - c) == a * b - a * c) by (nonlinear_arith);
}

/// A way divided by its length leads in the same direction.
pub proof fn lemma_same_direction(
    x: real,
    y: real,
    l: real,
    qx: real,
    qy: real,
    rx: real,
    ry: real,
)
    requires
        1 as real / 4 as real <= l <= 20 as real,
        error::size(x) <= 9 as real,
        error::size(y) <= 9 as real,
        error::size(qx) <= 2 as real,
        error::size(qy) <= 2 as real,
        error::size(qx * l - x) <= 1 as real / 100000 as real,
        error::size(qy * l - y) <= 1 as real / 100000 as real,
        error::size(x - rx) <= 1 as real / 500000 as real,
        error::size(y - ry) <= 1 as real / 500000 as real,
        x * x + y * y >= 1 as real / 5 as real,
    ensures
        error::size(qx * ry - qy * rx) <= 1 as real / 1000 as real,
        qx * rx + qy * ry > 0 as real,
{
    let ex = qx * l - x;
    let ey = qy * l - y;
    assert(error::size(qx * y - qy * x) <= 8 as real / 10000 as real) by {
        error::lemma_spread(qx * y, qy * x, l);
        error::lemma_factors(qx, y, l);
        error::lemma_factors(qy, x, l);
        lemma_apart(x, y, ex, ey);
        assert(x + ex == qx * l && y + ey == qy * l);
        lemma_unscaled(qx * y - qy * x, l);
    }
    assert(qx * x + qy * y >= 9 as real / 1000 as real) by {
        error::lemma_spread(qx * x, qy * y, l);
        error::lemma_factors(qx, x, l);
        error::lemma_factors(qy, y, l);
        lemma_together(x, y, ex, ey);
        assert(x + ex == qx * l && y + ey == qy * l);
        let b = 9 as real / 1000 as real;
        assert(b * l == 9 as real * l / 1000 as real);
        error::lemma_cancel(b, qx * x + qy * y, l);
    }
    lemma_shifted(qx, qy, x, y, rx, ry);
}

} // verus!
