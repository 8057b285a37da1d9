//! The operations keep the order of their operands, or reverse it.

use super::error;
use super::num::Num;
use super::rounding;
use super::single;
use super::single::Single;
use vstd::arithmetic::div_mod;
use vstd::arithmetic::mul;
use vstd::arithmetic::power2;
use vstd::prelude::*;

verus! {

/// A magnitude has at most 24 bits above its spacing exponent.
proof fn lemma_spacing_most(n: nat, d: nat)
    requires
        d > 0,
    ensures
        n < d * power2::pow2(24) * power2::pow2(Num::spacing(n, d)),
    decreases Num::spacing(n, d),
{
    let k = Num::spacing(n, d);
    power2::lemma2_to64();
    if k == 0 {
        assert(d * power2::pow2(24) * 1 == d * power2::pow2(24));
    } else {
        lemma_spacing_most(n, 2 * d);
        power2::lemma_pow2_unfold(k);
        let a = power2::pow2(24) as int;
        let b = power2::pow2((k - 1) as nat) as int;
        assert((2 * d) * a * b == d * a * (2 * b)) by (nonlinear_arith);
    }
}

/// The greater the magnitude, the wider the spacing.
proof fn lemma_spacing_order(a: nat, b: nat, d: nat)
    requires
        d > 0,
        a <= b,
    ensures
        Num::spacing(a, d) <= Num::spacing(b, d),
    decreases Num::spacing(a, d),
{
    if Num::spacing(a, d) > 0 {
        lemma_spacing_order(a, b, 2 * d);
    }
}

/// Rounding to whole numbers keeps the order.
proof fn lemma_nearest_order(a: nat, b: nat, w: nat)
    requires
        w > 0,
        a <= b,
    ensures
        Num::nearest_even(a, w) <= Num::nearest_even(b, w),
{
    div_mod::lemma_div_is_ordered(a as int, b as int, w as int);
    div_mod::lemma_fundamental_div_mod(a as int, w as int);
    div_mod::lemma_fundamental_div_mod(b as int, w as int);
}

/// Rounding to the format keeps the order.
pub proof fn lemma_round_order(a: nat, b: nat, d: nat)
    requires
        d > 0,
        a <= b,
    ensures
        Num::round_units(a, d) <= Num::round_units(b, d),
{
    let i = Num::spacing(a, d);
    let j = Num::spacing(b, d);
    lemma_spacing_order(a, b, d);
    let u = power2::pow2(i);
    let v = power2::pow2(j);
    power2::lemma_pow2_pos(i);
    power2::lemma_pow2_pos(j);
    mul::lemma_mul_strictly_positive(d as int, u as int);
    mul::lemma_mul_strictly_positive(d as int, v as int);
    let x = Num::nearest_even(a, d * u);
    let y = Num::nearest_even(b, d * v);
    if i == j {
        lemma_nearest_order(a, b, d * u);
        mul::lemma_mul_inequality(x as int, y as int, u as int);
    } else {
        power2::lemma2_to64();
        lemma_spacing_most(a, d);
        error::lemma_spacing_least(b, d);
        let wide = (d * u) as int;
        let far = (d * v) as int;
        div_mod::lemma_fundamental_div_mod(a as int, wide);
        div_mod::lemma_fundamental_div_mod(b as int, far);
        let p = a as int / wide;
        let q = b as int / far;
        assert(p < 0x100_0000) by (nonlinear_arith)
            requires
                a < d * 0x100_0000 * u,
                wide == d * u,
                wide > 0,
                a >= wide * p,
        ;
        assert(q >= 0x80_0000) by (nonlinear_arith)
            requires
                b >= d * 0x80_0000 * v,
                far == d * v,
                far > 0,
                b < far * q + far,
        ;
        assert(x <= 0x100_0000);
        assert(y >= 0x80_0000);
        power2::lemma_pow2_unfold(i + 1);
        if i + 1 < j {
            power2::lemma_pow2_strictly_increases(i + 1, j);
        }
        assert(x * u <= y * v) by (nonlinear_arith)
            requires
                0 <= x <= 0x100_0000,
                y >= 0x80_0000,
                v >= 2 * u,
                u > 0,
        ;
    }
}

/// Zero is rounded to zero.
pub proof fn lemma_round_zero(d: nat)
    requires
        d > 0,
    ensures
        Num::round_units(0, d) == 0,
{
    power2::lemma2_to64();
    mul::lemma_mul_strictly_positive(d as int, power2::pow2(24) as int);
    mul::lemma_mul_basics(d as int);
    assert(Num::spacing(0, d) == 0);
    div_mod::lemma_div_of0(d as int);
    div_mod::lemma_small_mod(0, d);
}

/// The spacing rests on the quotient alone.
proof fn lemma_spacing_scale(n: nat, d: nat, g: nat)
    requires
        d > 0,
        g > 0,
    ensures
        Num::spacing(n * g, d * g) == Num::spacing(n, d),
    decreases Num::spacing(n, d),
{
    let h = power2::pow2(24);
    mul::lemma_mul_strictly_positive(d as int, g as int);
    assert((d * g) * h == (d * h) * g) by (nonlinear_arith);
    assert(n < d * h <==> n * g < (d * h) * g) by (nonlinear_arith)
        requires
            g > 0,
    ;
    if n >= d * h {
        lemma_spacing_scale(n, 2 * d, g);
        assert((2 * d) * g == 2 * (d * g)) by (nonlinear_arith);
    }
}

/// Rounding rests on the quotient alone.
proof fn lemma_round_scale(n: nat, d: nat, g: nat)
    requires
        d > 0,
        g > 0,
    ensures
        Num::round_units(n * g, d * g) == Num::round_units(n, d),
{
    lemma_spacing_scale(n, d, g);
    let u = power2::pow2(Num::spacing(n, d));
    power2::lemma_pow2_pos(Num::spacing(n, d));
    mul::lemma_mul_strictly_positive(d as int, u as int);
    rounding::lemma_nearest_scale(n, d * u, g);
    assert((d * g) * u == (d * u) * g) by (nonlinear_arith);
}

/// The greater the divisor, the less is rounded.
proof fn lemma_round_divisor_order(n: nat, d: nat, e: nat)
    requires
        0 < d <= e,
    ensures
        Num::round_units(n, e) <= Num::round_units(n, d),
{
    lemma_round_scale(n, d, e);
    lemma_round_scale(n, e, d);
    mul::lemma_mul_strictly_positive(d as int, e as int);
    mul::lemma_mul_is_commutative(d as int, e as int);
    mul::lemma_mul_inequality(d as int, e as int, n as int);
    mul::lemma_mul_is_commutative(n as int, d as int);
    mul::lemma_mul_is_commutative(n as int, e as int);
    lemma_round_order(n * d, n * e, d * e);
}

/// The place of the number that a signed magnitude of `n / d` units is rounded to.
pub open spec fn rounded_place(n: int, d: nat) -> int {
    if n < 0 {
        Num::rounded(true, (-n) as nat, d).place()
    } else {
        Num::rounded(false, n as nat, d).place()
    }
}

/// Rounding signed magnitudes keeps the order.
proof fn lemma_rounded_place_order(a: int, b: int, d: nat)
    requires
        d > 0,
        a <= b,
    ensures
        rounded_place(a, d) <= rounded_place(b, d),
        rounded_place(0, d) == 0,
        -(Num::limit_units() as int) <= rounded_place(a, d),
        rounded_place(b, d) <= Num::limit_units(),
{
    power2::lemma_pow2_pos(277);
    lemma_round_zero(d);
    if a >= 0 {
        lemma_round_order(a as nat, b as nat, d);
    } else if b < 0 {
        lemma_round_order((-b) as nat, (-a) as nat, d);
    }
}

/// Whether a number lies within the limit of the format, or is infinite.
pub open spec fn within_limit(x: Num) -> bool {
    x is Finite ==> -(Num::limit_units() as int) < x.place() < Num::limit_units()
}

/// `x <= y`, with infinity beyond everything finite.
pub open spec fn in_order(x: Num, y: Num) -> bool {
    &&& x.at_most(y)
    &&& x is Infinite && x.place() > 0 ==> y is Infinite
    &&& y is Infinite && y.place() < 0 ==> x is Infinite
}

/// A sum of finite numbers stands where the exact sum is rounded to.
proof fn lemma_plus_place(x: Num, y: Num)
    requires
        x is Finite,
        y is Finite,
    ensures
        x.plus(y).place() == rounded_place(x.place() + y.place(), 1),
        !(x.plus(y) is Nan),
        within_limit(x.plus(y)),
{
    reveal(Num::plus);
    power2::lemma_pow2_pos(277);
    lemma_rounded_place_order(0, 0, 1);
}

/// A sum grows with its second operand.
pub proof fn lemma_plus_order(x: Num, y: Num, z: Num)
    requires
        in_order(y, z),
        !(x.plus(y) is Nan),
        !(x.plus(z) is Nan),
    ensures
        x.plus(y).at_most(x.plus(z)),
        x is Finite ==> in_order(x.plus(y), x.plus(z)),
{
    power2::lemma_pow2_pos(277);
    if x is Finite && y is Finite {
        lemma_plus_place(x, y);
        lemma_rounded_place_order(x.place() + y.place(), x.place() + y.place(), 1);
    }
    if x is Finite && z is Finite {
        lemma_plus_place(x, z);
        lemma_rounded_place_order(x.place() + z.place(), x.place() + z.place(), 1);
    }
    if x is Finite && y is Finite && z is Finite {
        lemma_rounded_place_order(x.place() + y.place(), x.place() + z.place(), 1);
    } else {
        reveal(Num::plus);
    }
}

/// A product of finite numbers stands where the exact product is rounded to.
proof fn lemma_times_place(x: Num, y: Num)
    requires
        x is Finite,
        y is Finite,
    ensures
        x.times(y).place() == rounded_place(x.place() * y.place(), Num::one_units()),
        !(x.times(y) is Nan),
        within_limit(x.times(y)),
{
    reveal(Num::times);
    power2::lemma_pow2_pos(277);
    power2::lemma_pow2_pos(149);
    let m = x->units as int;
    let n = y->units as int;
    lemma_rounded_place_order(0, 0, Num::one_units());
    assert((-m) * n == -(m * n)) by (nonlinear_arith);
    assert(m * (-n) == -(m * n)) by (nonlinear_arith);
    assert((-m) * (-n) == m * n) by (nonlinear_arith);
    mul::lemma_mul_nonnegative(m, n);
}

/// A product with a number that is not negative grows with its first operand.
pub proof fn lemma_times_order(x: Num, y: Num, z: Num)
    requires
        x is Finite,
        x.place() >= 0,
        in_order(y, z),
        !(y.times(x) is Nan),
        !(z.times(x) is Nan),
    ensures
        in_order(y.times(x), z.times(x)),
{
    power2::lemma_pow2_pos(277);
    power2::lemma_pow2_pos(149);
    let one = Num::one_units();
    if y is Finite {
        lemma_times_place(y, x);
        lemma_rounded_place_order(y.place() * x.place(), y.place() * x.place(), one);
    }
    if z is Finite {
        lemma_times_place(z, x);
        lemma_rounded_place_order(z.place() * x.place(), z.place() * x.place(), one);
    }
    if y is Finite && z is Finite {
        mul::lemma_mul_inequality(y.place(), z.place(), x.place());
        lemma_rounded_place_order(y.place() * x.place(), z.place() * x.place(), one);
    } else {
        reveal(Num::times);
    }
}

/// The operands of a product may be exchanged.
pub proof fn lemma_times_commutes(x: Num, y: Num)
    ensures
        x.times(y) == y.times(x),
{
    reveal(Num::times);
    if x is Finite && y is Finite {
        mul::lemma_mul_is_commutative(x->units as int, y->units as int);
    }
}

/// A product of numbers that are not negative is not negative.
pub proof fn lemma_product_of_nonneg(x: Num, y: Num)
    requires
        x.place() >= 0,
        y.place() >= 0,
        !(x.times(y) is Nan),
    ensures
        x.times(y).place() >= 0,
{
    power2::lemma_pow2_pos(277);
    power2::lemma_pow2_pos(149);
    if x is Finite && y is Finite {
        lemma_times_place(x, y);
        mul::lemma_mul_nonnegative(x.place(), y.place());
        lemma_rounded_place_order(0, x.place() * y.place(), Num::one_units());
    } else {
        reveal(Num::times);
    }
}

/// A product of a number that is not negative with one that is not positive is not positive.
pub proof fn lemma_product_of_nonneg_and_not(x: Num, y: Num)
    requires
        x is Finite,
        y is Finite,
        x.place() >= 0,
        y.place() <= 0,
    ensures
        !(x.times(y) is Nan),
        x.times(y).place() <= 0,
{
    power2::lemma_pow2_pos(149);
    lemma_times_place(x, y);
    let p = x.place();
    let q = y.place();
    assert(p * q <= 0) by (nonlinear_arith)
        requires
            p >= 0,
            q <= 0,
    ;
    lemma_rounded_place_order(p * q, 0, Num::one_units());
}

/// A quotient grows with its dividend.
pub proof fn lemma_over_order(y: Num, z: Num, d: Num)
    requires
        d is Finite,
        d.place() > 0,
        y.place() >= 0,
        in_order(y, z),
    ensures
        in_order(y.over(d), z.over(d)),
        y.over(d).place() >= 0,
{
    reveal(Num::over);
    power2::lemma_pow2_pos(277);
    power2::lemma_pow2_pos(149);
    let one = Num::one_units();
    let n = d->units;
    lemma_round_zero(n);
    mul::lemma_mul_basics(one as int);
    if y is Finite && z is Finite {
        mul::lemma_mul_inequality(y->units as int, z->units as int, one as int);
        lemma_round_order(y->units * one, z->units * one, n);
    }
}

/// A quotient shrinks as its divisor grows.
pub proof fn lemma_over_divisor_order(x: Num, y: Num, z: Num)
    requires
        x is Finite,
        x.place() >= 0,
        y.place() > 0,
        in_order(y, z),
    ensures
        in_order(x.over(z), x.over(y)),
        x.over(z).place() >= 0,
{
    reveal(Num::over);
    power2::lemma_pow2_pos(277);
    power2::lemma_pow2_pos(149);
    let one = Num::one_units();
    let m = x->units * one;
    mul::lemma_mul_basics(one as int);
    if y is Finite {
        lemma_round_zero(y->units);
        if z is Finite {
            lemma_round_zero(z->units);
            lemma_round_divisor_order(m, y->units, z->units);
        }
    }
}

/// The opposites of two numbers are in the opposite order.
pub proof fn lemma_negated_order(x: Num, y: Num)
    requires
        in_order(x, y),
    ensures
        in_order(y.negated(), x.negated()),
{
    power2::lemma_pow2_pos(277);
}

/// Keeping two numbers within bounds keeps their order.
pub proof fn lemma_clamped_order(x: Num, y: Num, low: Num, high: Num)
    requires
        x.at_most(y),
        low.at_most(high),
    ensures
        x.clamped(low, high).at_most(y.clamped(low, high)),
        low.at_most(x.clamped(low, high)),
        y.clamped(low, high).at_most(high),
{
}

/// Whether a number is one of the format: rounding leaves it as it is.
pub open spec fn in_format(x: Num) -> bool {
    x is Finite ==> Num::rounded(x->Finite_negative, x->units, 1) == x
}

/// What was rounded to the format is of the format.
proof fn lemma_rounded_in_format(negative: bool, n: nat, d: nat)
    requires
        d > 0,
    ensures
        in_format(Num::rounded(negative, n, d)),
{
    let k = Num::spacing(n, d);
    let g = power2::pow2(k);
    power2::lemma2_to64();
    power2::lemma_pow2_pos(k);
    mul::lemma_mul_strictly_positive(d as int, g as int);
    lemma_spacing_most(n, d);
    let wide = (d * g) as int;
    div_mod::lemma_fundamental_div_mod(n as int, wide);
    let p = n as int / wide;
    assert(p < 0x100_0000) by (nonlinear_arith)
        requires
            n < d * 0x100_0000 * g,
            wide == d * g,
            wide > 0,
            n >= wide * p,
    ;
    let q = Num::nearest_even(n, d * g);
    if q < 0x100_0000 {
        rounding::lemma_round_exact(q, k);
    } else {
        power2::lemma_pow2_unfold(k + 1);
        assert(0x100_0000 * g == 0x80_0000 * (2 * g));
        rounding::lemma_round_exact(0x80_0000, k + 1);
    }
}

/// A product is of the format.
pub proof fn lemma_times_in_format(x: Num, y: Num)
    ensures
        in_format(x.times(y)),
{
    reveal(Num::times);
    power2::lemma_pow2_pos(149);
    if x is Finite && y is Finite {
        lemma_rounded_in_format(
            x->Finite_negative != y->Finite_negative,
            x->units * y->units,
            Num::one_units(),
        );
    }
}

/// A sum of finite numbers is of the format.
pub proof fn lemma_plus_in_format(x: Num, y: Num)
    requires
        x is Finite,
        y is Finite,
    ensures
        in_format(x.plus(y)),
{
    reveal(Num::plus);
    power2::lemma_pow2_pos(277);
    lemma_round_zero(1);
    let sum = x.place() + y.place();
    if sum < 0 {
        lemma_rounded_in_format(true, (-sum) as nat, 1);
    } else {
        lemma_rounded_in_format(false, sum as nat, 1);
    }
}

/// Adding zero leaves a number of the format where it is.
pub proof fn lemma_plus_zero(x: Num)
    requires
        x is Finite,
        in_format(x),
    ensures
        x.plus(Num::zero()).place() == x.place(),
        !(x.plus(Num::zero()) is Nan),
        within_limit(x),
{
    lemma_plus_place(x, Num::zero());
    power2::lemma_pow2_pos(277);
    lemma_round_zero(1);
}

/// A part of a number of the format is no greater than the number.
pub proof fn lemma_part_at_most(x: Num, gain: Num)
    requires
        x is Finite,
        in_format(x),
        x.place() >= 0,
        gain is Finite,
        0 <= gain.place() <= Num::one_units(),
    ensures
        !(x.times(gain) is Nan),
        0 <= x.times(gain).place() <= x.place(),
{
    let one = Num::one_units();
    power2::lemma_pow2_pos(277);
    power2::lemma_pow2_pos(149);
    lemma_times_place(x, gain);
    mul::lemma_mul_nonnegative(x.place(), gain.place());
    mul::lemma_mul_inequality(gain.place(), one as int, x.place());
    mul::lemma_mul_is_commutative(x.place(), gain.place());
    mul::lemma_mul_is_commutative(x.place(), one as int);
    lemma_rounded_place_order(0, x.place() * gain.place(), one);
    lemma_rounded_place_order(x.place() * gain.place(), x.place() * one, one);
    lemma_round_scale(x->units, 1, one);
    mul::lemma_mul_basics(one as int);
    lemma_round_zero(1);
}

/// One leaves what it is multiplied with as it is.
pub proof fn lemma_times_one(x: Num)
    requires
        x is Finite,
        in_format(x),
    ensures
        x.times(Num::Finite { negative: false, units: Num::one_units() }) == x,
{
    reveal(Num::times);
    power2::lemma_pow2_pos(149);
    lemma_round_scale(x->units, 1, Num::one_units());
    mul::lemma_mul_basics(Num::one_units() as int);
}

/// Multiplying with no less than one brings a number no nearer to zero, and leaves its sign.
pub proof fn lemma_times_more(x: Num, y: Num)
    requires
        x is Finite,
        in_format(x),
        y is Finite,
        y.place() >= Num::one_units(),
    ensures
        !(x.times(y) is Nan),
        x.times(y).place() < 0 <==> x.place() < 0,
{
    let one = Num::one_units();
    power2::lemma_pow2_pos(277);
    power2::lemma_pow2_pos(149);
    lemma_times_place(x, y);
    let p = x.place();
    let q = y.place();
    lemma_round_scale(x->units, 1, one);
    mul::lemma_mul_basics(one as int);
    lemma_round_zero(one);
    if p < 0 {
        assert(p * q <= p * one) by (nonlinear_arith)
            requires
                p < 0,
                q >= one,
        ;
        lemma_rounded_place_order(p * q, p * one, one);
        assert((-p) * one == -(p * one)) by (nonlinear_arith);
        assert(rounded_place(p * one, one) == p) by {
            assert(p * one < 0) by (nonlinear_arith)
                requires
                    p < 0,
                    one > 0,
            ;
        }
    } else {
        mul::lemma_mul_nonnegative(p, q);
        lemma_rounded_place_order(0, p * q, one);
    }
}

/// The number that a pattern stands for is of the format.
pub proof fn lemma_single_in_format(x: Single)
    ensures
        in_format(x@),
{
    if x@ is Finite {
        single::lemma_exact(x);
    }
}

/// Taking away no more than there is leaves what is not negative, and no more than there
/// was.
pub proof fn lemma_minus_format(x: Num, y: Num)
    requires
        x is Finite,
        in_format(x),
        y is Finite,
        0 <= y.place() <= x.place(),
    ensures
        x.minus(y) is Finite,
        0 <= x.minus(y).place() <= x.place(),
{
    lemma_plus_place(x, y.negated());
    lemma_rounded_place_order(0, x.place() - y.place(), 1);
    lemma_rounded_place_order(x.place() - y.place(), x.place(), 1);
    power2::lemma_pow2_pos(277);
    assert(rounded_place(x.place(), 1) == x.place()) by {
        lemma_round_zero(1);
    }
    assert(x.place() < Num::limit_units());
}

/// The sum of numbers that are not negative is not negative.
pub proof fn lemma_sum_of_nonneg(x: Num, y: Num)
    requires
        x is Finite,
        y is Finite,
        x.place() >= 0,
        y.place() >= 0,
    ensures
        !(x.plus(y) is Nan),
        x.plus(y).place() >= 0,
{
    lemma_plus_place(x, y);
    lemma_rounded_place_order(0, x.place() + y.place(), 1);
}

} // verus!
