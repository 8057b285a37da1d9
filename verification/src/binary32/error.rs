//! How far rounding leads away from exact arithmetic.
//!
//! Here numbers are taken for the real numbers that they stand for. Each operation
//! differs from the exact one by a small share of its result, and by next to nothing
//! where the result is too small for the format.

use super::num::Num;
use super::root;
use super::rounding;
use super::single;
use super::single::Single;
use vstd::arithmetic::div_mod;
use vstd::arithmetic::power2;
use vstd::prelude::*;

verus! {

/// The real number that a finite value stands for.
pub open spec fn amount(n: Num) -> real {
    n.place() as real / Num::one_units() as real
}

/// The greatest error of rounding the exact result `v`: 2^-24 of it, and 2^-48 more
/// for the results that are too small for the format.
pub open spec fn slack(v: real) -> real {
    size(v) / 16777216 as real + 1 as real / 281474976710656 as real
}

/// The size of a number without its sign.
pub open spec fn size(v: real) -> real {
    if v < 0 as real {
        -v
    } else {
        v
    }
}

/// A bound far from the limit of the format: 2^126.
pub open spec fn large() -> real {
    power2::pow2(126) as real
}

/// Whether a value is finite and at most `e` away from `v`.
pub open spec fn near(x: Num, v: real, e: real) -> bool {
    x is Finite && size(amount(x) - v) <= e
}

/// Whether a value is what rounding may make of the exact result `v`.
pub open spec fn rounded_from(x: Num, v: real) -> bool {
    near(x, v, slack(v))
}

/// The product of numbers that are not negative is not negative.
pub proof fn lemma_nonneg(a: real, b: real)
    requires
        a >= 0 as real,
        b >= 0 as real,
    ensures
        a * b >= 0 as real,
{
    assert(a * b >= 0 as real) by (nonlinear_arith)
        requires
            a >= 0 as real,
            b >= 0 as real,
    ;
}

/// A sum and a difference, scaled.
pub proof fn lemma_spread(p: real, q: real, l: real)
    ensures
        (p - q) * l == p * l - q * l,
        (p + q) * l == p * l + q * l,
{
    assert((p - q) * l == p * l - q * l) by (nonlinear_arith);
    assert((p + q) * l == p * l + q * l) by (nonlinear_arith);
}

/// The factors of a product may be taken in any order.
pub proof fn lemma_factors(a: real, b: real, l: real)
    ensures
        (a * b) * l == (a * l) * b,
        (a * b) * l == a * (b * l),
        a * b == b * a,
{
    assert((a * b) * l == (a * l) * b) by (nonlinear_arith);
    assert((a * b) * l == a * (b * l)) by (nonlinear_arith);
    assert(a * b == b * a) by (nonlinear_arith);
}

/// A positive factor may be left out on both sides.
pub proof fn lemma_cancel(x: real, y: real, h: real)
    requires
        x * h <= y * h,
        h > 0 as real,
    ensures
        x <= y,
{
    assert(x <= y) by (nonlinear_arith)
        requires
            x * h <= y * h,
            h > 0 as real,
    ;
}

/// The bound is far above anything on a canvas.
pub proof fn lemma_large()
    ensures
        large() >= 1000000 as real,
{
    power2::lemma2_to64();
    rounding::lemma_pow2_split(126, 20, 106);
    assert(power2::pow2(126) >= 1048576) by (nonlinear_arith)
        requires
            power2::pow2(126) == 1048576 * power2::pow2(106),
            power2::pow2(106) > 0,
    ;
}

/// The product of bounded numbers.
pub proof fn lemma_bounded_product(f: real, g: real, d: real, e: real)
    requires
        size(f) <= d,
        size(g) <= e,
    ensures
        size(f * g) <= d * e,
{
    lemma_nonneg(d - f, e + g);
    lemma_nonneg(d + f, e - g);
    lemma_nonneg(d - f, e - g);
    lemma_nonneg(d + f, e + g);
    assert((d - f) * (e + g) == d * e + d * g - f * e - f * g) by (nonlinear_arith);
    assert((d + f) * (e - g) == d * e - d * g + f * e - f * g) by (nonlinear_arith);
    assert((d - f) * (e - g) == d * e - d * g - f * e + f * g) by (nonlinear_arith);
    assert((d + f) * (e + g) == d * e + d * g + f * e + f * g) by (nonlinear_arith);
}

/// Rounding leads away by at most half of the spacing.
proof fn lemma_half_spacing(n: nat, d: nat)
    requires
        d > 0,
    ensures
        ({
            let s = power2::pow2(Num::spacing(n, d));
            -(d * s) <= 2 * (Num::round_units(n, d) * d - n) <= d * s
        }),
{
    let s = power2::pow2(Num::spacing(n, d));
    power2::lemma_pow2_pos(Num::spacing(n, d));
    assert(d * s > 0) by (nonlinear_arith)
        requires
            d > 0,
            0 < s,
    ;
    let wide = d * s;
    let q = Num::nearest_even(n, wide);
    div_mod::lemma_fundamental_div_mod(n as int, wide as int);
    let low = n / wide;
    assert(wide * (low + 1) == wide * low + wide) by (nonlinear_arith);
    assert((q * s) * d == wide * q) by (nonlinear_arith)
        requires
            wide == d * s,
    ;
}

/// A magnitude with a spacing exponent has at least 24 bits above it.
pub proof fn lemma_spacing_least(n: nat, d: nat)
    requires
        d > 0,
        Num::spacing(n, d) > 0,
    ensures
        n >= d * power2::pow2(23) * power2::pow2(Num::spacing(n, d)),
    decreases Num::spacing(n, d),
{
    let k = Num::spacing(n, d);
    power2::lemma2_to64();
    if k == 1 {
        assert(d * power2::pow2(23) * 2 == d * power2::pow2(24)) by (nonlinear_arith)
            requires
                power2::pow2(24) == 2 * power2::pow2(23),
        ;
    } else {
        lemma_spacing_least(n, 2 * d);
        power2::lemma_pow2_unfold(k);
        let a = power2::pow2(23) as int;
        let b = power2::pow2((k - 1) as nat) as int;
        assert((2 * d) * a * b == d * a * (2 * b)) by (nonlinear_arith);
    }
}

/// Rounding leads away by at most 2^-24 of the magnitude, or by half a unit.
proof fn lemma_share_error(n: nat, d: nat)
    requires
        d > 0,
    ensures
        ({
            let off = Num::round_units(n, d) * d - n;
            ||| -(d as int) <= 2 * off <= d
            ||| -(n as int) <= 16777216 * off <= n
        }),
{
    let k = Num::spacing(n, d);
    power2::lemma2_to64();
    lemma_half_spacing(n, d);
    let off = Num::round_units(n, d) * d - n;
    if k == 0 {
        assert(d * 1 == d);
    } else {
        lemma_spacing_least(n, d);
        let ds = d * power2::pow2(k);
        assert(n >= 8388608 * ds) by (nonlinear_arith)
            requires
                n >= d * 8388608 * power2::pow2(k),
                ds == d * power2::pow2(k),
        ;
    }
}

/// The product of two whole numbers, as reals.
pub proof fn lemma_cast_product(a: int, b: int)
    ensures
        (a * b) as real == (a as real) * (b as real),
{
    assert((a * b) as real == (a as real) * (b as real)) by (nonlinear_arith);
}

/// The error of rounding, in reals: where the result is known to be finite, or where the
/// exact one is far from the limit of the format.
pub proof fn lemma_rounded(negative: bool, n: nat, d: nat, v: real)
    requires
        d > 0,
        v * (d as real) * (Num::one_units() as real) == n as real,
        v <= large() || Num::rounded(negative, n, d) is Finite,
    ensures
        rounded_from(
            Num::rounded(negative, n, d),
            if negative {
                -v
            } else {
                v
            },
        ),
        Num::rounded(negative, n, d)->Finite_negative == negative,
        v >= 0 as real,
{
    let one = Num::one_units();
    let r = Num::round_units(n, d);
    power2::lemma2_to64();
    rounding::lemma_pow2_split(277, 149, 128);
    rounding::lemma_pow2_split(128, 126, 2);
    lemma_share_error(n, d);
    lemma_cast_product(r as int, d as int);
    let nr = n as real;
    let dr = d as real;
    let rr = r as real;
    let o = one as real;
    let off = rr * dr - nr;
    assert((r * d - n) as real == off);
    assert(o > 0 as real && dr >= 1 as real);
    assert(v >= 0 as real) by (nonlinear_arith)
        requires
            v * dr * o == nr,
            nr >= 0 as real,
            o > 0 as real,
            dr > 0 as real,
    ;
    let a = rr / o;
    assert(a * o == rr) by (nonlinear_arith)
        requires
            a == rr / o,
            o > 0 as real,
    ;
    lemma_many_units();
    let e = slack(v);
    let g = a - v;
    assert((a - v) * (o * dr) == (a * o) * dr - v * dr * o) by (nonlinear_arith);
    let h = o * dr;
    assert(h > 0 as real) by (nonlinear_arith)
        requires
            h == o * dr,
            o > 0 as real,
            dr > 0 as real,
    ;
    assert(g * h == off);
    if -dr <= 2 as real * off <= dr {
        assert((2 as real * g * o) * dr == 2 as real * (g * (o * dr))) by (nonlinear_arith);
        lemma_cancel(2 as real * g * o, 1 as real, dr);
        lemma_cancel(-1 as real, 2 as real * g * o, dr);
        let small = 1 as real / 281474976710656 as real;
        assert(small * o == o / 281474976710656 as real) by (nonlinear_arith)
            requires
                small == 1 as real / 281474976710656 as real,
        ;
        assert(2 as real * g * o == 2 as real * (g * o)) by (nonlinear_arith);
        assert((-small) * o == -(small * o)) by (nonlinear_arith);
        lemma_cancel(g, small, o);
        lemma_cancel(-small, g, o);
    } else {
        let wide = 16777216 as real * g;
        assert((16777216 as real * g) * h == 16777216 as real * (g * h)) by (nonlinear_arith);
        assert(v * dr * o == v * (o * dr)) by (nonlinear_arith);
        assert((-v) * h == -(v * h)) by (nonlinear_arith);
        lemma_cancel(wide, v, h);
        lemma_cancel(-v, wide, h);
    }
    assert(-e <= a - v <= e);
    lemma_cast_product(power2::pow2(149) as int, power2::pow2(128) as int);
    if v <= large() {
        let l = power2::pow2(126) as real;
        assert(power2::pow2(128) as real == 4 as real * l);
        assert(Num::limit_units() as real == o * (4 as real * l));
        assert(l >= 1 as real) by {
            power2::lemma_pow2_pos(126);
        }
        assert(a < 4 as real * l);
        assert(rr < o * (4 as real * l)) by (nonlinear_arith)
            requires
                a * o == rr,
                a < 4 as real * l,
                o > 0 as real,
        ;
    }
    let x = Num::rounded(negative, n, d);
    assert(x is Finite);
    if negative {
        assert(amount(x) == -a) by {
            assert(x.place() == -(r as int));
            assert(x.place() as real == -rr);
            assert((-rr) / o == -(rr / o)) by (nonlinear_arith)
                requires
                    o > 0 as real,
            ;
        }
    } else {
        assert(amount(x) == a);
    }
}

/// The place of a finite value, and its size.
pub proof fn lemma_amount(x: Num)
    requires
        x is Finite,
    ensures
        amount(x) * (Num::one_units() as real) == x.place() as real,
        size(amount(x)) * (Num::one_units() as real) == x->units as real,
        x->Finite_negative ==> amount(x) == -size(amount(x)),
        !x->Finite_negative ==> amount(x) == size(amount(x)),
        Num::one_units() as real > 0 as real,
        (amount(x) == 0 as real) == (x->units == 0),
{
    power2::lemma_pow2_pos(149);
    let o = Num::one_units() as real;
    let p = x.place() as real;
    let a = amount(x);
    assert(a * o == p) by (nonlinear_arith)
        requires
            a == p / o,
            o > 0 as real,
    ;
    assert((p >= 0 as real ==> a >= 0 as real) && (p <= 0 as real ==> a <= 0 as real)
        && (p > 0 as real ==> a > 0 as real) && (p < 0 as real ==> a < 0 as real))
        by (nonlinear_arith)
        requires
            a * o == p,
            o > 0 as real,
    ;
    assert((-a) * o == -(a * o)) by (nonlinear_arith);
}

/// The error of a product.
pub proof fn lemma_times(x: Num, y: Num)
    requires
        x is Finite,
        y is Finite,
        size(amount(x) * amount(y)) <= large() || x.times(y) is Finite,
    ensures
        rounded_from(x.times(y), amount(x) * amount(y)),
{
    reveal(Num::times);
    lemma_amount(x);
    lemma_amount(y);
    let m = x->units;
    let n = y->units;
    let o = Num::one_units();
    let a = size(amount(x));
    let b = size(amount(y));
    lemma_cast_product(m as int, n as int);
    let v = a * b;
    let mr = m as real;
    let nr = n as real;
    let or = o as real;
    assert(v * or * or == mr * nr) by (nonlinear_arith)
        requires
            v == a * b,
            a * or == mr,
            b * or == nr,
    ;
    let negative = x->Finite_negative != y->Finite_negative;
    let ax = amount(x);
    let ay = amount(y);
    assert(ax * ay == if negative {
        -v
    } else {
        v
    }) by (nonlinear_arith)
        requires
            v == a * b,
            ax == a || ax == -a,
            ay == b || ay == -b,
            negative ==> (ax == a && ay == -b) || (ax == -a && ay == b),
            !negative ==> (ax == a && ay == b) || (ax == -a && ay == -b),
    ;
    assert(v >= 0 as real) by (nonlinear_arith)
        requires
            v == a * b,
            a >= 0 as real,
            b >= 0 as real,
    ;
    lemma_rounded(negative, m * n, o, v);
}

/// The error of a quotient.
pub proof fn lemma_over(x: Num, y: Num)
    requires
        x is Finite,
        y is Finite,
        amount(y) != 0 as real,
        size(amount(x) / amount(y)) <= large() || x.over(y) is Finite,
    ensures
        rounded_from(x.over(y), amount(x) / amount(y)),
{
    reveal(Num::over);
    lemma_amount(x);
    lemma_amount(y);
    let m = x->units;
    let n = y->units;
    let o = Num::one_units();
    let a = size(amount(x));
    let b = size(amount(y));
    lemma_cast_product(m as int, o as int);
    let v = a / b;
    let mr = m as real;
    let nr = n as real;
    let or = o as real;
    assert(v * b == a) by (nonlinear_arith)
        requires
            v == a / b,
            b > 0 as real,
    ;
    assert(v * nr * or == mr * or) by (nonlinear_arith)
        requires
            v * b == a,
            a * or == mr,
            b * or == nr,
    ;
    let negative = x->Finite_negative != y->Finite_negative;
    let ax = amount(x);
    let ay = amount(y);
    let q = ax / ay;
    assert(q == if negative {
        -v
    } else {
        v
    }) by (nonlinear_arith)
        requires
            q == ax / ay,
            v * b == a,
            b > 0 as real,
            ay == b || ay == -b,
            negative ==> (ax == a && ay == -b) || (ax == -a && ay == b),
            !negative ==> (ax == a && ay == b) || (ax == -a && ay == -b),
    ;
    assert(v >= 0 as real) by (nonlinear_arith)
        requires
            v * b == a,
            a >= 0 as real,
            b > 0 as real,
    ;
    lemma_rounded(negative, m * o, n, v);
}

/// The error of a sum.
pub proof fn lemma_plus(x: Num, y: Num)
    requires
        x is Finite,
        y is Finite,
        size(amount(x) + amount(y)) <= large() || x.plus(y) is Finite,
    ensures
        rounded_from(x.plus(y), amount(x) + amount(y)),
{
    reveal(Num::plus);
    lemma_amount(x);
    lemma_amount(y);
    let o = Num::one_units() as real;
    let ax = amount(x);
    let ay = amount(y);
    let sum = x.place() + y.place();
    let s = sum as real;
    assert((ax + ay) * o == s) by (nonlinear_arith)
        requires
            ax * o == x.place() as real,
            ay * o == y.place() as real,
            s == x.place() as real + y.place() as real,
    ;
    let v = size(ax + ay);
    assert((ax + ay >= 0 as real) == (s >= 0 as real) && (ax + ay == 0 as real) == (s
        == 0 as real)) by (nonlinear_arith)
        requires
            (ax + ay) * o == s,
            o > 0 as real,
    ;
    if sum == 0 {
        lemma_amount(x.plus(y));
    } else if sum < 0 {
        assert(v * 1 as real * o == -s) by (nonlinear_arith)
            requires
                v == -(ax + ay),
                (ax + ay) * o == s,
        ;
        lemma_rounded(true, (-sum) as nat, 1, v);
    } else {
        assert(v * 1 as real * o == s) by (nonlinear_arith)
            requires
                v == ax + ay,
                (ax + ay) * o == s,
        ;
        lemma_rounded(false, sum as nat, 1, v);
    }
}

/// A number with the opposite sign.
pub proof fn lemma_negated(x: Num)
    requires
        x is Finite,
    ensures
        x.negated() is Finite,
        amount(x.negated()) == -amount(x),
{
    lemma_amount(x);
    lemma_amount(x.negated());
    let a = amount(x);
    let b = amount(x.negated());
    let o = Num::one_units() as real;
    assert(b == -a) by (nonlinear_arith)
        requires
            b * o == -(a * o),
            o > 0 as real,
    ;
}

/// The error of a difference.
pub proof fn lemma_minus(x: Num, y: Num)
    requires
        x is Finite,
        y is Finite,
        size(amount(x) - amount(y)) <= large() || x.minus(y) is Finite,
    ensures
        rounded_from(x.minus(y), amount(x) - amount(y)),
{
    lemma_negated(y);
    lemma_plus(x, y.negated());
}

/// A whole number that the format holds is held exactly.
pub proof fn lemma_of_nat(n: nat)
    requires
        n < 0x100_0000,
    ensures
        Num::of_nat(n) == (Num::Finite { negative: false, units: n * Num::one_units() }),
        amount(Num::of_nat(n)) == n as real,
{
    power2::lemma2_to64();
    power2::lemma_pow2_pos(149);
    rounding::lemma_round_exact(n, 149);
    rounding::lemma_pow2_split(277, 24, 253);
    rounding::lemma_pow2_split(253, 149, 104);
    let o = Num::one_units();
    assert(n * o < 0x100_0000 * (o * power2::pow2(104))) by (nonlinear_arith)
        requires
            n < 0x100_0000,
            o > 0,
            power2::pow2(104) > 0,
    ;
    lemma_cast_product(n as int, o as int);
    let x = Num::of_nat(n);
    let a = amount(x);
    let r = o as real;
    lemma_amount(x);
    assert(a == n as real) by (nonlinear_arith)
        requires
            a * r == n as real * r,
            r > 0 as real,
    ;
}

/// A pattern with 24 significant bits stands for a whole number.
pub proof fn lemma_whole_value(bits: u32, n: nat, m: nat, e: nat)
    requires
        bits == e * 0x80_0000 + m,
        0x80_0000 <= m < 0x100_0000,
        e < 149,
        m * power2::pow2(e) == n * Num::one_units(),
    ensures
        Single::value(bits) == (Num::Finite { negative: false, units: n * Num::one_units() }),
        amount(Single::value(bits)) == n as real,
{
    assert(bits as nat / 0x80_0000 == e + 1);
    assert(bits as nat % 0x80_0000 == m - 0x80_0000);
    assert(bits < single::INFINITY_BITS);
    assert(bits % single::SIGN_BIT == bits);
    let o = Num::one_units();
    lemma_cast_product(n as int, o as int);
    let x = Single::value(bits);
    let a = amount(x);
    let r = o as real;
    lemma_amount(x);
    assert(a == n as real) by (nonlinear_arith)
        requires
            a * r == n as real * r,
            r > 0 as real,
    ;
}

/// The exact number that a square root is rounded from: its square is all but equal to
/// the number.
pub proof fn lemma_square_root(x: Num) -> (v: real)
    requires
        x is Finite,
        x.place() >= 0,
        amount(x) <= large() || x.square_root() is Finite,
    ensures
        v >= 0 as real,
        size(v * v - amount(x)) <= (2 as real * v + 1 as real) / 281474976710656 as real,
        rounded_from(x.square_root(), v),
{
    if x->units == 0 {
        reveal(Num::square_root);
        lemma_amount(x);
        0 as real
    } else {
        lemma_positive_root(x)
    }
}

/// The exact number that the square root of a positive number is rounded from.
proof fn lemma_positive_root(x: Num) -> (v: real)
    requires
        x is Finite,
        x.place() > 0,
        amount(x) <= large() || x.square_root() is Finite,
    ensures
        v >= 0 as real,
        size(v * v - amount(x)) <= (2 as real * v + 1 as real) / 281474976710656 as real,
        rounded_from(x.square_root(), v),
{
    reveal(Num::square_root);
    lemma_amount(x);
    let one = Num::one_units();
    let o = one as real;
    let a = amount(x);
    let units = x->units;
    lemma_many_units();
    let square = units * one;
    let root = Num::floor_sqrt(square);
    root::lemma_floor_sqrt(square);
    let exact = root * root == square;
    let n: nat = if exact {
        root
    } else {
        2 * root + 1
    };
    let d: nat = if exact {
        1
    } else {
        2
    };
    let rr = root as real;
    let h: real = if exact {
        0 as real
    } else {
        1 as real / 2 as real
    };
    let v = (rr + h) / o;
    assert(v * o == rr + h) by (nonlinear_arith)
        requires
            v == (rr + h) / o,
            o > 0 as real,
    ;
    assert(v * d as real * o == n as real) by {
        assert(v * d as real * o == (v * o) * d as real) by (nonlinear_arith);
    }
    lemma_root_square(root as int, square as int, rr, h, exact);
    lemma_cast_product(units as int, one as int);
    let e = (2 as real * v + 1 as real) / 281474976710656 as real;
    let g = v * v - a;
    assert((v * v - a) * (o * o) == (v * o) * (v * o) - (a * o) * o) by (nonlinear_arith);
    assert(a * o == units as real);
    let oo = o * o;
    assert(size(g * oo) <= 2 as real * rr + 1 as real);
    assert(oo >= 281474976710656 as real * o) by {
        lemma_nonneg(o - 281474976710656 as real, o);
        assert((o - 281474976710656 as real) * o == o * o - 281474976710656 as real * o)
            by (nonlinear_arith);
    }
    assert(v >= 0 as real) by {
        assert(0 as real * o == 0 as real);
        lemma_cancel(0 as real, v, o);
    }
    let c = 2 as real * v + 1 as real;
    assert(e * oo >= c * o) by {
        lemma_nonneg(e, oo - 281474976710656 as real * o);
        assert(e * (oo - 281474976710656 as real * o) == e * oo - (281474976710656 as real * e)
            * o) by (nonlinear_arith);
    }
    assert(c * o == 2 as real * (v * o) + o) by (nonlinear_arith)
        requires
            c == 2 as real * v + 1 as real,
    ;
    assert((-e) * oo == -(e * oo)) by (nonlinear_arith);
    lemma_cancel(g, e, oo);
    lemma_cancel(-e, g, oo);
    if a <= large() {
        lemma_root_bound(v, a);
    }
    lemma_rounded(false, n, d, v);
    v
}

/// The square of a number between two neighbouring whole ones.
proof fn lemma_root_square(root: int, square: int, rr: real, h: real, exact: bool)
    requires
        root * root <= square < (root + 1) * (root + 1),
        root >= 0,
        exact == (root * root == square),
        rr == root as real,
        h == if exact {
            0 as real
        } else {
            1 as real / 2 as real
        },
    ensures
        size((rr + h) * (rr + h) - square as real) <= 2 as real * rr + 1 as real,
{
    lemma_cast_product(root, root);
    assert((root + 1) * (root + 1) == root * root + 2 * root + 1) by (nonlinear_arith);
    assert((rr + h) * (rr + h) == rr * rr + 2 as real * (rr * h) + h * h) by (nonlinear_arith);
    if exact {
        assert(rr * (0 as real) == 0 as real);
    } else {
        assert(rr * (1 as real / 2 as real) == rr / 2 as real);
        assert((1 as real / 2 as real) * (1 as real / 2 as real) == 1 as real / 4 as real);
    }
}

/// The root of a bounded number is bounded.
proof fn lemma_root_bound(v: real, a: real)
    requires
        v >= 0 as real,
        size(v * v - a) <= (2 as real * v + 1 as real) / 281474976710656 as real,
        a <= large(),
    ensures
        v <= large(),
{
    let l = large();
    lemma_large();
    if v > l {
        lemma_nonneg(v - l, v);
        assert((v - l) * v == v * v - l * v) by (nonlinear_arith);
        lemma_nonneg(l - 1000 as real, v);
        assert((l - 1000 as real) * v == l * v - 1000 as real * v) by (nonlinear_arith);
        assert(false);
    }
}

/// There are more than 2^48 units in 1.
proof fn lemma_many_units()
    ensures
        Num::one_units() as real >= 281474976710656 as real,
{
    power2::lemma2_to64();
    rounding::lemma_pow2_split(149, 48, 101);
    rounding::lemma_pow2_split(48, 24, 24);
    let one = Num::one_units();
    assert(one >= 281474976710656) by (nonlinear_arith)
        requires
            one == (16777216 * 16777216) * power2::pow2(101),
            power2::pow2(101) > 0,
    ;
}

/// A real kept within `low..=high`.
pub open spec fn between(v: real, low: real, high: real) -> real {
    if v < low {
        low
    } else if v > high {
        high
    } else {
        v
    }
}

/// The greater of two reals.
pub open spec fn most(v: real, w: real) -> real {
    if v < w {
        w
    } else {
        v
    }
}

/// Finite numbers stand for reals in the same order.
pub proof fn lemma_order(x: Num, y: Num)
    requires
        x is Finite,
        y is Finite,
    ensures
        x.place() < y.place() <==> amount(x) < amount(y),
        x.place() <= y.place() <==> amount(x) <= amount(y),
        x.place() >= 0 <==> amount(x) >= 0 as real,
        x.place() > 0 <==> amount(x) > 0 as real,
{
    lemma_amount(x);
    lemma_amount(y);
    let o = Num::one_units() as real;
    let a = amount(x);
    let b = amount(y);
    assert(0 as real * o == 0 as real);
    if x.place() <= y.place() {
        lemma_cancel(a, b, o);
    } else {
        lemma_cancel(b, a, o);
    }
    if y.place() <= x.place() {
        lemma_cancel(b, a, o);
    }
    if x.place() >= 0 {
        lemma_cancel(0 as real, a, o);
    } else {
        lemma_cancel(a, 0 as real, o);
    }
    if x.place() <= 0 {
        lemma_cancel(a, 0 as real, o);
    }
    if a == b {
        assert(x.place() as real == y.place() as real);
    }
}

/// A constant of the format as a fraction: its significand over a power of two.
pub proof fn lemma_constant(bits: u32, m: nat, e: nat, k: nat, p: nat)
    requires
        bits == e * 0x80_0000 + m,
        0x80_0000 <= m < 0x100_0000,
        e + k == 149,
        e < 149,
        power2::pow2(k) == p,
    ensures
        Single::value(bits) == (Num::Finite { negative: false, units: m * power2::pow2(e) }),
        amount(Single::value(bits)) * (p as real) == m as real,
{
    assert(bits as nat / 0x80_0000 == e + 1);
    assert(bits as nat % 0x80_0000 == m - 0x80_0000);
    assert(bits < single::INFINITY_BITS);
    assert(bits % single::SIGN_BIT == bits);
    let x = Single::value(bits);
    let q = power2::pow2(e);
    rounding::lemma_pow2_split(149, e, k);
    lemma_amount(x);
    lemma_cast_product(m as int, q as int);
    lemma_cast_product(q as int, p as int);
    let a = amount(x);
    let pr = q as real;
    let qr = p as real;
    let mr = m as real;
    assert(a * (pr * qr) == mr * pr);
    lemma_factors(a, pr, qr);
    lemma_factors(a, qr, pr);
    lemma_cancel(a * qr, mr, pr);
    lemma_cancel(mr, a * qr, pr);
}

/// Keeping a number within bounds keeps it as close as it was.
pub proof fn lemma_clamped_near(x: Num, low: Num, high: Num, v: real, l: real, h: real, e: real)
    requires
        x is Finite,
        low is Finite,
        high is Finite,
        low.at_most(high),
        l <= h,
        size(amount(x) - v) <= e,
        size(amount(low) - l) <= e,
        size(amount(high) - h) <= e,
    ensures
        x.clamped(low, high) is Finite,
        size(amount(x.clamped(low, high)) - between(v, l, h)) <= e,
{
    lemma_order(x, low);
    lemma_order(high, x);
    lemma_order(low, high);
}

/// The same of a number of any size, where the bounds are small.
pub proof fn lemma_clamped_scaled(x: Num, low: Num, high: Num, v: real, l: real, h: real)
    requires
        x is Finite && size(amount(x) - v) <= (1 as real + size(v)) / 1000000 as real || x
            is Infinite && x.place() > 0 && v >= 8 as real,
        low is Finite,
        high is Finite,
        low.at_most(high),
        high.place() < Num::limit_units(),
        -4 as real <= l <= h <= 4 as real,
        size(amount(low) - l) <= 1 as real / 1000000 as real,
        size(amount(high) - h) <= 1 as real / 1000000 as real,
    ensures
        x.clamped(low, high) is Finite,
        size(amount(x.clamped(low, high)) - between(v, l, h)) <= 1 as real / 100000 as real,
{
    if x is Finite {
        lemma_order(x, low);
        lemma_order(high, x);
        lemma_order(low, high);
        if size(v) <= 8 as real {
            lemma_clamped_near(x, low, high, v, l, h, 1 as real / 100000 as real);
        }
    } else {
        power2::lemma_pow2_pos(277);
    }
}

/// The greater of two numbers is as close as they are.
pub proof fn lemma_greater_near(x: Num, y: Num, v: real, w: real, e: real)
    requires
        x is Finite,
        y is Finite,
        size(amount(x) - v) <= e,
        size(amount(y) - w) <= e,
    ensures
        x.greater(y) is Finite,
        size(amount(x.greater(y)) - most(v, w)) <= e,
{
    lemma_order(x, y);
}

/// A product of numbers that are not negative is close to the exact one, or infinite where
/// that is beyond the format.
pub proof fn lemma_times_any(x: Num, y: Num)
    requires
        x is Finite,
        y is Finite,
        x.place() >= 0,
        y.place() >= 0,
    ensures
        x.times(y) is Finite ==> rounded_from(x.times(y), amount(x) * amount(y)),
        !(x.times(y) is Finite) ==> x.times(y) is Infinite && x.times(y).place() > 0 && amount(x)
            * amount(y) >= 1000000 as real,
        amount(x) * amount(y) >= 0 as real,
{
    lemma_large();
    lemma_order(x, x);
    lemma_order(y, y);
    lemma_nonneg(amount(x), amount(y));
    if size(amount(x) * amount(y)) <= large() || x.times(y) is Finite {
        lemma_times(x, y);
    } else {
        reveal(Num::times);
        power2::lemma_pow2_pos(277);
        lemma_amount(x);
        lemma_amount(y);
        let a = amount(x);
        let b = amount(y);
        assert(0 as real * b == 0 as real);
        assert(a * 0 as real == 0 as real);
        assert(a != 0 as real && b != 0 as real);
    }
}

} // verus!
