//! Whole numbers: rounding to them, cutting to integers, remainders.

use super::num::Num;
use super::rounding;
use super::single;
use super::single::Single;
use vstd::arithmetic::div_mod;
use vstd::arithmetic::mul;
use vstd::arithmetic::power2;
use vstd::prelude::*;

verus! {

/// A finite number given by at most 24 significant bits, which is held exactly.
fn exact(negative: bool, m: u32, e: u32) -> (r: Single)
    requires
        m < 0x100_0000,
        e <= 253,
    ensures
        r@ == (Num::Finite { negative, units: (m * power2::pow2(e as nat)) as nat }),
{
    proof {
        power2::lemma2_to64();
        power2::lemma_pow2_pos(277);
        mul::lemma_mul_basics(power2::pow2(0) as int);
        mul::lemma_mul_basics(power2::pow2(e as nat) as int);
    }
    if m == 0 {
        return single::pack(negative, 0, 0);
    }
    proof {
        single::lemma_whole_bits(m as nat, e as nat);
        rounding::lemma_round_exact(m as nat, e as nat);
        rounding::lemma_pow2_split(277, 24, 253);
        power2::lemma_pow2_pos(e as nat);
        if e < 253 {
            power2::lemma_pow2_strictly_increases(e as nat, 253);
        }
        assert(m * power2::pow2(e as nat) < 0x100_0000 * power2::pow2(253)) by (nonlinear_arith)
            requires
                m < 0x100_0000,
                0 < power2::pow2(e as nat) <= power2::pow2(253),
        ;
    }
    single::round_bits(
        negative,
        m as u64,
        e as i32,
        false,
        Ghost((m * power2::pow2(e as nat)) as nat),
        Ghost(1),
        Ghost(e as nat),
        Ghost(0),
    )
}

/// Quotient and rest of two numbers with a common factor.
proof fn lemma_common_factor(x: nat, y: nat, g: nat)
    requires
        y > 0,
        g > 0,
    ensures
        (x * g) / (y * g) == x / y,
        (x * g) % (y * g) == (x % y) * g,
{
    div_mod::lemma_fundamental_div_mod(x as int, y as int);
    let q = (x / y) as int;
    let r = (x % y) as int;
    assert(x * g == q * (y * g) + r * g) by (nonlinear_arith)
        requires
            x == y * q + r,
    ;
    assert(0 <= r * g < y * g) by (nonlinear_arith)
        requires
            0 <= r < y,
            g > 0,
    ;
    div_mod::lemma_fundamental_div_mod_converse((x * g) as int, (y * g) as int, q, r * g);
}

/// The fractional part of a number, seen from its whole part.
pub enum Rest {
    /// There is none.
    Zero,
    /// Less than a half.
    Low,
    /// A half.
    Half,
    /// More than a half.
    High,
}

impl Rest {
    /// The case that a magnitude in units falls under.
    pub open spec fn of(units: nat) -> Rest {
        let rest = units % Num::one_units();
        if rest == 0 {
            Rest::Zero
        } else if 2 * rest < Num::one_units() {
            Rest::Low
        } else if 2 * rest == Num::one_units() {
            Rest::Half
        } else {
            Rest::High
        }
    }
}

impl Single {
    /// The whole part of the magnitude of a finite number below 2^24, and what is
    /// left of it. A number of which all bits are whole gives nothing.
    fn split_whole(self) -> (r: Option<(u32, Rest)>)
        requires
            self@ is Finite,
        ensures
            match r {
                Some(split) => {
                    &&& split.0 <= 0x80_0000
                    &&& split.0 == self@->units / Num::one_units()
                    &&& split.1 == Rest::of(self@->units)
                },
                None => {
                    &&& self@->units % Num::one_units() == 0
                    &&& self@->units >= 0x80_0000 * Num::one_units()
                },
            },
    {
        let a: (u32, u32) = self.parts();
        proof {
            power2::lemma2_to64();
            power2::lemma_pow2_pos(149);
            power2::lemma_pow2_pos(a.1 as nat);
        }
        if a.1 >= 149 {
            proof {
                let up = (a.1 - 149) as nat;
                rounding::lemma_pow2_split(a.1 as nat, up, 149);
                let x = power2::pow2(up) as int;
                let one = power2::pow2(149) as int;
                mul::lemma_mul_is_associative(a.0 as int, x, one);
                div_mod::lemma_mod_multiples_basic(a.0 * x, one);
                assert((a.0 * x) * one >= 0x80_0000 * one) by (nonlinear_arith)
                    requires
                        a.0 >= 0x80_0000,
                        x >= 1,
                        one > 0,
                ;
            }
            return None;
        }
        let down: u32 = 149 - a.1;
        proof {
            rounding::lemma_pow2_split(149, down as nat, a.1 as nat);
            lemma_common_factor(a.0 as nat, power2::pow2(down as nat), power2::pow2(a.1 as nat));
        }
        if down >= 32 {
            proof {
                if down > 32 {
                    power2::lemma_pow2_strictly_increases(32, down as nat);
                }
                div_mod::lemma_small_mod(a.0 as nat, power2::pow2(down as nat));
                div_mod::lemma_basic_div(a.0 as int, power2::pow2(down as nat) as int);
                lemma_rest(a.0 as nat, power2::pow2(down as nat), power2::pow2(a.1 as nat));
            }
            if a.0 == 0 {
                Some((0, Rest::Zero))
            } else {
                Some((0, Rest::Low))
            }
        } else {
            let m: u64 = single::two_to(down);
            let whole: u64 = a.0 as u64 / m;
            let rest: u64 = a.0 as u64 % m;
            proof {
                lemma_rest(rest as nat, m as nat, power2::pow2(a.1 as nat));
                if down > 1 {
                    power2::lemma_pow2_strictly_increases(1, down as nat);
                }
                div_mod::lemma_div_is_ordered_by_denominator(a.0 as int, 2, m as int);
                if down < 32 {
                    power2::lemma_pow2_strictly_increases(down as nat, 32);
                }
            }
            if rest == 0 {
                Some((whole as u32, Rest::Zero))
            } else if 2 * rest < m {
                Some((whole as u32, Rest::Low))
            } else if 2 * rest == m {
                Some((whole as u32, Rest::Half))
            } else {
                Some((whole as u32, Rest::High))
            }
        }
    }

    /// The greatest whole number that is at most `self`.
    pub fn floor(self) -> (r: Single)
        ensures
            r@ == self@.floored(),
    {
        proof {
            reveal(Num::floored);
        }
        if !self.is_finite() {
            return self;
        }
        let negative: bool = self.is_negative();
        match self.split_whole() {
            None => {
                proof {
                    lemma_all_whole(self@->units);
                }
                self
            },
            Some((whole, rest)) => {
                let up: bool = match rest {
                    Rest::Zero => false,
                    _ => negative,
                };
                if up {
                    exact(negative, whole + 1, 149)
                } else {
                    exact(negative, whole, 149)
                }
            },
        }
    }

    /// The least whole number that is at least `self`.
    pub fn ceil(self) -> (r: Single)
        ensures
            r@ == self@.ceiled(),
    {
        self.neg().floor().neg()
    }

    /// The nearest whole number, halves going away from zero.
    pub fn round(self) -> (r: Single)
        ensures
            r@ == self@.rounded_whole(),
    {
        proof {
            reveal(Num::rounded_whole);
        }
        if !self.is_finite() {
            return self;
        }
        let negative: bool = self.is_negative();
        match self.split_whole() {
            None => {
                proof {
                    lemma_all_whole(self@->units);
                    power2::lemma_pow2_pos(149);
                }
                self
            },
            Some((whole, rest)) => match rest {
                Rest::High | Rest::Half => exact(negative, whole + 1, 149),
                _ => {
                    proof {
                        power2::lemma_pow2_pos(149);
                    }
                    exact(negative, whole, 149)
                },
            },
        }
    }

    /// The number cut to a whole number and kept within the range of the type; not
    /// a number gives 0.
    pub fn to_u32(self) -> (r: u32)
        ensures
            r == self@.cut_to(0xffff_ffff),
    {
        proof {
            reveal(Num::cut_to);
        }
        if self.is_nan() || self.is_negative() {
            return 0;
        }
        if !self.is_finite() {
            return 0xffff_ffff;
        }
        match self.split_whole() {
            Some((whole, _)) => whole,
            None => {
                let a: (u32, u32) = self.parts();
                proof {
                    lemma_large(self@->units, a.0 as nat, a.1 as nat);
                }
                let up: u32 = a.1 - 149;
                if up >= 32 {
                    return 0xffff_ffff;
                }
                let factor: u64 = single::two_to(up);
                proof {
                    power2::lemma2_to64();
                    power2::lemma_pow2_strictly_increases(up as nat, 32);
                    assert(a.0 * factor < 0x100_0000 * 0x1_0000_0000) by (nonlinear_arith)
                        requires
                            a.0 < 0x100_0000,
                            0 < factor < 0x1_0000_0000,
                    ;
                }
                let value: u64 = a.0 as u64 * factor;
                if value < 0xffff_ffff {
                    value as u32
                } else {
                    0xffff_ffff
                }
            },
        }
    }

    /// The number cut to a whole number and kept within the range of the type; not
    /// a number gives 0.
    pub fn to_u8(self) -> (r: u8)
        ensures
            r == self@.cut_to(255),
    {
        proof {
            reveal(Num::cut_to);
        }
        let wide: u32 = self.to_u32();
        if wide < 255 {
            wide as u8
        } else {
            255
        }
    }
}

/// The fractional part under a common factor.
proof fn lemma_rest(rest: nat, m: nat, g: nat)
    requires
        g > 0,
    ensures
        (rest * g == 0) == (rest == 0),
        (2 * (rest * g) < m * g) == (2 * rest < m),
        (2 * (rest * g) == m * g) == (2 * rest == m),
{
    assert(2 * (rest * g) == (2 * rest) * g) by (nonlinear_arith);
    assert((2 * rest) * g < m * g <==> 2 * rest < m) by (nonlinear_arith)
        requires
            g > 0,
    ;
    assert((2 * rest) * g == m * g <==> 2 * rest == m) by (nonlinear_arith)
        requires
            g > 0,
    ;
    assert(rest * g == 0 <==> rest == 0) by (nonlinear_arith)
        requires
            g > 0,
    ;
}

/// A magnitude without a fractional part is its whole part.
proof fn lemma_all_whole(units: nat)
    requires
        units % Num::one_units() == 0,
    ensures
        (units / Num::one_units()) * Num::one_units() == units,
{
    power2::lemma_pow2_pos(149);
    div_mod::lemma_fundamental_div_mod(units as int, Num::one_units() as int);
    mul::lemma_mul_is_commutative(
        (units / Num::one_units()) as int,
        Num::one_units() as int,
    );
}

/// The whole part of a number that is at least 2^23.
proof fn lemma_large(units: nat, m: nat, e: nat)
    requires
        units == m * power2::pow2(e),
        units >= 0x80_0000 * Num::one_units(),
        m < 0x100_0000,
        e > 0 ==> m >= 0x80_0000,
    ensures
        e >= 149,
        units / Num::one_units() == m * power2::pow2((e - 149) as nat),
        e >= 181 ==> units / Num::one_units() >= 0xffff_ffff,
{
    power2::lemma2_to64();
    power2::lemma_pow2_pos(149);
    power2::lemma_pow2_pos(e);
    let one = power2::pow2(149) as int;
    if e < 149 {
        rounding::lemma_pow2_split(149, 1, 148);
        if e < 148 {
            power2::lemma_pow2_strictly_increases(e, 148);
        }
        assert(m * power2::pow2(e) < 0x100_0000 * power2::pow2(148)) by (nonlinear_arith)
            requires
                m < 0x100_0000,
                0 < power2::pow2(e) <= power2::pow2(148),
        ;
        assert(false);
    }
    let up = (e - 149) as nat;
    rounding::lemma_pow2_split(e, up, 149);
    let x = power2::pow2(up) as int;
    mul::lemma_mul_is_associative(m as int, x, one);
    div_mod::lemma_div_by_multiple(m * x, one);
    if e >= 181 {
        if up > 32 {
            power2::lemma_pow2_strictly_increases(32, up);
        }
        assert(m * x >= x) by (nonlinear_arith)
            requires
                m >= 1,
                x > 0,
        ;
    }
}

/// The rest of `m * 2^times / n`, found by doubling.
fn doubled_rest(m: u32, n: u32, times: u32) -> (r: u32)
    requires
        0 < n < 0x100_0000,
    ensures
        r < n,
        r == (m * power2::pow2(times as nat)) % (n as int),
{
    let mut rest: u32 = m % n;
    let mut i: u32 = 0;
    proof {
        power2::lemma2_to64();
        mul::lemma_mul_basics(m as int);
    }
    while i < times
        invariant
            0 < n < 0x100_0000,
            i <= times,
            rest < n,
            rest == (m * power2::pow2(i as nat)) % (n as int),
        decreases times - i,
    {
        proof {
            let x = m * power2::pow2(i as nat);
            div_mod::lemma_mul_mod_noop_left(x, 2, n as int);
            power2::lemma_pow2_unfold((i + 1) as nat);
            let y = power2::pow2(i as nat) as int;
            assert(m * (2 * y) == (m * y) * 2) by (nonlinear_arith);
        }
        rest = (rest * 2) % n;
        i = i + 1;
    }
    rest
}

impl Single {
    /// The remainder of `self / other` with the quotient cut to a whole number.
    pub fn rem(self, other: Single) -> (r: Single)
        ensures
            r@ == self@.remainder(other@),
    {
        proof {
            reveal(Num::remainder);
        }
        if self.is_nan() || other.is_nan() || !self.is_finite() {
            return Single::nan();
        }
        if !other.is_finite() {
            return self;
        }
        if other.is_zero() {
            return Single::nan();
        }
        let negative: bool = self.is_negative();
        let a: (u32, u32) = self.parts();
        let b: (u32, u32) = other.parts();
        proof {
            power2::lemma2_to64();
            power2::lemma_pow2_pos(a.1 as nat);
            power2::lemma_pow2_pos(b.1 as nat);
            mul::lemma_mul_basics(power2::pow2(b.1 as nat) as int);
        }
        if a.1 >= b.1 {
            let diff: u32 = a.1 - b.1;
            let rest: u32 = doubled_rest(a.0, b.0, diff);
            proof {
                rounding::lemma_pow2_split(a.1 as nat, diff as nat, b.1 as nat);
                let x = power2::pow2(diff as nat);
                let y = power2::pow2(b.1 as nat);
                mul::lemma_mul_is_associative(a.0 as int, x as int, y as int);
                lemma_common_factor((a.0 * x) as nat, b.0 as nat, y);
            }
            exact(negative, rest, b.1)
        } else {
            let diff: u32 = b.1 - a.1;
            proof {
                rounding::lemma_pow2_split(b.1 as nat, diff as nat, a.1 as nat);
                let x = power2::pow2(diff as nat);
                let y = power2::pow2(a.1 as nat);
                mul::lemma_mul_is_associative(b.0 as int, x as int, y as int);
                assert(b.0 * x >= x) by (nonlinear_arith)
                    requires
                        b.0 >= 1,
                        x > 0,
                ;
                lemma_common_factor(a.0 as nat, (b.0 * x) as nat, y);
            }
            if diff >= 24 {
                proof {
                    if diff > 24 {
                        power2::lemma_pow2_strictly_increases(24, diff as nat);
                    }
                    div_mod::lemma_small_mod(
                        a.0 as nat,
                        (b.0 * power2::pow2(diff as nat)) as nat,
                    );
                }
                self
            } else {
                let factor: u64 = single::two_to(diff);
                proof {
                    power2::lemma_pow2_strictly_increases(diff as nat, 24);
                    assert(b.0 * factor < 0x100_0000 * 0x100_0000) by (nonlinear_arith)
                        requires
                            b.0 < 0x100_0000,
                            0 < factor < 0x100_0000,
                    ;
                }
                let divisor: u64 = b.0 as u64 * factor;
                let rest: u64 = a.0 as u64 % divisor;
                proof {
                    div_mod::lemma_mod_decreases(a.0 as nat, divisor as nat);
                }
                exact(negative, rest as u32, a.1)
            }
        }
    }
}

/// `m * 2^times`, found by doubling.
fn doubled(m: u32, times: u32) -> (r: u128)
    requires
        m < 0x100_0000,
        times <= 104,
    ensures
        r == m * power2::pow2(times as nat),
{
    let mut value: u128 = m as u128;
    let mut i: u32 = 0;
    proof {
        power2::lemma2_to64();
        mul::lemma_mul_basics(m as int);
        rounding::lemma_pow2_split(104, 64, 40);
        rounding::lemma_pow2_split(40, 32, 8);
    }
    while i < times
        invariant
            m < 0x100_0000,
            i <= times <= 104,
            value == m * power2::pow2(i as nat),
            power2::pow2(104) == 0x1_0000_0000_0000_0000 * (0x1_0000_0000 * 0x100),
        decreases times - i,
    {
        proof {
            power2::lemma_pow2_unfold((i + 1) as nat);
            if i + 1 < 104 {
                power2::lemma_pow2_strictly_increases((i + 1) as nat, 104);
            }
            let y = power2::pow2(i as nat) as int;
            assert(m * (2 * y) == 2 * (m * y)) by (nonlinear_arith);
            assert(m * (2 * y) <= 0xff_ffff * power2::pow2(104)) by (nonlinear_arith)
                requires
                    m <= 0xff_ffff,
                    0 <= 2 * y <= power2::pow2(104),
            ;
        }
        value = value * 2;
        i = i + 1;
    }
    value
}

impl Single {
    /// The whole number nearest to the magnitude of a finite number, and the even one
    /// of two that are equally near.
    pub fn nearest_whole(self) -> (r: u128)
        requires
            self@ is Finite,
        ensures
            r == Num::nearest_even(self@->units, Num::one_units()),
    {
        proof {
            power2::lemma_pow2_pos(149);
        }
        match self.split_whole() {
            Some((whole, rest)) => {
                let up: bool = match rest {
                    Rest::Zero | Rest::Low => false,
                    Rest::Half => whole % 2 != 0,
                    Rest::High => true,
                };
                if up {
                    whole as u128 + 1
                } else {
                    whole as u128
                }
            },
            None => {
                let a: (u32, u32) = self.parts();
                proof {
                    lemma_large(self@->units, a.0 as nat, a.1 as nat);
                }
                doubled(a.0, a.1 - 149)
            },
        }
    }
}

} // verus!
