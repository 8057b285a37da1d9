//! Single precision numbers, computed with integer arithmetic.

use super::num::Num;
use super::rounding;
use vstd::arithmetic::div_mod;
use vstd::arithmetic::mul;
use vstd::arithmetic::power2;
use vstd::prelude::*;

verus! {

/// A single precision number, held as its bit pattern: the sign in the highest
/// bit, then eight bits of exponent, then 23 bits of fraction.
#[derive(Clone, Copy, Debug)]
pub struct Single {
    pub bits: u32,
}

/// The bit pattern of positive infinity.
pub const INFINITY_BITS: u32 = 0x7f80_0000;

/// The weight of the sign bit.
pub const SIGN_BIT: u32 = 0x8000_0000;

/// The number of units that a pattern without its sign bit stands for. Infinity
/// gets the limit of the format.
pub open spec fn magnitude(pattern: nat) -> nat {
    let exponent = pattern / 0x80_0000;
    let fraction = pattern % 0x80_0000;
    if exponent == 0 {
        fraction
    } else {
        (0x80_0000 + fraction) * power2::pow2((exponent - 1) as nat)
    }
}

impl View for Single {
    type V = Num;

    open spec fn view(&self) -> Num {
        let negative = self.bits >= SIGN_BIT;
        let pattern = (self.bits % SIGN_BIT) as nat;
        if pattern > INFINITY_BITS {
            Num::Nan
        } else if pattern == INFINITY_BITS {
            Num::Infinite { negative }
        } else {
            Num::Finite { negative, units: magnitude(pattern) }
        }
    }
}

impl Single {
    /// The number that a bit pattern stands for.
    pub open spec fn value(bits: u32) -> Num {
        (Single { bits })@
    }
}

/// A number at or above 2^23 with the exponent `e`, or any number below with the
/// exponent 0, is the pattern `e * 2^23 + k`.
proof fn lemma_pattern(k: nat, e: nat)
    requires
        k <= 0x100_0000,
        e == 0 || k >= 0x80_0000,
    ensures
        magnitude(e * 0x80_0000 + k) == k * power2::pow2(e),
{
    power2::lemma2_to64();
    let pattern = e * 0x80_0000 + k;
    if k < 0x80_0000 {
    } else if k < 0x100_0000 {
        assert(pattern / 0x80_0000 == e + 1);
        assert(pattern % 0x80_0000 == k - 0x80_0000);
    } else {
        assert(pattern / 0x80_0000 == e + 2);
        assert(pattern % 0x80_0000 == 0);
        power2::lemma_pow2_unfold(e + 1);
        assert(0x80_0000 * (2 * power2::pow2(e)) == 0x100_0000 * power2::pow2(e));
    }
}

/// A pattern below that of infinity stands for fewer units than the limit.
proof fn lemma_limit(k: nat, e: nat)
    requires
        k <= 0x100_0000,
        e == 0 || k >= 0x80_0000,
    ensures
        (e * 0x80_0000 + k < INFINITY_BITS) == (k * power2::pow2(e) < Num::limit_units()),
{
    power2::lemma2_to64();
    rounding::lemma_pow2_split(277, 24, 253);
    rounding::lemma_pow2_split(277, 23, 254);
    power2::lemma_pow2_pos(e);
    let pe = power2::pow2(e);
    if e >= 254 {
        if e > 254 {
            power2::lemma_pow2_strictly_increases(254, e);
        }
        assert(k * pe >= 0x80_0000 * power2::pow2(254)) by (nonlinear_arith)
            requires
                k >= 0x80_0000,
                pe >= power2::pow2(254),
        ;
    } else if e < 253 {
        power2::lemma_pow2_strictly_increases(e, 253);
        assert(k * pe < 0x100_0000 * power2::pow2(253)) by (nonlinear_arith)
            requires
                k <= 0x100_0000,
                pe < power2::pow2(253),
        ;
    } else if k < 0x100_0000 {
        assert(k * pe < 0x100_0000 * pe) by (nonlinear_arith)
            requires
                k < 0x100_0000,
                pe > 0,
        ;
    }
}

/// The power of two with the exponent given.
pub(super) fn two_to(s: u32) -> (r: u64)
    requires
        s < 64,
    ensures
        r == power2::pow2(s as nat),
        r > 0,
{
    proof {
        power2::lemma2_to64();
        power2::lemma_pow2_pos(s as nat);
        vstd::bits::lemma_u64_pow2_no_overflow(s as nat);
        vstd::bits::lemma_u64_shl_is_mul(1, s as u64);
    }
    1u64 << s
}

/// The number of bits that a positive number takes.
pub(super) fn bit_length(p: u64) -> (len: u32)
    requires
        p > 0,
    ensures
        0 < len <= 64,
        power2::pow2((len - 1) as nat) <= p < power2::pow2(len as nat),
{
    let zeros: u32 = p.leading_zeros();
    let len: u32 = 64 - zeros;
    proof {
        vstd::std_specs::bits::axiom_u64_leading_zeros(p);
        power2::lemma2_to64();
        let top = (len - 1) as u64;
        vstd::bits::lemma_u64_shr_is_div(p, top);
        let head = p >> top;
        assert(head & 1 != 0 ==> head >= 1) by (bit_vector);
        let low = power2::pow2((len - 1) as nat);
        power2::lemma_pow2_pos((len - 1) as nat);
        div_mod::lemma_fundamental_div_mod(p as int, low as int);
        assert(p >= low) by (nonlinear_arith)
            requires
                p == low * (p as int / low as int) + p as int % low as int,
                p as int / low as int >= 1,
                p as int % low as int >= 0,
                low > 0,
        ;
        if len < 64 {
            let next = len as u64;
            vstd::bits::lemma_u64_shr_is_div(p, next);
            let high = power2::pow2(len as nat);
            power2::lemma_pow2_pos(len as nat);
            div_mod::lemma_fundamental_div_mod(p as int, high as int);
            assert(p as int / high as int == 0);
        }
    }
    len
}

/// The number of `k * 2^e` units with the sign given, or infinity where that is
/// too many.
pub(super) fn pack(negative: bool, k: u32, e: u32) -> (r: Single)
    requires
        k <= 0x100_0000,
        e == 0 || k >= 0x80_0000,
    ensures
        r@ == if k * power2::pow2(e as nat) < Num::limit_units() {
            Num::Finite { negative, units: (k * power2::pow2(e as nat)) as nat }
        } else {
            Num::Infinite { negative }
        },
{
    proof {
        lemma_limit(k as nat, e as nat);
        lemma_pattern(k as nat, e as nat);
    }
    let mut pattern: u32 = INFINITY_BITS;
    if e < 254 {
        let exact: u32 = e * 0x80_0000 + k;
        if exact < INFINITY_BITS {
            pattern = exact;
        }
    }
    if negative {
        Single { bits: SIGN_BIT + pattern }
    } else {
        Single { bits: pattern }
    }
}

/// Rounds the magnitude `n / d` units, of which the leading bits `p` are known: it
/// lies in `p .. p + 1` times 2^e, and is `p` times 2^e itself unless `inexact`.
/// The exponent `e` is `a - b`.
pub(super) fn round_bits(
    negative: bool,
    p: u64,
    e: i32,
    inexact: bool,
    Ghost(n): Ghost<nat>,
    Ghost(d): Ghost<nat>,
    Ghost(a): Ghost<nat>,
    Ghost(b): Ghost<nat>,
) -> (r: Single)
    requires
        0 < p < 0x8000_0000_0000_0000,
        e == a - b,
        -1000 <= e <= 1000,
        d > 0,
        p * (power2::pow2(a) * d) <= n * power2::pow2(b) < (p + 1) * (power2::pow2(a) * d),
        inexact == (p * (power2::pow2(a) * d) != n * power2::pow2(b)),
        inexact ==> p >= 0x100_0000 || e < 0,
    ensures
        r@ == Num::rounded(negative, n, d),
{
    let len: u32 = bit_length(p);
    let room: i32 = len as i32 + e - 24;
    let k: i32 = if room > 0 {
        room
    } else {
        0
    };
    let s: i32 = k - e;
    proof {
        power2::lemma2_to64();
        if inexact && len <= 24 {
            if len < 24 {
                power2::lemma_pow2_strictly_increases(len as nat, 24);
            }
        }
    }
    if s <= 0 {
        let up: u32 = (-s) as u32;
        proof {
            rounding::lemma_round_bits_exact(
                n,
                d,
                p as nat,
                len as nat,
                a,
                b,
                k as nat,
                up as nat,
            );
            if up >= 24 {
                if up > 24 {
                    power2::lemma_pow2_strictly_increases(24, up as nat);
                }
                assert(p * power2::pow2(up as nat) >= power2::pow2(up as nat)) by (nonlinear_arith)
                    requires
                        p >= 1,
                ;
            }
        }
        let factor: u64 = two_to(up);
        let significand: u64 = p * factor;
        proof {
            if k > 0 {
                assert(len + up == 24);
                rounding::lemma_pow2_split(23, (len - 1) as nat, up as nat);
                mul::lemma_mul_inequality(
                    power2::pow2((len - 1) as nat) as int,
                    p as int,
                    factor as int,
                );
            }
        }
        pack(negative, significand as u32, k as u32)
    } else if s >= 64 {
        proof {
            rounding::lemma_round_bits_down(
                n,
                d,
                p as nat,
                len as nat,
                a,
                b,
                k as nat,
                s as nat,
            );
            rounding::lemma_pow2_split((s - 1) as nat, 63, (s - 64) as nat);
            rounding::lemma_pow2_split(64, 63, 1);
            power2::lemma_pow2_unfold(s as nat);
            let half = power2::pow2((s - 1) as nat);
            assert(half >= power2::pow2(63)) by (nonlinear_arith)
                requires
                    half == power2::pow2(63) * power2::pow2((s - 64) as nat),
                    power2::pow2((s - 64) as nat) >= 1,
            ;
            assert(0 < p < half < power2::pow2(s as nat));
            div_mod::lemma_fundamental_div_mod_converse(
                p as int,
                power2::pow2(s as nat) as int,
                0,
                p as int,
            );
            assert(k == 0);
        }
        pack(negative, 0, 0)
    } else {
        let m: u64 = two_to(s as u32);
        let half: u64 = two_to((s - 1) as u32);
        let low: u64 = p / m;
        let rest: u64 = p % m;
        proof {
            rounding::lemma_round_bits_down(
                n,
                d,
                p as nat,
                len as nat,
                a,
                b,
                k as nat,
                s as nat,
            );
            lemma_quotient_bits(p as nat, len as nat, s as nat, k as nat);
        }
        let significand: u64 = if rest > half || (rest == half && (inexact || low % 2 != 0)) {
            low + 1
        } else {
            low
        };
        pack(negative, significand as u32, k as u32)
    }
}

/// Dropping the lowest `s` bits of a number of `len` bits leaves at most 24 bits,
/// and exactly 24 where the spacing is not the least.
proof fn lemma_quotient_bits(p: nat, len: nat, s: nat, k: nat)
    requires
        0 < len <= 24 + s,
        k > 0 ==> len == 24 + s,
        power2::pow2((len - 1) as nat) <= p < power2::pow2(len),
    ensures
        p / power2::pow2(s) < 0x100_0000,
        k > 0 ==> p / power2::pow2(s) >= 0x80_0000,
{
    power2::lemma2_to64();
    power2::lemma_pow2_pos(s);
    let m = power2::pow2(s) as int;
    rounding::lemma_pow2_split(24 + s, 24, s);
    if len < 24 + s {
        power2::lemma_pow2_strictly_increases(len, 24 + s);
    }
    div_mod::lemma_multiply_divide_lt(p as int, m, 0x100_0000);
    if k > 0 {
        rounding::lemma_pow2_split((23 + s) as nat, 23, s);
        div_mod::lemma_div_is_ordered(0x80_0000 * m, p as int, m);
        div_mod::lemma_div_by_multiple(0x80_0000, m);
    }
}

impl Single {
    /// Whether this is neither infinite nor not a number.
    pub fn is_finite(self) -> (r: bool)
        ensures
            r == (self@ is Finite),
    {
        self.bits % SIGN_BIT < INFINITY_BITS
    }

    /// Whether the sign bit is set.
    pub fn is_negative(self) -> (r: bool)
        ensures
            r == (self.bits >= SIGN_BIT),
            self@ matches Num::Finite { negative, .. } ==> r == negative,
            self@ matches Num::Infinite { negative } ==> r == negative,
    {
        self.bits >= SIGN_BIT
    }

    /// The magnitude of a finite number as a significand and an exponent.
    pub(super) fn parts(self) -> (r: (u32, u32))
        requires
            self@ is Finite,
        ensures
            self@->units == r.0 * power2::pow2(r.1 as nat),
            r.0 < 0x100_0000,
            r.1 <= 253,
            r.1 > 0 ==> r.0 >= 0x80_0000,
    {
        let pattern: u32 = self.bits % SIGN_BIT;
        let exponent: u32 = pattern / 0x80_0000;
        let fraction: u32 = pattern % 0x80_0000;
        proof {
            power2::lemma2_to64();
            mul::lemma_mul_basics(fraction as int);
            assert(pattern as nat / 0x80_0000 == exponent);
            assert(pattern as nat % 0x80_0000 == fraction);
        }
        if exponent == 0 {
            (fraction, 0)
        } else {
            (0x80_0000 + fraction, exponent - 1)
        }
    }
}

/// The sum of two finite numbers given by their parts, the one with the greater
/// exponent first.
fn sum_of_parts(
    high_negative: bool,
    high: u32,
    high_exp: u32,
    low_negative: bool,
    low: u32,
    low_exp: u32,
) -> (r: Single)
    requires
        low_exp <= high_exp <= 253,
        high < 0x100_0000,
        low < 0x100_0000,
        high_exp > 0 ==> high >= 0x80_0000,
    ensures
        r@ == (Num::Finite {
            negative: high_negative,
            units: (high * power2::pow2(high_exp as nat)) as nat,
        }).plus(
            Num::Finite {
                negative: low_negative,
                units: (low * power2::pow2(low_exp as nat)) as nat,
            },
        ),
{
    proof {
        reveal(Num::plus);
    }
    let ghost big = high * power2::pow2(high_exp as nat);
    let ghost small = low * power2::pow2(low_exp as nat);
    let diff: u32 = high_exp - low_exp;
    proof {
        power2::lemma2_to64();
        power2::lemma_pow2_pos(low_exp as nat);
        power2::lemma_pow2_pos(high_exp as nat);
    }
    if diff <= 38 {
        let ghost unit = power2::pow2(low_exp as nat);
        let factor: u64 = two_to(diff);
        proof {
            rounding::lemma_pow2_split(high_exp as nat, diff as nat, low_exp as nat);
            if diff < 38 {
                power2::lemma_pow2_strictly_increases(diff as nat, 38);
            }
            assert(power2::pow2(38) == 0x40_0000_0000) by {
                rounding::lemma_pow2_split(38, 32, 6);
            }
            assert(high * factor < 0x100_0000 * 0x40_0000_0000) by (nonlinear_arith)
                requires
                    high < 0x100_0000,
                    0 < factor <= 0x40_0000_0000,
            ;
            mul::lemma_mul_is_associative(high as int, factor as int, unit as int);
        }
        let shifted: u64 = high as u64 * factor;
        let low_wide: u64 = low as u64;
        proof {
            assert(big == shifted * unit);
            mul::lemma_mul_is_distributive_add_other_way(
                unit as int,
                shifted as int,
                low_wide as int,
            );
            mul::lemma_mul_is_distributive_sub_other_way(
                unit as int,
                shifted as int,
                low_wide as int,
            );
            mul::lemma_mul_is_distributive_sub_other_way(
                unit as int,
                low_wide as int,
                shifted as int,
            );
        }
        let p: u64;
        let negative: bool;
        if high_negative == low_negative {
            p = shifted + low_wide;
            negative = high_negative;
        } else if shifted >= low_wide {
            p = shifted - low_wide;
            negative = high_negative;
        } else {
            p = low_wide - shifted;
            negative = low_negative;
        }
        if p == 0 {
            proof {
                power2::lemma_pow2_pos(277);
                mul::lemma_mul_basics(unit as int);
                mul::lemma_mul_basics(power2::pow2(0) as int);
                assert(shifted == low_wide);
            }
            return pack(high_negative && low_negative, 0, 0);
        }
        let ghost n = (p * unit) as nat;
        proof {
            assert(n > 0) by (nonlinear_arith)
                requires
                    n == p * unit,
                    p > 0,
                    unit > 0,
            ;
            assert(shifted >= low_wide ==> shifted * unit >= low_wide * unit) by (nonlinear_arith)
                requires
                    unit > 0,
            ;
            assert(shifted < low_wide ==> shifted * unit < low_wide * unit) by (nonlinear_arith)
                requires
                    unit > 0,
            ;
            lemma_whole_bits(p as nat, low_exp as nat);
        }
        round_bits(
            negative,
            p,
            low_exp as i32,
            false,
            Ghost(n),
            Ghost(1),
            Ghost(low_exp as nat),
            Ghost(0),
        )
    } else if low == 0 {
        proof {
            lemma_whole_bits(high as nat, high_exp as nat);
            assert(big > 0) by (nonlinear_arith)
                requires
                    big == high * power2::pow2(high_exp as nat),
                    high > 0,
                    power2::pow2(high_exp as nat) > 0,
            ;
            assert(small == 0);
        }
        round_bits(
            high_negative,
            high as u64,
            high_exp as i32,
            false,
            Ghost(big as nat),
            Ghost(1),
            Ghost(high_exp as nat),
            Ghost(0),
        )
    } else {
        let exp: u32 = high_exp - 2;
        let ghost unit = power2::pow2(exp as nat);
        proof {
            rounding::lemma_pow2_split(high_exp as nat, 2, exp as nat);
            assert(big == (4 * high) * unit) by (nonlinear_arith)
                requires
                    big == high * (4 * unit),
            ;
            rounding::lemma_pow2_split(24 + low_exp as nat, 24, low_exp as nat);
            power2::lemma_pow2_strictly_increases(24 + low_exp as nat, exp as nat);
            assert(0 < small < unit) by (nonlinear_arith)
                requires
                    small == low * power2::pow2(low_exp as nat),
                    0 < low < 0x100_0000,
                    0x100_0000 * power2::pow2(low_exp as nat) < unit,
                    power2::pow2(low_exp as nat) > 0,
            ;
        }
        let p: u64 = if high_negative == low_negative {
            4 * high as u64
        } else {
            4 * high as u64 - 1
        };
        let ghost n = (if high_negative == low_negative {
            big + small
        } else {
            big - small
        }) as nat;
        proof {
            power2::lemma2_to64();
            mul::lemma_mul_basics(unit as int);
            mul::lemma_mul_basics(n as int);
            assert((p + 1) * unit == p * unit + unit) by (nonlinear_arith);
            assert((4 * high - 1) * unit == (4 * high) * unit - unit) by (nonlinear_arith);
            assert(big >= unit) by (nonlinear_arith)
                requires
                    big == (4 * high) * unit,
                    high >= 1,
                    unit > 0,
            ;
        }
        round_bits(
            high_negative,
            p,
            exp as i32,
            true,
            Ghost(n),
            Ghost(1),
            Ghost(exp as nat),
            Ghost(0),
        )
    }
}

/// What rounding by bits asks of a whole number of units that is known in full.
pub(super) proof fn lemma_whole_bits(p: nat, e: nat)
    ensures
        p * (power2::pow2(e) * 1) == (p * power2::pow2(e)) * power2::pow2(0),
        p * (power2::pow2(e) * 1) < (p + 1) * (power2::pow2(e) * 1),
{
    power2::lemma2_to64();
    power2::lemma_pow2_pos(e);
    let u = power2::pow2(e) as int;
    mul::lemma_mul_basics(u);
    mul::lemma_mul_basics(p * u);
    assert((p + 1) * u == p * u + u) by (nonlinear_arith);
}

impl Single {
    /// A quiet pattern that is not a number.
    pub(super) fn nan() -> (r: Single)
        ensures
            r@ is Nan,
    {
        Single { bits: 0x7fc0_0000 }
    }

    /// Whether this is not a number.
    pub fn is_nan(self) -> (r: bool)
        ensures
            r == (self@ is Nan),
    {
        self.bits % SIGN_BIT > INFINITY_BITS
    }

    /// The number with the opposite sign.
    pub fn neg(self) -> (r: Single)
        ensures
            r@ == self@.negated(),
    {
        let pattern: u32 = self.bits % SIGN_BIT;
        if self.bits >= SIGN_BIT {
            proof {
                assert(self.bits - SIGN_BIT == pattern);
                assert(pattern % SIGN_BIT == pattern);
            }
            Single { bits: pattern }
        } else {
            proof {
                assert(self.bits == pattern);
                assert((pattern + SIGN_BIT) % (SIGN_BIT as int) == pattern);
            }
            Single { bits: pattern + SIGN_BIT }
        }
    }

    /// `self + other`.
    pub fn add(self, other: Single) -> (r: Single)
        ensures
            r@ == self@.plus(other@),
    {
        proof {
            reveal(Num::plus);
        }
        if self.is_nan() || other.is_nan() {
            return Single::nan();
        }
        if !self.is_finite() {
            if !other.is_finite() && self.is_negative() != other.is_negative() {
                return Single::nan();
            }
            return self;
        }
        if !other.is_finite() {
            return other;
        }
        let a: (u32, u32) = self.parts();
        let b: (u32, u32) = other.parts();
        if a.1 >= b.1 {
            sum_of_parts(self.is_negative(), a.0, a.1, other.is_negative(), b.0, b.1)
        } else {
            sum_of_parts(other.is_negative(), b.0, b.1, self.is_negative(), a.0, a.1)
        }
    }

    /// `self - other`.
    pub fn sub(self, other: Single) -> (r: Single)
        ensures
            r@ == self@.minus(other@),
    {
        self.add(other.neg())
    }
}

/// Nothing rounds to zero.
proof fn lemma_rounded_zero(negative: bool, d: nat)
    requires
        d > 0,
    ensures
        Num::rounded(negative, 0, d) == (Num::Finite { negative, units: 0 }),
{
    power2::lemma_pow2_pos(277);
    power2::lemma_pow2_pos(24);
    let a = power2::pow2(24) as int;
    assert(d * a > 0) by (nonlinear_arith)
        requires
            d > 0,
            a > 0,
    ;
    power2::lemma2_to64();
    mul::lemma_mul_basics(d as int);
    assert(Num::spacing(0, d) == 0);
    div_mod::lemma_div_of0(d as int);
    div_mod::lemma_small_mod(0, d);
}

/// The product of two magnitudes, as rounding by bits asks for it.
proof fn lemma_product_bits(m: nat, i: nat, n: nat, j: nat)
    ensures
        (m * n) * (power2::pow2(i + j) * power2::pow2(149)) == ((m * power2::pow2(i)) * (n
            * power2::pow2(j))) * power2::pow2(149),
        (m * n) * (power2::pow2(i + j) * power2::pow2(149)) < (m * n + 1) * (power2::pow2(i + j)
            * power2::pow2(149)),
{
    rounding::lemma_pow2_split(i + j, i, j);
    power2::lemma_pow2_pos(149);
    let x = power2::pow2(i) as int;
    let y = power2::pow2(j) as int;
    let z = power2::pow2(149) as int;
    mul::lemma_mul_is_associative((m * n) as int, x * y, z);
    assert((m * n) * (x * y) == (m * x) * (n * y)) by (nonlinear_arith);
    assert((x * y) * z > 0) by (nonlinear_arith)
        requires
            x > 0,
            y > 0,
            z > 0,
    ;
    let c = (x * y) * z;
    assert((m * n + 1) * c == (m * n) * c + c) by (nonlinear_arith);
}

/// The quotient of two magnitudes, as rounding by bits asks for it: `p` and `rest`
/// are the quotient and the rest of `m * 2^shift / n`.
proof fn lemma_quotient_of_parts(
    m: nat,
    i: nat,
    n: nat,
    j: nat,
    shift: nat,
    p: nat,
    rest: nat,
)
    requires
        n > 0,
        m * power2::pow2(shift) == p * n + rest,
        rest < n,
    ensures
        ({
            let num = (m * power2::pow2(i)) * power2::pow2(149);
            let den = n * power2::pow2(j);
            let a = i + 149;
            let b = j + shift;
            &&& p * (power2::pow2(a) * den) <= num * power2::pow2(b)
            &&& num * power2::pow2(b) < (p + 1) * (power2::pow2(a) * den)
            &&& (p * (power2::pow2(a) * den) == num * power2::pow2(b)) == (rest == 0)
            &&& den > 0
        }),
{
    let num = (m * power2::pow2(i)) * power2::pow2(149);
    let den = n * power2::pow2(j);
    rounding::lemma_pow2_split(i + 149, i, 149);
    rounding::lemma_pow2_split(j + shift, j, shift);
    let x = power2::pow2(i + 149) as int;
    let y = power2::pow2(j) as int;
    let z = power2::pow2(shift) as int;
    let c = x * y;
    assert(c > 0) by (nonlinear_arith)
        requires
            c == x * y,
            x > 0,
            y > 0,
    ;
    assert(den > 0) by (nonlinear_arith)
        requires
            den == n * y,
            n > 0,
            y > 0,
    ;
    mul::lemma_mul_is_associative(m as int, power2::pow2(i) as int, power2::pow2(149) as int);
    assert(num == m * x);
    assert((m * x) * (y * z) == (m * z) * c) by {
        mul::lemma_mul_is_associative(m as int, x, y * z);
        mul::lemma_mul_is_associative(x, y, z);
        mul::lemma_mul_is_commutative(x * y, z);
        mul::lemma_mul_is_associative(m as int, z, x * y);
    }
    assert(x * (n * y) == n * c) by {
        mul::lemma_mul_is_associative(x, n as int, y);
        mul::lemma_mul_is_commutative(x, n as int);
        mul::lemma_mul_is_associative(n as int, x, y);
    }
    mul::lemma_mul_is_associative(p as int, n as int, c);
    mul::lemma_mul_is_associative((p + 1) as int, n as int, c);
    assert((p * n + rest) * c == (p * n) * c + rest * c) by (nonlinear_arith);
    assert(((p + 1) * n) * c == (p * n) * c + n * c) by (nonlinear_arith);
    assert(0 <= rest * c < n * c && (rest * c == 0 <==> rest == 0)) by (nonlinear_arith)
        requires
            0 <= rest < n,
            c > 0,
    ;
}

/// Doubles a positive significand until it takes 24 bits.
pub(super) fn normalised(m: u32) -> (r: (u32, u32))
    requires
        0 < m < 0x100_0000,
    ensures
        0x80_0000 <= r.0 < 0x100_0000,
        r.1 <= 23,
        r.0 == m * power2::pow2(r.1 as nat),
{
    let len: u32 = bit_length(m as u64);
    proof {
        power2::lemma2_to64();
        if len > 24 {
            power2::lemma_pow2_pos(24);
            if len > 25 {
                power2::lemma_pow2_strictly_increases(24, (len - 1) as nat);
            }
        }
    }
    let up: u32 = 24 - len;
    let factor: u64 = two_to(up);
    proof {
        rounding::lemma_pow2_split(23, (len - 1) as nat, up as nat);
        rounding::lemma_pow2_split(24, len as nat, up as nat);
        mul::lemma_mul_inequality(power2::pow2((len - 1) as nat) as int, m as int, factor as int);
        mul::lemma_mul_strict_inequality(m as int, power2::pow2(len as nat) as int, factor as int);
    }
    let wide: u64 = m as u64 * factor;
    (wide as u32, up)
}

impl Single {
    /// A whole number, rounded to the format.
    pub fn from_u32(n: u32) -> (r: Single)
        ensures
            r@ == Num::of_nat(n as nat),
    {
        if n == 0 {
            proof {
                lemma_rounded_zero(false, 1);
                power2::lemma_pow2_pos(277);
                mul::lemma_mul_basics(power2::pow2(149) as int);
                mul::lemma_mul_basics(power2::pow2(0) as int);
            }
            return pack(false, 0, 0);
        }
        proof {
            lemma_whole_bits(n as nat, 149);
        }
        round_bits(
            false,
            n as u64,
            149,
            false,
            Ghost((n * power2::pow2(149)) as nat),
            Ghost(1),
            Ghost(149),
            Ghost(0),
        )
    }

    /// `self * other`.
    pub fn mul(self, other: Single) -> (r: Single)
        ensures
            r@ == self@.times(other@),
    {
        proof {
            reveal(Num::times);
        }
        if self.is_nan() || other.is_nan() {
            return Single::nan();
        }
        let negative: bool = self.is_negative() != other.is_negative();
        if !self.is_finite() {
            if other.is_finite() && other.is_zero() {
                return Single::nan();
            }
            return Single::infinite(negative);
        }
        if !other.is_finite() {
            if self.is_zero() {
                return Single::nan();
            }
            return Single::infinite(negative);
        }
        let a: (u32, u32) = self.parts();
        let b: (u32, u32) = other.parts();
        if a.0 == 0 || b.0 == 0 {
            proof {
                power2::lemma_pow2_pos(149);
                lemma_rounded_zero(negative, power2::pow2(149));
                power2::lemma_pow2_pos(277);
                mul::lemma_mul_basics(power2::pow2(0) as int);
                mul::lemma_mul_basics(power2::pow2(a.1 as nat) as int);
                mul::lemma_mul_basics(power2::pow2(b.1 as nat) as int);
                mul::lemma_mul_basics(self@->units as int);
                mul::lemma_mul_basics(other@->units as int);
            }
            return pack(negative, 0, 0);
        }
        proof {
            lemma_product_bits(a.0 as nat, a.1 as nat, b.0 as nat, b.1 as nat);
            assert(0 < a.0 * b.0 < 0x100_0000 * 0x100_0000) by (nonlinear_arith)
                requires
                    0 < a.0 < 0x100_0000,
                    0 < b.0 < 0x100_0000,
            ;
            power2::lemma_pow2_pos(149);
        }
        let p: u64 = a.0 as u64 * b.0 as u64;
        let e: i32 = a.1 as i32 + b.1 as i32 - 149;
        round_bits(
            negative,
            p,
            e,
            false,
            Ghost((self@->units * other@->units) as nat),
            Ghost(power2::pow2(149)),
            Ghost((a.1 + b.1) as nat),
            Ghost(149),
        )
    }

    /// Whether a finite number is one of the two zeros.
    pub(super) fn is_zero(self) -> (r: bool)
        requires
            self@ is Finite,
        ensures
            r == (self@->units == 0),
    {
        let a: (u32, u32) = self.parts();
        proof {
            power2::lemma_pow2_pos(a.1 as nat);
            mul::lemma_mul_basics(power2::pow2(a.1 as nat) as int);
            if a.0 != 0 {
                mul::lemma_mul_strictly_positive(a.0 as int, power2::pow2(a.1 as nat) as int);
            }
        }
        a.0 == 0
    }

    /// Infinity with the sign given.
    fn infinite(negative: bool) -> (r: Single)
        ensures
            r@ == (Num::Infinite { negative }),
    {
        if negative {
            Single { bits: SIGN_BIT + INFINITY_BITS }
        } else {
            Single { bits: INFINITY_BITS }
        }
    }

    /// `self / other`.
    pub fn div(self, other: Single) -> (r: Single)
        ensures
            r@ == self@.over(other@),
    {
        proof {
            reveal(Num::over);
        }
        if self.is_nan() || other.is_nan() {
            return Single::nan();
        }
        let negative: bool = self.is_negative() != other.is_negative();
        proof {
            power2::lemma_pow2_pos(277);
            mul::lemma_mul_basics(power2::pow2(0) as int);
            mul::lemma_mul_basics(power2::pow2(149) as int);
        }
        if !self.is_finite() {
            if !other.is_finite() {
                return Single::nan();
            }
            return Single::infinite(negative);
        }
        if !other.is_finite() {
            return pack(negative, 0, 0);
        }
        if other.is_zero() {
            if self.is_zero() {
                return Single::nan();
            }
            return Single::infinite(negative);
        }
        if self.is_zero() {
            proof {
                lemma_rounded_zero(negative, other@->units);
            }
            return pack(negative, 0, 0);
        }
        let a: (u32, u32) = self.parts();
        let b: (u32, u32) = other.parts();
        proof {
            mul::lemma_mul_basics(power2::pow2(a.1 as nat) as int);
            mul::lemma_mul_basics(power2::pow2(b.1 as nat) as int);
        }
        let wide: (u32, u32) = normalised(a.0);
        let top: u64 = wide.0 as u64 * 0x80_0000_0000;
        let bottom: u64 = b.0 as u64;
        let p: u64 = top / bottom;
        let rest: u64 = top % bottom;
        let e: i32 = a.1 as i32 + 110 - b.1 as i32 - wide.1 as i32;
        proof {
            power2::lemma2_to64();
            rounding::lemma_pow2_split(39, 32, 7);
            rounding::lemma_pow2_split((39 + wide.1) as nat, wide.1 as nat, 39);
            mul::lemma_mul_is_associative(
                a.0 as int,
                power2::pow2(wide.1 as nat) as int,
                power2::pow2(39) as int,
            );
            div_mod::lemma_fundamental_div_mod(top as int, bottom as int);
            mul::lemma_mul_is_commutative(bottom as int, p as int);
            lemma_quotient_of_parts(
                a.0 as nat,
                a.1 as nat,
                b.0 as nat,
                b.1 as nat,
                (39 + wide.1) as nat,
                p as nat,
                rest as nat,
            );
            assert(p >= 0x100_0000) by (nonlinear_arith)
                requires
                    top == p * bottom + rest,
                    rest < bottom < 0x100_0000,
                    top >= 0x80_0000 * 0x80_0000_0000,
            ;
            assert(p <= top) by (nonlinear_arith)
                requires
                    top == p * bottom + rest,
                    bottom >= 1,
                    rest >= 0,
                    p >= 0,
            ;
        }
        round_bits(
            negative,
            p,
            e,
            rest != 0,
            Ghost((self@->units * power2::pow2(149)) as nat),
            Ghost(other@->units),
            Ghost((a.1 + 149) as nat),
            Ghost((b.1 + 39 + wide.1) as nat),
        )
    }
}

/// A greater pattern stands for a greater magnitude.
proof fn lemma_magnitude_order(x: nat, y: nat)
    requires
        x < y,
    ensures
        magnitude(x) < magnitude(y),
{
    let e = x / 0x80_0000;
    let f = y / 0x80_0000;
    power2::lemma2_to64();
    if e == f {
        if e > 0 {
            power2::lemma_pow2_pos((e - 1) as nat);
            mul::lemma_mul_strict_inequality(
                (0x80_0000 + x % 0x80_0000) as int,
                (0x80_0000 + y % 0x80_0000) as int,
                power2::pow2((e - 1) as nat) as int,
            );
        }
    } else {
        power2::lemma_pow2_pos((f - 1) as nat);
        let pf = power2::pow2((f - 1) as nat);
        assert((0x80_0000 + y % 0x80_0000) * pf >= 0x80_0000 * pf) by (nonlinear_arith)
            requires
                y % 0x80_0000 >= 0,
                pf > 0,
        ;
        if e > 0 {
            let pe = power2::pow2((e - 1) as nat);
            power2::lemma_pow2_pos((e - 1) as nat);
            rounding::lemma_pow2_split((f - 1) as nat, e, (f - 1 - e) as nat);
            power2::lemma_pow2_unfold(e);
            assert((0x80_0000 + x % 0x80_0000) * pe < 0x100_0000 * pe) by (nonlinear_arith)
                requires
                    x % 0x80_0000 < 0x80_0000,
                    pe > 0,
            ;
            assert(pf >= 2 * pe) by (nonlinear_arith)
                requires
                    pf == (2 * pe) * power2::pow2((f - 1 - e) as nat),
                    power2::pow2((f - 1 - e) as nat) >= 1,
                    pe > 0,
            ;
        }
    }
}

/// The place of a number is the magnitude of its pattern, with its sign.
proof fn lemma_place(x: Single)
    requires
        !(x@ is Nan),
    ensures
        x@.place() == if x.bits >= SIGN_BIT {
            -(magnitude((x.bits % SIGN_BIT) as nat) as int)
        } else {
            magnitude((x.bits % SIGN_BIT) as nat) as int
        },
        magnitude(0) == 0,
{
    power2::lemma2_to64();
    rounding::lemma_pow2_split(277, 23, 254);
    assert(magnitude(INFINITY_BITS as nat) == Num::limit_units()) by {
        assert(INFINITY_BITS as nat / 0x80_0000 == 255);
        assert(INFINITY_BITS as nat % 0x80_0000 == 0);
    }
}

impl Single {
    /// The pattern without its sign bit, with the sign as that of an integer.
    fn signed_pattern(self) -> (r: i64)
        ensures
            r == if self.bits >= SIGN_BIT {
                -(self.bits % SIGN_BIT)
            } else {
                (self.bits % SIGN_BIT) as int
            },
    {
        let pattern: i64 = (self.bits % SIGN_BIT) as i64;
        if self.bits >= SIGN_BIT {
            -pattern
        } else {
            pattern
        }
    }

    /// `self < other`.
    pub fn lt(self, other: Single) -> (r: bool)
        ensures
            r == self@.below(other@),
    {
        if self.is_nan() || other.is_nan() {
            return false;
        }
        let a: i64 = self.signed_pattern();
        let b: i64 = other.signed_pattern();
        proof {
            lemma_place(self);
            lemma_place(other);
            let x = (self.bits % SIGN_BIT) as nat;
            let y = (other.bits % SIGN_BIT) as nat;
            if x < y {
                lemma_magnitude_order(x, y);
            }
            if y < x {
                lemma_magnitude_order(y, x);
            }
            if 0 < x {
                lemma_magnitude_order(0, x);
            }
            if 0 < y {
                lemma_magnitude_order(0, y);
            }
        }
        a < b
    }

    /// `self <= other`.
    pub fn le(self, other: Single) -> (r: bool)
        ensures
            r == self@.at_most(other@),
    {
        !self.is_nan() && !other.is_nan() && !other.lt(self)
    }

    /// The greater of two numbers; an operand that is not a number is passed over.
    pub fn max(self, other: Single) -> (r: Single)
        ensures
            r@ == self@.greater(other@),
    {
        if self.is_nan() || self.lt(other) {
            other
        } else {
            self
        }
    }

    /// The lesser of two numbers; an operand that is not a number is passed over.
    pub fn min(self, other: Single) -> (r: Single)
        ensures
            r@ == self@.lesser(other@),
    {
        if self.is_nan() || other.lt(self) {
            other
        } else {
            self
        }
    }

    /// The number kept within `low..=high`.
    pub fn clamp(self, low: Single, high: Single) -> (r: Single)
        requires
            low@.at_most(high@),
        ensures
            r@ == self@.clamped(low@, high@),
    {
        if self.lt(low) {
            low
        } else if high.lt(self) {
            high
        } else {
            self
        }
    }
}

/// Positive patterns are in the order of the numbers that they stand for.
pub proof fn lemma_value_order(x: u32, y: u32)
    requires
        x <= y < INFINITY_BITS,
    ensures
        Single::value(x).at_most(Single::value(y)),
        x < y ==> Single::value(x).below(Single::value(y)),
        Single::value(x) is Finite,
        Single::value(y) is Finite,
        0 <= Single::value(x).place() < Num::limit_units(),
        0 <= Single::value(y).place() < Num::limit_units(),
{
    lemma_place(Single { bits: INFINITY_BITS });
    lemma_magnitude_order(x as nat, INFINITY_BITS as nat);
    lemma_magnitude_order(y as nat, INFINITY_BITS as nat);
    assert(x % SIGN_BIT == x);
    assert(y % SIGN_BIT == y);
    lemma_place(Single { bits: x });
    lemma_place(Single { bits: y });
    if x < y {
        lemma_magnitude_order(x as nat, y as nat);
    }
}

/// A number of the format is not changed by rounding.
pub proof fn lemma_exact(x: Single)
    requires
        x@ is Finite,
    ensures
        Num::rounded(x@->Finite_negative, x@->units, 1) == x@,
{
    let pattern = (x.bits % SIGN_BIT) as nat;
    let exponent = pattern / 0x80_0000;
    let fraction = pattern % 0x80_0000;
    power2::lemma2_to64();
    lemma_magnitude_order(pattern, INFINITY_BITS as nat);
    lemma_place(Single { bits: INFINITY_BITS });
    if exponent == 0 {
        rounding::lemma_round_exact(fraction, 0);
    } else {
        rounding::lemma_round_exact(0x80_0000 + fraction, (exponent - 1) as nat);
    }
}

} // verus!
