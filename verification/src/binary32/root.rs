//! Square roots.

use super::num::Num;
use super::rounding;
use super::single;
use super::single::Single;
use vstd::arithmetic::mul;
use vstd::arithmetic::power2;
use vstd::prelude::*;

verus! {

/// Whether `r` is the greatest whole number whose square is at most `n`.
spec fn is_floor_sqrt(n: nat, r: nat) -> bool {
    r * r <= n < (r + 1) * (r + 1)
}

/// Every natural number has a square root cut to a whole number.
proof fn lemma_floor_sqrt_exists(n: nat) -> (r: nat)
    ensures
        is_floor_sqrt(n, r),
    decreases n,
{
    if n == 0 {
        assert(0 * 0 == 0 && 1 * 1 == 1int);
        0
    } else {
        let s = lemma_floor_sqrt_exists((n - 1) as nat);
        assert((s + 1) * (s + 1) < (s + 2) * (s + 2)) by (nonlinear_arith);
        if (s + 1) * (s + 1) <= n {
            let r = (s + 1) as nat;
            assert((r + 1) * (r + 1) == (s + 2) * (s + 2));
            r
        } else {
            s
        }
    }
}

/// The root that the model speaks of is one.
pub(super) proof fn lemma_floor_sqrt(n: nat)
    ensures
        Num::floor_sqrt(n) * Num::floor_sqrt(n) <= n < (Num::floor_sqrt(n) + 1) * (
        Num::floor_sqrt(n) + 1),
{
    let r = lemma_floor_sqrt_exists(n);
    assert(r * r <= n < (r + 1) * (r + 1));
}

/// The square root of a number below 2^54, cut to a whole number.
fn integer_sqrt(v: u64) -> (r: u64)
    requires
        v < 0x40_0000_0000_0000,
    ensures
        r * r <= v < (r + 1) * (r + 1),
        r < 0x800_0000,
{
    let mut r: u64 = 0;
    let mut bit: u64 = 0x400_0000;
    proof {
        assert(0x800_0000 * 0x800_0000 == 0x40_0000_0000_0000int) by (nonlinear_arith);
    }
    let mut left: u32 = 27;
    proof {
        power2::lemma2_to64();
    }
    while left > 0
        invariant
            left <= 27,
            left > 0 ==> bit == power2::pow2((left - 1) as nat),
            left == 0 ==> bit == 0,
            bit <= 0x400_0000,
            r + power2::pow2(left as nat) <= 0x800_0000,
            r * r <= v < (r + power2::pow2(left as nat)) * (r + power2::pow2(left as nat)),
        decreases left,
    {
        let candidate: u64 = r + bit;
        proof {
            power2::lemma_pow2_unfold(left as nat);
            assert(candidate * candidate <= 0x800_0000 * 0x800_0000) by (nonlinear_arith)
                requires
                    0 <= candidate <= 0x800_0000,
            ;
        }
        if candidate * candidate <= v {
            r = candidate;
        }
        left = left - 1;
        bit = bit / 2;
        proof {
            power2::lemma2_to64();
            if left > 0 {
                power2::lemma_pow2_unfold(left as nat);
            }
        }
    }
    proof {
        power2::lemma2_to64();
    }
    r
}

/// The root of `w * 4^g` against the root `r` of `w`, both cut to whole numbers:
/// `root` lies in `r .. r + 1` times 2^g.
proof fn lemma_scaled_root(w: nat, r: nat, g: nat, square: nat, root: nat)
    requires
        r * r <= w < (r + 1) * (r + 1),
        square == w * (power2::pow2(g) * power2::pow2(g)),
        root * root <= square < (root + 1) * (root + 1),
    ensures
        r * power2::pow2(g) <= root,
        root < (r + 1) * power2::pow2(g),
        r * r == w ==> root == r * power2::pow2(g) && root * root == square,
        r * r != w && root * root == square ==> root != r * power2::pow2(g),
{
    let p = power2::pow2(g) as int;
    power2::lemma_pow2_pos(g);
    let x = r * p;
    let y = (r + 1) * p;
    assert(x * x == (r * r) * (p * p)) by (nonlinear_arith)
        requires
            x == r * p,
    ;
    assert(y * y == ((r + 1) * (r + 1)) * (p * p)) by (nonlinear_arith)
        requires
            y == (r + 1) * p,
    ;
    assert(p * p > 0) by (nonlinear_arith)
        requires
            p > 0,
    ;
    mul::lemma_mul_inequality((r * r) as int, w as int, p * p);
    mul::lemma_mul_strict_inequality(w as int, ((r + 1) * (r + 1)) as int, p * p);
    assert(x * x <= square < y * y);
    assert(x <= root) by (nonlinear_arith)
        requires
            x * x < (root + 1) * (root + 1),
            root >= 0,
    ;
    assert(root < y) by (nonlinear_arith)
        requires
            root * root < y * y,
            root >= 0,
            y >= 0,
    ;
    if r * r == w {
        assert(root <= x) by (nonlinear_arith)
            requires
                root * root <= x * x,
                x >= 0,
                root >= 0,
        ;
    } else if root * root == square {
        mul::lemma_mul_strict_inequality((r * r) as int, w as int, p * p);
    }
}

impl Single {
    /// The square root.
    pub fn sqrt(self) -> (r: Single)
        ensures
            r@ == self@.square_root(),
    {
        proof {
            reveal(Num::square_root);
        }
        if self.is_nan() {
            return self;
        }
        if !self.is_finite() {
            if self.is_negative() {
                return Single::nan();
            }
            return self;
        }
        if self.is_zero() {
            return self;
        }
        if self.is_negative() {
            return Single::nan();
        }
        let a: (u32, u32) = self.parts();
        proof {
            mul::lemma_mul_basics(power2::pow2(a.1 as nat) as int);
        }
        let wide: (u32, u32) = single::normalised(a.0);
        let exp: u32 = a.1 + 149 - wide.1;
        let odd: u32 = exp % 2;
        let half_exp: u32 = (exp - 28 - odd) / 2;
        let w: u64 = if odd == 1 {
            wide.0 as u64 * 0x2000_0000
        } else {
            wide.0 as u64 * 0x1000_0000
        };
        let root_bits: u64 = integer_sqrt(w);
        let ghost square = self@->units * power2::pow2(149);
        let ghost root = Num::floor_sqrt(square);
        let ghost p = power2::pow2(half_exp as nat);
        proof {
            power2::lemma2_to64();
            lemma_square_bits(
                a.0 as nat,
                a.1 as nat,
                wide.0 as nat,
                wide.1 as nat,
                (28 + odd) as nat,
                half_exp as nat,
            );
            lemma_floor_sqrt(square);
            lemma_scaled_root(w as nat, root_bits as nat, half_exp as nat, square, root);
            assert(root_bits >= 0x100_0000) by (nonlinear_arith)
                requires
                    w < (root_bits + 1) * (root_bits + 1),
                    w >= 0x80_0000 * 0x1000_0000,
            ;
        }
        let inexact: bool = root_bits * root_bits != w;
        let ghost exact_root = root * root == square;
        let ghost n = if exact_root {
            root
        } else {
            2 * root + 1
        };
        let ghost d: nat = if exact_root {
            1
        } else {
            2
        };
        proof {
            power2::lemma_pow2_pos(half_exp as nat);
            mul::lemma_mul_basics(p as int);
            mul::lemma_mul_basics(n as int);
            assert(root_bits * (p * 2) == 2 * (root_bits * p)) by (nonlinear_arith);
            assert((root_bits + 1) * (p * 2) == 2 * ((root_bits + 1) * p)) by (nonlinear_arith);
        }
        single::round_bits(
            false,
            root_bits,
            half_exp as i32,
            inexact,
            Ghost(n),
            Ghost(d),
            Ghost(half_exp as nat),
            Ghost(0),
        )
    }
}

/// The number under the root, in the form whose root is taken.
proof fn lemma_square_bits(m: nat, e: nat, wide: nat, up: nat, extra: nat, g: nat)
    requires
        wide == m * power2::pow2(up),
        e + 149 == up + extra + 2 * g,
    ensures
        (m * power2::pow2(e)) * power2::pow2(149) == (wide * power2::pow2(extra)) * (power2::pow2(g)
            * power2::pow2(g)),
{
    rounding::lemma_pow2_split(e + 149, e, 149);
    rounding::lemma_pow2_split(e + 149, up, extra + 2 * g);
    rounding::lemma_pow2_split(extra + 2 * g, extra, 2 * g);
    rounding::lemma_pow2_split(2 * g, g, g);
    let x = power2::pow2(up) as int;
    let y = power2::pow2(extra) as int;
    let z = power2::pow2(2 * g) as int;
    mul::lemma_mul_is_associative(m as int, power2::pow2(e) as int, power2::pow2(149) as int);
    mul::lemma_mul_is_associative(m as int, x, y * z);
    mul::lemma_mul_is_associative(m * x, y, z);
}

} // verus!
