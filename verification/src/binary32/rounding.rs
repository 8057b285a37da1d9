//! Facts about rounding to the format.

use super::num::Num;
use vstd::arithmetic::div_mod;
use vstd::arithmetic::mul;
use vstd::arithmetic::power2;
use vstd::prelude::*;

verus! {

/// Powers of two add their exponents when multiplied; `k` is given as the sum.
pub proof fn lemma_pow2_split(k: nat, i: nat, j: nat)
    requires
        k == i + j,
    ensures
        power2::pow2(k) == power2::pow2(i) * power2::pow2(j),
        power2::pow2(i) > 0,
        power2::pow2(j) > 0,
        power2::pow2(k) > 0,
{
    power2::lemma_pow2_adds(i, j);
    power2::lemma_pow2_pos(i);
    power2::lemma_pow2_pos(j);
    power2::lemma_pow2_pos(k);
}

/// The spacing exponent is the one that keeps the magnitude within 24 bits and
/// does not waste a bit.
pub proof fn lemma_spacing(n: nat, d: nat, k: nat)
    requires
        d > 0,
        n < d * power2::pow2(24 + k),
        k == 0 || n >= d * power2::pow2((23 + k) as nat),
    ensures
        Num::spacing(n, d) == k,
    decreases k,
{
    if k > 0 {
        let j = (k - 1) as nat;
        lemma_pow2_split((23 + k) as nat, 24, j);
        power2::lemma_pow2_unfold(24 + k);
        let a = power2::pow2(24) as int;
        let b = power2::pow2(j) as int;
        assert(d * (a * b) >= d * a) by (nonlinear_arith)
            requires
                b > 0,
                a > 0,
                d > 0,
        ;
        let c = power2::pow2((23 + k) as nat) as int;
        assert(d * (2 * c) == (2 * d) * c) by (nonlinear_arith);
        if k > 1 {
            power2::lemma_pow2_unfold((23 + k) as nat);
            let e = power2::pow2((22 + k) as nat) as int;
            assert(d * (2 * e) == (2 * d) * e) by (nonlinear_arith);
        }
        lemma_spacing(n, 2 * d, j);
    }
}

/// Rounding a quotient to a whole number does not see a common factor.
pub proof fn lemma_nearest_scale(n: nat, d: nat, g: nat)
    requires
        d > 0,
        g > 0,
    ensures
        Num::nearest_even(n * g, d * g) == Num::nearest_even(n, d),
{
    let q = (n / d) as int;
    let r = (n % d) as int;
    div_mod::lemma_fundamental_div_mod(n as int, d as int);
    assert(n * g == q * (d * g) + r * g && 0 <= r * g < d * g) by (nonlinear_arith)
        requires
            n == d * q + r,
            0 <= r < d,
            g > 0,
    ;
    assert(d * g > 0) by (nonlinear_arith)
        requires
            d > 0,
            g > 0,
    ;
    div_mod::lemma_fundamental_div_mod_converse((n * g) as int, (d * g) as int, q, r * g);
    assert(2 * (r * g) < d * g <==> 2 * r < d) by (nonlinear_arith)
        requires
            g > 0,
    ;
    assert(2 * (r * g) == d * g <==> 2 * r == d) by (nonlinear_arith)
        requires
            g > 0,
    ;
}

/// Rounding by bits: where `n / c` lies in `p .. p + 1`, rounding `n / (m * c)` to
/// a whole number only looks at the quotient and the rest of `p / m`, and at
/// whether `n / c` is `p` itself.
pub proof fn lemma_nearest_from_bits(n: nat, c: nat, p: nat, m: nat, half: nat)
    requires
        c > 0,
        half > 0,
        m == 2 * half,
        p * c <= n < (p + 1) * c,
    ensures
        ({
            let low = p / m;
            let rest = p % m;
            Num::nearest_even(n, m * c) == if rest > half || (rest == half && (n != p * c || low % 2
                != 0)) {
                low + 1
            } else {
                low
            }
        }),
{
    let q = (p / m) as int;
    let r = (p % m) as int;
    div_mod::lemma_fundamental_div_mod(p as int, m as int);
    let rest = n - q * (m * c);
    assert(rest == n - p * c + r * c) by (nonlinear_arith)
        requires
            p == m * q + r,
            rest == n - q * (m * c),
    ;
    assert((p + 1) * c == p * c + c) by (nonlinear_arith);
    assert(0 <= r * c && r * c + c <= m * c) by (nonlinear_arith)
        requires
            0 <= r < m,
            c > 0,
    ;
    assert(m * c > 0) by (nonlinear_arith)
        requires
            m > 0,
            c > 0,
    ;
    div_mod::lemma_fundamental_div_mod_converse(n as int, (m * c) as int, q, rest);
    assert(m * c == 2 * (half * c)) by (nonlinear_arith)
        requires
            m == 2 * half,
    ;
    if r < half {
        assert(r * c + c <= half * c) by (nonlinear_arith)
            requires
                r + 1 <= half,
                c > 0,
        ;
    } else if r > half {
        assert(r * c >= half * c + c) by (nonlinear_arith)
            requires
                r >= half + 1,
                c > 0,
        ;
    }
}

/// A magnitude of at most 24 significant bits is not changed by rounding.
pub proof fn lemma_round_exact(m: nat, s: nat)
    requires
        m < power2::pow2(24),
    ensures
        Num::round_units(m * power2::pow2(s), 1) == m * power2::pow2(s),
{
    let n = m * power2::pow2(s);
    let k = Num::spacing(n, 1);
    power2::lemma_pow2_pos(s);
    mul::lemma_mul_strict_inequality(m as int, power2::pow2(24) as int, power2::pow2(s) as int);
    lemma_spacing_at_most(n, 1, s);
    lemma_pow2_split(s, (s - k) as nat, k);
    let a = power2::pow2((s - k) as nat);
    let b = power2::pow2(k);
    assert(n == (m * a) * b) by (nonlinear_arith)
        requires
            n == m * (a * b),
    ;
    div_mod::lemma_fundamental_div_mod_converse(n as int, b as int, (m * a) as int, 0);
}

/// A magnitude below 2^(24 + k) has a spacing exponent of at most `k`.
pub proof fn lemma_spacing_at_most(n: nat, d: nat, k: nat)
    requires
        d > 0,
        n < d * power2::pow2(24) * power2::pow2(k),
    ensures
        Num::spacing(n, d) <= k,
    decreases k,
{
    if n >= d * power2::pow2(24) {
        power2::lemma2_to64();
        if k == 0 {
            assert(d * power2::pow2(24) * 1 == d * power2::pow2(24));
        } else {
            power2::lemma_pow2_unfold(k);
            let a = power2::pow2(24) as int;
            let b = power2::pow2((k - 1) as nat) as int;
            assert(d * a * (2 * b) == (2 * d) * a * b) by (nonlinear_arith);
            lemma_spacing_at_most(n, 2 * d, (k - 1) as nat);
        }
    }
}

/// The spacing exponent of a magnitude whose leading bits are known: `n / d` lies
/// in `p .. p + 1` times 2^(a - b), and `p` has `len` bits.
pub proof fn lemma_spacing_from_bits(n: nat, d: nat, p: nat, len: nat, a: nat, b: nat, k: nat)
    requires
        d > 0,
        len > 0,
        power2::pow2((len - 1) as nat) <= p < power2::pow2(len),
        p * (power2::pow2(a) * d) <= n * power2::pow2(b) < (p + 1) * (power2::pow2(a) * d),
        k == if len + a >= b + 24 {
            len + a - b - 24
        } else {
            0
        },
    ensures
        Num::spacing(n, d) == k,
{
    let pa = power2::pow2(a) as int;
    let pb = power2::pow2(b) as int;
    let pl = power2::pow2(len) as int;
    power2::lemma_pow2_pos(a);
    power2::lemma_pow2_pos(b);
    lemma_pow2_split(len + a, len, a);
    lemma_pow2_split(24 + k + b, 24 + k, b);
    let top = power2::pow2(24 + k) as int;
    assert(len + a <= 24 + k + b);
    if len + a < 24 + k + b {
        power2::lemma_pow2_strictly_increases(len + a, 24 + k + b);
    }
    assert(pl * pa <= top * pb);
    assert(n < d * top) by (nonlinear_arith)
        requires
            n * pb < (p + 1) * (pa * d),
            p + 1 <= pl,
            pl * pa <= top * pb,
            pa > 0,
            pb > 0,
            d > 0,
    {
        assert((p + 1) * (pa * d) <= pl * (pa * d)) by (nonlinear_arith)
            requires
                p + 1 <= pl,
                pa > 0,
                d > 0,
        ;
        assert(pl * (pa * d) == (pl * pa) * d) by (nonlinear_arith);
        assert((pl * pa) * d <= (top * pb) * d) by (nonlinear_arith)
            requires
                pl * pa <= top * pb,
                d > 0,
        ;
        assert((top * pb) * d == (d * top) * pb) by (nonlinear_arith);
        assert(n * pb < (d * top) * pb);
    }
    if k > 0 {
        let below = power2::pow2((23 + k) as nat) as int;
        let ph = power2::pow2((len - 1) as nat) as int;
        lemma_pow2_split((len - 1 + a) as nat, (len - 1) as nat, a);
        lemma_pow2_split((23 + k + b) as nat, (23 + k) as nat, b);
        assert(ph * pa == below * pb);
        assert(n >= d * below) by (nonlinear_arith)
            requires
                n * pb >= p * (pa * d),
                p >= ph,
                ph * pa == below * pb,
                pa > 0,
                pb > 0,
                d > 0,
        {
            assert(p * (pa * d) >= ph * (pa * d)) by (nonlinear_arith)
                requires
                    p >= ph,
                    pa > 0,
                    d > 0,
            ;
            assert(ph * (pa * d) == (ph * pa) * d) by (nonlinear_arith);
            assert((below * pb) * d == (d * below) * pb) by (nonlinear_arith);
            assert(n * pb >= (d * below) * pb);
        }
    }
    lemma_spacing(n, d, k);
}

/// Rounding by bits, where some bits of `p` lie below the spacing.
pub proof fn lemma_round_bits_down(
    n: nat,
    d: nat,
    p: nat,
    len: nat,
    a: nat,
    b: nat,
    k: nat,
    s: nat,
)
    requires
        d > 0,
        len > 0,
        power2::pow2((len - 1) as nat) <= p < power2::pow2(len),
        p * (power2::pow2(a) * d) <= n * power2::pow2(b) < (p + 1) * (power2::pow2(a) * d),
        k == if len + a >= b + 24 {
            len + a - b - 24
        } else {
            0
        },
        s > 0,
        s + a == k + b,
    ensures
        ({
            let m = power2::pow2(s);
            let half = power2::pow2((s - 1) as nat);
            let exact = p * (power2::pow2(a) * d) == n * power2::pow2(b);
            let low = p / m;
            let rest = p % m;
            Num::round_units(n, d) == (if rest > half || (rest == half && (!exact || low % 2 != 0)) {
                low + 1
            } else {
                low
            }) * power2::pow2(k)
        }),
{
    lemma_spacing_from_bits(n, d, p, len, a, b, k);
    let pa = power2::pow2(a);
    let pb = power2::pow2(b);
    let pk = power2::pow2(k);
    let m = power2::pow2(s);
    let half = power2::pow2((s - 1) as nat);
    power2::lemma_pow2_unfold(s);
    power2::lemma_pow2_pos((s - 1) as nat);
    lemma_pow2_split(s + a, s, a);
    lemma_pow2_split(k + b, k, b);
    assert(pa * d > 0) by (nonlinear_arith)
        requires
            pa > 0,
            d > 0,
    ;
    assert(d * pk > 0) by (nonlinear_arith)
        requires
            pk > 0,
            d > 0,
    ;
    lemma_nearest_from_bits(n * pb, pa * d, p, m, half);
    lemma_nearest_scale(n, d * pk, pb);
    assert(m * (pa * d) == (d * pk) * pb) by (nonlinear_arith)
        requires
            m * pa == pk * pb,
    ;
}

/// A product of five factors in two groupings.
proof fn lemma_regroup(p: int, k: int, b: int, s: int, d: int)
    ensures
        p * (((k * b) * s) * d) == b * ((p * s) * (d * k)),
{
    mul::lemma_mul_is_associative(k, b, s);
    mul::lemma_mul_is_commutative(b, s);
    mul::lemma_mul_is_associative(k, s, b);
    assert((k * b) * s == (k * s) * b);
    mul::lemma_mul_is_associative(k * s, b, d);
    mul::lemma_mul_is_commutative(b, d);
    mul::lemma_mul_is_associative(k * s, d, b);
    mul::lemma_mul_is_associative(p, (k * s) * d, b);
    mul::lemma_mul_is_commutative(k, s);
    mul::lemma_mul_is_associative(s, k, d);
    mul::lemma_mul_is_associative(p, s, k * d);
    mul::lemma_mul_is_commutative(k, d);
    mul::lemma_mul_is_commutative((p * s) * (d * k), b);
}

/// Rounding by bits, where all of `p` lies at or above the spacing: nothing is
/// lost.
pub proof fn lemma_round_bits_exact(n: nat, d: nat, p: nat, len: nat, a: nat, b: nat, k: nat, s: nat)
    requires
        d > 0,
        len > 0,
        power2::pow2((len - 1) as nat) <= p < power2::pow2(len),
        p * (power2::pow2(a) * d) == n * power2::pow2(b),
        k == if len + a >= b + 24 {
            len + a - b - 24
        } else {
            0
        },
        a == k + b + s,
    ensures
        Num::round_units(n, d) == (p * power2::pow2(s)) * power2::pow2(k),
        p * power2::pow2(s) < power2::pow2(24),
{
    let pa = power2::pow2(a);
    let pb = power2::pow2(b);
    let pk = power2::pow2(k);
    let ps = power2::pow2(s);
    power2::lemma_pow2_pos(a);
    assert(p * (pa * d) < (p + 1) * (pa * d)) by (nonlinear_arith)
        requires
            pa > 0,
            d > 0,
    ;
    lemma_spacing_from_bits(n, d, p, len, a, b, k);
    lemma_pow2_split(a, k + b, s);
    lemma_pow2_split(k + b, k, b);
    lemma_regroup(p as int, pk as int, pb as int, ps as int, d as int);
    mul::lemma_mul_is_commutative(n as int, pb as int);
    mul::lemma_mul_equality_converse(pb as int, n as int, ((p * ps) * (d * pk)) as int);
    assert(d * pk > 0) by (nonlinear_arith)
        requires
            pk > 0,
            d > 0,
    ;
    div_mod::lemma_fundamental_div_mod_converse(n as int, (d * pk) as int, (p * ps) as int, 0);
    assert(len + s <= 24);
    lemma_pow2_split(len + s, len, s);
    if len + s < 24 {
        power2::lemma_pow2_strictly_increases(len + s, 24);
    }
    mul::lemma_mul_strict_inequality(p as int, power2::pow2(len) as int, ps as int);
}

} // verus!
