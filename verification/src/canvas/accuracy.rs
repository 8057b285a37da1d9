//! How close compositing comes to exact arithmetic.
//!
//! The shares of paint and backdrop are rounded at every step, yet what is left of
//! the errors is too small to show in an alpha, and hardly to be seen in a colour.

use super::blend;
use crate::binary32::error;
use crate::binary32::num::Num;
use crate::binary32::rounding;
use crate::binary32::single;
use crate::binary32::single::Single;
use vstd::arithmetic::div_mod;
use vstd::arithmetic::power2;
use vstd::prelude::*;

verus! {

/// So many times the error of rounding a number of size one.
pub open spec fn ulps(n: int) -> real {
    n as real / 16777216 as real
}

/// A byte as an exact share of the full scale.
pub open spec fn exact_share(byte: int) -> real {
    byte as real / 255 as real
}

/// The ends of the scale.
proof fn lemma_ends()
    ensures
        Single::value(blend::ONE) is Finite,
        error::amount(Single::value(blend::ONE)) == 1 as real,
        Single::value(blend::FULL) is Finite,
        error::amount(Single::value(blend::FULL)) == 255 as real,
        Single::value(blend::FULL).place() == 255 * Num::one_units(),
        Single::value(blend::ZERO) == Num::zero(),
        error::large() >= 1000000 as real,
{
    power2::lemma2_to64();
    error::lemma_large();
    rounding::lemma_pow2_split(149, 23, 126);
    error::lemma_whole_value(blend::ONE, 1, 0x80_0000, 126);
    rounding::lemma_pow2_split(149, 16, 133);
    error::lemma_whole_value(blend::FULL, 255, 0xff_0000, 133);
    assert(single::magnitude(0) == 0);
}

/// Rounding a number of size two or less leads away by less than three errors.
proof fn lemma_small_error(x: Num, v: real)
    requires
        error::rounded_from(x, v),
        -(201 as real / 100 as real) <= v <= 201 as real / 100 as real,
    ensures
        error::near(x, v, ulps(3)),
{
}

/// A part of a number is no greater than the number.
proof fn lemma_part(v: real, g: real, e: real)
    requires
        0 as real <= v <= 1 as real,
        -e <= g <= e,
    ensures
        -e <= v * g <= e,
{
    error::lemma_nonneg(v, e - g);
    error::lemma_nonneg(v, e + g);
    error::lemma_nonneg(1 as real - v, e);
    assert(v * (e - g) == v * e - v * g) by (nonlinear_arith);
    assert(v * (e + g) == v * e + v * g) by (nonlinear_arith);
    assert((1 as real - v) * e == e - v * e) by (nonlinear_arith);
}

/// The product of two values that are close to shares.
proof fn lemma_near_times(x: Num, y: Num, v: real, w: real, i: int, j: int)
    requires
        error::near(x, v, ulps(i)),
        error::near(y, w, ulps(j)),
        0 as real <= v <= 1 as real,
        0 as real <= w <= 1 as real,
        0 <= i <= 100,
        0 <= j <= 100,
    ensures
        error::near(x.times(y), v * w, ulps(i + j + 3)),
{
    let a = error::amount(x);
    let b = error::amount(y);
    let d = ulps(i);
    let e = ulps(j);
    let f = a - v;
    let g = b - w;
    lemma_part(v, g, e);
    lemma_part(w, f, d);
    error::lemma_bounded_product(f, g, 1 as real / 100 as real, e);
    assert((v + f) * (w + g) == v * w + v * g + w * f + f * g) by (nonlinear_arith);
    assert(a * b == v * w + v * g + w * f + f * g);
    lemma_part(v, w, 1 as real);
    lemma_ends();
    error::lemma_times(x, y);
    lemma_small_error(x.times(y), a * b);
}

/// The sum of two values that are close to shares.
proof fn lemma_near_plus(x: Num, y: Num, v: real, w: real, i: int, j: int)
    requires
        error::near(x, v, ulps(i)),
        error::near(y, w, ulps(j)),
        0 as real <= v + w <= 1 as real,
        0 <= i <= 100,
        0 <= j <= 100,
    ensures
        error::near(x.plus(y), v + w, ulps(i + j + 3)),
{
    lemma_ends();
    error::lemma_plus(x, y);
    lemma_small_error(x.plus(y), error::amount(x) + error::amount(y));
}

/// A share is close to the exact one.
proof fn lemma_share(byte: u8)
    ensures
        error::near(blend::share(byte), exact_share(byte as int), ulps(3)),
        0 as real <= exact_share(byte as int) <= 1 as real,
{
    lemma_ends();
    error::lemma_of_nat(byte as nat);
    let v = exact_share(byte as int);
    assert(0 as real <= v <= 1 as real);
    error::lemma_over(Num::of_nat(byte as nat), Single::value(blend::FULL));
    lemma_small_error(blend::share(byte), v);
}

/// What shows through is close to the exact share.
proof fn lemma_uncovered(alpha: u8)
    ensures
        error::near(blend::uncovered(alpha), exact_share(255 - alpha), ulps(6)),
        0 as real <= exact_share(255 - alpha) <= 1 as real,
{
    lemma_ends();
    lemma_share(alpha);
    error::lemma_negated(blend::share(alpha));
    let one = Single::value(blend::ONE);
    let v = exact_share(alpha as int);
    assert(error::near(one, 1 as real, ulps(0)));
    assert(error::near(blend::share(alpha).negated(), -v, ulps(3)));
    assert(1 as real + -v == exact_share(255 - alpha));
    lemma_near_plus(one, blend::share(alpha).negated(), 1 as real, -v, 0, 3);
}

/// A value close to a whole scale of bytes becomes a byte close to it.
proof fn lemma_byte(x: Num, q: real, e: real)
    requires
        error::near(x, q, e),
        0 as real <= q <= 1 as real,
        0 as real <= e <= 1 as real / 1000 as real,
    ensures
        error::size(blend::byte_of(x) as real - 255 as real * q) <= 1 as real / 2 as real
            + 255 as real * e + ulps(300),
{
    reveal(blend::byte_of);
    reveal(Num::rounded_whole);
    reveal(Num::cut_to);
    lemma_ends();
    let full = Single::value(blend::FULL);
    let a = error::amount(x);
    error::lemma_times(x, full);
    let y = x.times(full);
    let v = a * 255 as real;
    let b = error::amount(y);
    error::lemma_amount(y);
    let one = Num::one_units();
    let m = y->units;
    power2::lemma_pow2_pos(149);
    div_mod::lemma_fundamental_div_mod(m as int, one as int);
    let t: int = if 2 * (m % one) >= one {
        m as int / one as int + 1
    } else {
        m as int / one as int
    };
    let w = y.rounded_whole();
    assert(w == (Num::Finite { negative: y->Finite_negative, units: (t * one) as nat }));
    let low = m as int / one as int;
    assert(one * (low + 1) == one * low + one) by (nonlinear_arith);
    assert(t * one == one * t) by (nonlinear_arith);
    assert(-(one as int) <= 2 * (one * t - m) <= one);
    let signed: int = if y->Finite_negative {
        -t
    } else {
        t
    };
    error::lemma_cast_product(one as int, t);
    let o = one as real;
    let c = error::size(b);
    let tr = t as real;
    assert((2 as real * (tr - c)) * o == 2 as real * (o * tr - c * o)) by (nonlinear_arith);
    let off = 2 as real * (tr - c);
    error::lemma_cancel(off, 1 as real, o);
    error::lemma_cancel(-1 as real, off, o);
    assert(t >= 0) by {
        div_mod::lemma_div_pos_is_pos(m as int, one as int);
    }
    assert(0 <= signed <= 255);
    assert(signed == t);
    assert(one * t <= one * 255) by (nonlinear_arith)
        requires
            0 <= t <= 255,
            one >= 0,
    ;
    div_mod::lemma_div_multiples_vanish(t, one as int);
    assert(blend::byte_of(x) == t);
}

/// The alpha of paint over a backdrop is close to the exact one.
proof fn lemma_over_alpha(paint: u8, backdrop: u8)
    ensures
        error::near(
            blend::over_alpha(paint, backdrop),
            (255 * paint + backdrop * (255 - paint)) as real / 65025 as real,
            ulps(18),
        ),
        0 <= 255 * paint + backdrop * (255 - paint) <= 65025,
        paint > 0 ==> 255 * paint + backdrop * (255 - paint) >= 255,
{
    reveal(blend::over_alpha);
    lemma_share(paint);
    lemma_share(backdrop);
    lemma_uncovered(paint);
    let p = exact_share(paint as int);
    let b = exact_share(backdrop as int);
    let o = exact_share(255 - paint);
    lemma_near_times(blend::share(backdrop), blend::uncovered(paint), b, o, 3, 6);
    let shown = backdrop * (255 - paint);
    assert(0 <= shown <= 255 * (255 - paint)) by (nonlinear_arith)
        requires
            shown == backdrop * (255 - paint),
            0 <= backdrop <= 255,
            0 <= paint <= 255,
    ;
    error::lemma_cast_product(backdrop as int, 255 - paint);
    let v = b * o;
    assert(v == shown as real / 65025 as real) by (nonlinear_arith)
        requires
            v == (backdrop as real / 255 as real) * ((255 - paint) as real / 255 as real),
            shown as real == backdrop as real * (255 - paint) as real,
    ;
    let w = (255 * paint + shown) as real / 65025 as real;
    assert(p + v == w);
    lemma_near_plus(
        blend::share(paint),
        blend::share(backdrop).times(blend::uncovered(paint)),
        p,
        v,
        3,
        12,
    );
}

/// A byte that is close to the exact quotient by 255 is that quotient, rounded.
proof fn lemma_nearest_byte(byte: u8, k: int, q: real)
    requires
        q == k as real / 65025 as real,
        error::size(byte as real - 255 as real * q) <= 501 as real / 1000 as real,
        0 <= k,
    ensures
        byte == (k + 127) / 255,
{
    assert(255 as real * q == k as real / 255 as real);
    assert(-128 < 255 * byte - k < 128);
}

/// The alpha that painting leaves is the exact one, rounded to a whole byte: that of
/// the paint, and that of the backdrop as far as it shows through.
pub proof fn law_painted_alpha(paint: u8, backdrop: u8)
    ensures
        blend::byte_of(blend::over_alpha(paint, backdrop)) == (255 * paint + backdrop * (255
            - paint) + 127) / 255,
{
    lemma_over_alpha(paint, backdrop);
    let k = 255 * paint + backdrop * (255 - paint);
    let q = k as real / 65025 as real;
    lemma_byte(blend::over_alpha(paint, backdrop), q, ulps(18));
    lemma_nearest_byte(blend::byte_of(blend::over_alpha(paint, backdrop)), k, q);
}

/// The alpha that erasing leaves is the exact one, rounded to a whole byte: that of
/// the pixel as far as it shows through.
pub proof fn law_erased_alpha(erase: u8, alpha: u8)
    ensures
        blend::byte_of(blend::erased_alpha(erase, alpha)) == (alpha * (255 - erase) + 127) / 255,
{
    reveal(blend::erased_alpha);
    lemma_share(alpha);
    lemma_uncovered(erase);
    let b = exact_share(alpha as int);
    let o = exact_share(255 - erase);
    lemma_near_times(blend::share(alpha), blend::uncovered(erase), b, o, 3, 6);
    let k = alpha * (255 - erase);
    assert(0 <= k <= 65025) by (nonlinear_arith)
        requires
            k == alpha * (255 - erase),
            0 <= alpha <= 255,
            0 <= erase <= 255,
    ;
    error::lemma_cast_product(alpha as int, 255 - erase);
    let q = b * o;
    assert(q == k as real / 65025 as real) by (nonlinear_arith)
        requires
            q == (alpha as real / 255 as real) * ((255 - erase) as real / 255 as real),
            k as real == alpha as real * (255 - erase) as real,
    ;
    lemma_byte(blend::erased_alpha(erase, alpha), q, ulps(12));
    lemma_nearest_byte(blend::byte_of(blend::erased_alpha(erase, alpha)), k, q);
}

/// The weight of a pixel that paint is laid on: that of the paint, and that of the
/// backdrop as far as it shows through.
pub open spec fn weight(paint_alpha: u8, backdrop_alpha: u8) -> int {
    255 * paint_alpha + backdrop_alpha * (255 - paint_alpha)
}

/// What is seen of one colour channel: of the paint and of the backdrop, each by its
/// weight.
pub open spec fn seen(paint: u8, paint_alpha: u8, backdrop: u8, backdrop_alpha: u8) -> int {
    paint * (255 * paint_alpha) + backdrop * (backdrop_alpha * (255 - paint_alpha))
}

/// The exact mean of one colour channel.
pub open spec fn mean_of(paint: u8, paint_alpha: u8, backdrop: u8, backdrop_alpha: u8) -> real {
    seen(paint, paint_alpha, backdrop, backdrop_alpha) as real / weight(
        paint_alpha,
        backdrop_alpha,
    ) as real
}

/// The weight of a pixel that paint is laid on is positive.
pub proof fn lemma_weight(paint_alpha: u8, backdrop_alpha: u8)
    requires
        paint_alpha > 0,
    ensures
        weight(paint_alpha, backdrop_alpha) > 0,
{
    lemma_over_alpha(paint_alpha, backdrop_alpha);
}

/// Paint on a pixel shows, whatever was there.
pub proof fn lemma_paint_shows(paint_alpha: u8, backdrop_alpha: u8)
    requires
        paint_alpha > 0,
    ensures
        Single::value(blend::ZERO).below(blend::over_alpha(paint_alpha, backdrop_alpha)),
{
    lemma_ends();
    lemma_over_alpha(paint_alpha, backdrop_alpha);
    error::lemma_amount(blend::over_alpha(paint_alpha, backdrop_alpha));
}

/// The product of exact shares.
proof fn lemma_shares_product(a: int, b: int)
    ensures
        exact_share(a) * exact_share(b) == (a * b) as real / 65025 as real,
{
    error::lemma_cast_product(a, b);
    let x = a as real;
    let y = b as real;
    assert((x / 255 as real) * (y / 255 as real) == (x * y) / 65025 as real) by (nonlinear_arith);
}

/// The mean is no lower and no higher than the two channels.
pub proof fn lemma_seen_bounds(
    paint: u8,
    paint_alpha: u8,
    backdrop: u8,
    backdrop_alpha: u8,
    low: int,
    high: int,
)
    requires
        low <= paint <= high,
        low <= backdrop <= high,
    ensures
        low * weight(paint_alpha, backdrop_alpha) <= seen(
            paint,
            paint_alpha,
            backdrop,
            backdrop_alpha,
        ) <= high * weight(paint_alpha, backdrop_alpha),
{
    let m = 255 * paint_alpha as int;
    let n = backdrop_alpha * (255 - paint_alpha);
    assert(n >= 0) by (nonlinear_arith)
        requires
            n == backdrop_alpha * (255 - paint_alpha),
            0 <= backdrop_alpha,
            paint_alpha <= 255,
    ;
    assert(low * (m + n) <= paint * m + backdrop * n <= high * (m + n)) by (nonlinear_arith)
        requires
            m >= 0,
            n >= 0,
            low <= paint <= high,
            low <= backdrop <= high,
    ;
}

/// The exact sum of what is seen is the exact mean of it times its weight.
proof fn lemma_exact_sum(paint: u8, paint_alpha: u8, backdrop: u8, backdrop_alpha: u8)
    requires
        weight(paint_alpha, backdrop_alpha) > 0,
    ensures
        ({
            let n = exact_share(paint as int) * exact_share(paint_alpha as int) + exact_share(
                backdrop as int,
            ) * exact_share(backdrop_alpha as int) * exact_share(255 - paint_alpha);
            let d = weight(paint_alpha, backdrop_alpha) as real / 65025 as real;
            let q = mean_of(paint, paint_alpha, backdrop, backdrop_alpha) / 255 as real;
            n == q * d && 0 as real <= q <= 1 as real
        }),
{
    let s = seen(paint, paint_alpha, backdrop, backdrop_alpha);
    let w = weight(paint_alpha, backdrop_alpha);
    let o = 255 - paint_alpha;
    lemma_shares_product(paint as int, paint_alpha as int);
    lemma_shares_product(backdrop as int, backdrop_alpha as int);
    let x = paint * paint_alpha;
    let y = backdrop * backdrop_alpha;
    error::lemma_cast_product(y, o);
    let yr = y as real;
    let or = o as real;
    assert((yr / 65025 as real) * (or / 255 as real) == (yr * or) / 16581375 as real)
        by (nonlinear_arith);
    assert(s == 255 * x + y * o) by (nonlinear_arith)
        requires
            s == paint * (255 * paint_alpha) + backdrop * (backdrop_alpha * o),
            x == paint * paint_alpha,
            y == backdrop * backdrop_alpha,
    ;
    let sr = s as real;
    let wr = w as real;
    let mean = sr / wr;
    assert(mean * wr == sr) by (nonlinear_arith)
        requires
            mean == sr / wr,
            wr > 0 as real,
    ;
    assert((mean / 255 as real) * (wr / 65025 as real) == (mean * wr) / 16581375 as real)
        by (nonlinear_arith);
    lemma_seen_bounds(paint, paint_alpha, backdrop, backdrop_alpha, 0, 255);
    error::lemma_cast_product(255, w);
    error::lemma_cancel(mean, 255 as real, wr);
    assert(0 as real * wr == 0 as real);
    error::lemma_cancel(0 as real, mean, wr);
}

/// One colour channel of paint over a backdrop is close to the exact mean.
proof fn lemma_over_channel(paint: u8, paint_alpha: u8, backdrop: u8, backdrop_alpha: u8)
    requires
        paint_alpha > 0,
    ensures
        error::near(
            blend::over_channel(paint, paint_alpha, backdrop, backdrop_alpha),
            mean_of(paint, paint_alpha, backdrop, backdrop_alpha) / 255 as real,
            ulps(12291),
        ),
        0 as real <= mean_of(paint, paint_alpha, backdrop, backdrop_alpha) <= 255 as real,
{
    reveal(blend::over_channel);
    lemma_share(paint);
    lemma_share(paint_alpha);
    lemma_share(backdrop);
    lemma_share(backdrop_alpha);
    lemma_uncovered(paint_alpha);
    lemma_over_alpha(paint_alpha, backdrop_alpha);
    let p = exact_share(paint as int);
    let pa = exact_share(paint_alpha as int);
    let b = exact_share(backdrop as int);
    let ba = exact_share(backdrop_alpha as int);
    let o = exact_share(255 - paint_alpha);
    let sp = blend::share(paint);
    let spa = blend::share(paint_alpha);
    let sb = blend::share(backdrop);
    let sba = blend::share(backdrop_alpha);
    let so = blend::uncovered(paint_alpha);
    lemma_near_times(sp, spa, p, pa, 3, 3);
    lemma_near_times(sb, sba, b, ba, 3, 3);
    lemma_part(b, ba, 1 as real);
    error::lemma_nonneg(b, ba);
    lemma_near_times(sb.times(sba), so, b * ba, o, 9, 6);
    lemma_part(p, pa, pa);
    error::lemma_nonneg(p, pa);
    lemma_part(b * ba, o, o);
    error::lemma_nonneg(b * ba, o);
    let n = p * pa + b * ba * o;
    lemma_near_plus(sp.times(spa), sb.times(sba).times(so), p * pa, b * ba * o, 9, 18);
    let num = sp.times(spa).plus(sb.times(sba).times(so));
    let den = blend::over_alpha(paint_alpha, backdrop_alpha);
    let d = weight(paint_alpha, backdrop_alpha) as real / 65025 as real;
    lemma_exact_sum(paint, paint_alpha, backdrop, backdrop_alpha);
    let q = mean_of(paint, paint_alpha, backdrop, backdrop_alpha) / 255 as real;
    lemma_quotient(num, den, n, d, q);
}

/// The quotient of two values that are close to a share of one another.
proof fn lemma_quotient(num: Num, den: Num, n: real, d: real, q: real)
    requires
        error::near(num, n, ulps(30)),
        error::near(den, d, ulps(18)),
        n == q * d,
        0 as real <= q <= 1 as real,
        1 as real / 255 as real <= d,
    ensures
        error::near(num.over(den), q, ulps(12291)),
{
    lemma_ends();
    let x = error::amount(num);
    let y = error::amount(den);
    let r = x / y;
    assert(r * y == x) by (nonlinear_arith)
        requires
            r == x / y,
            y > 0 as real,
    ;
    lemma_part(q, d - y, ulps(18));
    assert(q * (d - y) == q * d - q * y) by (nonlinear_arith);
    assert((r - q) * y == r * y - q * y) by (nonlinear_arith);
    let e = ulps(12288);
    error::lemma_nonneg(e, y - 1 as real / 256 as real);
    assert(e * (y - 1 as real / 256 as real) == e * y - e / 256 as real) by (nonlinear_arith);
    assert(e * y >= ulps(48));
    assert((-e) * y == -(e * y)) by (nonlinear_arith);
    error::lemma_cancel(r - q, e, y);
    error::lemma_cancel(-e, r - q, y);
    error::lemma_over(num, den);
    lemma_small_error(num.over(den), r);
}

/// A colour that painting leaves is the exact mean of paint and backdrop, each by its
/// weight, to within seven tenths of a step.
pub proof fn law_painted_channel(paint: u8, paint_alpha: u8, backdrop: u8, backdrop_alpha: u8)
    requires
        paint_alpha > 0,
    ensures
        ({
            let byte = blend::byte_of(
                blend::over_channel(paint, paint_alpha, backdrop, backdrop_alpha),
            );
            let w = weight(paint_alpha, backdrop_alpha);
            let off = byte * w - seen(paint, paint_alpha, backdrop, backdrop_alpha);
            -7 * w <= 10 * off <= 7 * w
        }),
{
    lemma_over_alpha(paint_alpha, backdrop_alpha);
    lemma_over_channel(paint, paint_alpha, backdrop, backdrop_alpha);
    let x = blend::over_channel(paint, paint_alpha, backdrop, backdrop_alpha);
    let byte = blend::byte_of(x);
    let mean = mean_of(paint, paint_alpha, backdrop, backdrop_alpha);
    lemma_byte(x, mean / 255 as real, ulps(12291));
    let w = weight(paint_alpha, backdrop_alpha);
    let s = seen(paint, paint_alpha, backdrop, backdrop_alpha);
    let sr = s as real;
    let wr = w as real;
    assert(mean * wr == sr) by (nonlinear_arith)
        requires
            mean == sr / wr,
            wr > 0 as real,
    ;
    error::lemma_cast_product(byte as int, w);
    let br = byte as real;
    assert((br - mean) * wr == br * wr - mean * wr) by (nonlinear_arith);
    error::lemma_bounded_product(br - mean, wr, 7 as real / 10 as real, wr);
}

} // verus!
