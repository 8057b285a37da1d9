//! The panel with the two colours of the brush.

use crate::binary32::error;
use crate::binary32::num::Num;
use crate::binary32::order;
use crate::binary32::rounding;
use crate::binary32::single::Single;
use crate::text;
use vstd::arithmetic::div_mod;
use vstd::arithmetic::mul;
use vstd::arithmetic::power2;
use vstd::prelude::*;
use vstd::string::StringExecFns;

verus! {

/// 255
pub const FULL: u32 = 0x437f_0000;

/// A colour, each part of it from nothing at zero to its most at one.
#[derive(Clone, Copy, Debug)]
pub struct Rgba {
    pub r: Single,
    pub g: Single,
    pub b: Single,
    pub a: Single,
}

/// The byte for a part of a colour, cut off and not rounded.
pub open spec fn part_byte(part: Num) -> nat {
    part.times(Single::value(FULL)).cut_to(255)
}

impl Rgba {
    /// The colour as three bytes in a row, red on the left. Its transparency is left
    /// out.
    pub open spec fn packed(self) -> nat {
        part_byte(self.r@) * 0x1_0000 + part_byte(self.g@) * 0x100 + part_byte(self.b@)
    }

    /// The three bytes of the colour in decimal.
    pub open spec fn in_words(self) -> Seq<char> {
        "RGB: "@ + text::decimal(part_byte(self.r@)) + ", "@ + text::decimal(part_byte(self.g@))
            + ", "@ + text::decimal(part_byte(self.b@))
    }

    /// The bytes for red, green and blue.
    fn bytes(self) -> (r: (u8, u8, u8))
        ensures
            r.0 == part_byte(self.r@),
            r.1 == part_byte(self.g@),
            r.2 == part_byte(self.b@),
    {
        let full: Single = Single { bits: FULL };
        (self.r.mul(full).to_u8(), self.g.mul(full).to_u8(), self.b.mul(full).to_u8())
    }
}

/// Three bytes in a row.
fn pack(bytes: (u8, u8, u8)) -> (r: u32)
    ensures
        r == bytes.0 * 0x1_0000 + bytes.1 * 0x100 + bytes.2,
{
    bytes.0 as u32 * 0x1_0000 + bytes.1 as u32 * 0x100 + bytes.2 as u32
}

/// What the panel shows.
pub struct ColorPanel {
    /// The fill of the swatch in front.
    pub fg_rgb: u32,
    /// The fill of the swatch behind.
    pub bg_rgb: u32,
    /// The colour in front, in words.
    pub label: String,
}

/// The panel for the two colours given.
pub fn render_color_panel(fg_color: Rgba, bg_color: Rgba) -> (r: ColorPanel)
    ensures
        r.fg_rgb == fg_color.packed(),
        r.bg_rgb == bg_color.packed(),
        r.label@ == fg_color.in_words(),
{
    let fg_bytes: (u8, u8, u8) = fg_color.bytes();
    let bg_bytes: (u8, u8, u8) = bg_color.bytes();
    let mut label: String = "RGB: ".to_owned();
    text::push_decimal(&mut label, fg_bytes.0 as u128);
    label.append(", ");
    text::push_decimal(&mut label, fg_bytes.1 as u128);
    label.append(", ");
    text::push_decimal(&mut label, fg_bytes.2 as u128);
    ColorPanel { fg_rgb: pack(fg_bytes), bg_rgb: pack(bg_bytes), label }
}

/// A part of a colour between nothing and its most is written as the byte that it fills, cut
/// off: the byte is no more than 255 times the part, and less than one below it, but for
/// rounding.
pub proof fn law_part_fills_byte(part: Num)
    requires
        part is Finite,
        0 as real <= error::amount(part) <= 1 as real,
    ensures
        ({
            let byte = part_byte(part) as real;
            let exact = 255 as real * error::amount(part);
            &&& part_byte(part) <= 255
            &&& byte <= exact + 1 as real / 10000 as real
            &&& byte > exact - 1 as real - 1 as real / 10000 as real
        }),
{
    reveal(Num::cut_to);
    power2::lemma2_to64();
    rounding::lemma_pow2_split(149, 16, 133);
    error::lemma_whole_value(FULL, 255, 0xff_0000, 133);
    error::lemma_large();
    let full = Single::value(FULL);
    let a = error::amount(part);
    assert(a * 255 as real == 255 as real * a);
    error::lemma_times(part, full);
    let x = part.times(full);
    error::lemma_order(part, part);
    let one = Num::one_units() as int;
    power2::lemma_pow2_pos(149);
    assert(!(x is Nan) && x.place() >= 0) by {
        order::lemma_product_of_nonneg(part, full);
    }
    error::lemma_amount(x);
    let units = x->units as int;
    let w = units / one;
    div_mod::lemma_fundamental_div_mod(units, one);
    div_mod::lemma_mod_bound(units, one);
    div_mod::lemma_div_pos_is_pos(units, one);
    mul::lemma_mul_is_commutative(w, one);
    assert((w + 1) * one == w * one + one) by (nonlinear_arith);
    error::lemma_cast_product(w, one);
    error::lemma_cast_product(w + 1, one);
    let o = one as real;
    let b = error::amount(x);
    if x.place() > 0 {
        error::lemma_cancel(w as real, b, o);
        error::lemma_cancel(b, (w + 1) as real, o);
        assert(b < (w + 1) as real) by {
            if b == (w + 1) as real {
                assert(units == (w + 1) * one);
            }
        }
    } else {
        assert(units == 0);
        div_mod::lemma_div_of0(one);
    }
}

/// The ends of the scale, and what lies beyond them: nothing gives zero, and the most gives
/// 255; so do all parts below and above, and what is no number gives zero.
pub proof fn law_part_ends(part: Num)
    ensures
        part is Nan ==> part_byte(part) == 0,
        !(part is Nan) && part.place() <= 0 ==> part_byte(part) == 0,
        part is Finite && error::amount(part) >= 1 as real ==> part_byte(part) == 255,
        part is Infinite && part.place() > 0 ==> part_byte(part) == 255,
{
    reveal(Num::cut_to);
    reveal(Num::times);
    power2::lemma2_to64();
    rounding::lemma_pow2_split(149, 16, 133);
    error::lemma_whole_value(FULL, 255, 0xff_0000, 133);
    power2::lemma_pow2_pos(149);
    power2::lemma_pow2_pos(277);
    let full = Single::value(FULL);
    let one = Num::one_units();
    order::lemma_round_zero(one);
    mul::lemma_mul_basics(full->units as int);
    div_mod::lemma_div_of0(one as int);
    if part is Finite && error::amount(part) >= 1 as real {
        let top = Num::Finite { negative: false, units: one };
        error::lemma_amount(top);
        let o = one as real;
        assert(1 as real * o == o);
        error::lemma_cancel(error::amount(top), 1 as real, o);
        error::lemma_order(top, part);
        order::lemma_single_in_format(Single { bits: FULL });
        order::lemma_times_one(full);
        order::lemma_times_commutes(top, full);
        order::lemma_times_order(full, top, part);
        let x = part.times(full);
        if x is Finite {
            assert(x->units >= 255 * one);
            div_mod::lemma_div_is_ordered((255 * one) as int, x->units as int, one as int);
            div_mod::lemma_div_multiples_vanish(255, one as int);
            mul::lemma_mul_is_commutative(255, one as int);
        }
    }
}

/// The three bytes of a colour are found again in the row, red on the left; and the words name
/// the same bytes in the same order.
pub proof fn law_colour_is_packed(color: Rgba)
    ensures
        color.packed() / 0x1_0000 == part_byte(color.r@),
        (color.packed() / 0x100) % 0x100 == part_byte(color.g@),
        color.packed() % 0x100 == part_byte(color.b@),
        color.packed() <= 0xff_ffff,
        color.in_words() == "RGB: "@ + text::decimal(color.packed() / 0x1_0000) + ", "@
            + text::decimal((color.packed() / 0x100) % 0x100) + ", "@ + text::decimal(
            color.packed() % 0x100,
        ),
{
    reveal(Num::cut_to);
}

} // verus!
