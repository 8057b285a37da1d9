//! The panel with the settings of the brush.

use crate::binary32::error;
use crate::binary32::num::Num;
use crate::binary32::rounding;
use crate::binary32::single::Single;
use crate::text;
use vstd::arithmetic::div_mod;
use vstd::arithmetic::mul;
use vstd::arithmetic::power2;
use vstd::prelude::*;
use vstd::string::StringExecFns;

verus! {

/// 100
pub const PERCENT: u32 = 0x42c8_0000;

/// The size of the brush, as it is written beside the slider.
pub open spec fn size_text(brush_size: Num) -> Seq<char> {
    text::whole(brush_size) + "px"@
}

/// The opacity of the brush, as it is written below the slider.
pub open spec fn opacity_text(brush_opacity: Num) -> Seq<char> {
    "Opacity: "@ + text::whole(brush_opacity.times(Single::value(PERCENT))) + "%"@
}

/// What the panel says of the brush.
pub struct PropertiesPanel {
    pub size_label: String,
    pub opacity_label: String,
}

/// The panel for a brush of the size and the opacity given.
pub fn render_properties_panel(brush_size: Single, brush_opacity: Single) -> (r: PropertiesPanel)
    ensures
        r.size_label@ == size_text(brush_size@),
        r.opacity_label@ == opacity_text(brush_opacity@),
{
    let mut size_label: String = "".to_owned();
    proof {
        reveal_strlit("");
    }
    text::push_whole(&mut size_label, brush_size);
    size_label.append("px");
    assert(size_label@ =~= size_text(brush_size@));
    let mut opacity_label: String = "Opacity: ".to_owned();
    text::push_whole(&mut opacity_label, brush_opacity.mul(Single { bits: PERCENT }));
    opacity_label.append("%");
    PropertiesPanel { size_label, opacity_label }
}

/// The label of the size is the nearest whole number of pixels, in decimal.
pub proof fn law_size_label(brush_size: Num, k: nat)
    requires
        brush_size is Finite,
        brush_size.place() >= 0,
        !brush_size->Finite_negative,
        2 * k * Num::one_units() - Num::one_units() < 2 * brush_size.place() < 2 * k
            * Num::one_units() + Num::one_units(),
    ensures
        size_text(brush_size) == text::decimal(k) + "px"@,
{
    lemma_nearest(brush_size->units, k);
}

/// The whole number that is less than a half away is the nearest.
proof fn lemma_nearest(units: nat, k: nat)
    requires
        2 * k * Num::one_units() - Num::one_units() < 2 * units < 2 * k * Num::one_units()
            + Num::one_units(),
    ensures
        Num::nearest_even(units, Num::one_units()) == k,
{
    let one = Num::one_units() as int;
    power2::lemma_pow2_pos(149);
    let low = units as int / one;
    let rest = units as int % one;
    div_mod::lemma_fundamental_div_mod(units as int, one);
    div_mod::lemma_mod_bound(units as int, one);
    mul::lemma_mul_is_commutative(low, one);
    assert(2 * k * one == 2 * (k * one)) by (nonlinear_arith);
    assert(low == k || low == k - 1) by (nonlinear_arith)
        requires
            2 * (k * one) - one < 2 * units < 2 * (k * one) + one,
            units == low * one + rest,
            0 <= rest < one,
            one > 0,
    ;
    if low == k - 1 {
        assert((k - 1) * one == k * one - one) by (nonlinear_arith);
    }
}

/// The label of the opacity is a whole number of hundredths, in decimal: the nearest one, but
/// for rounding.
pub proof fn law_opacity_label(brush_opacity: Num)
    requires
        brush_opacity is Finite,
        !brush_opacity->Finite_negative,
        error::amount(brush_opacity) <= 1000 as real,
    ensures
        exists|k: nat|
            {
                &&& opacity_text(brush_opacity) == "Opacity: "@ + #[trigger] text::decimal(k) + "%"@
                &&& error::size(k as real - 100 as real * error::amount(brush_opacity)) <= 51 as real
                    / 100 as real
            },
{
    power2::lemma2_to64();
    rounding::lemma_pow2_split(149, 17, 132);
    error::lemma_whole_value(PERCENT, 100, 0xc8_0000, 132);
    error::lemma_large();
    let percent = Single::value(PERCENT);
    let a = error::amount(brush_opacity);
    error::lemma_order(brush_opacity, brush_opacity);
    assert(a * 100 as real == 100 as real * a);
    error::lemma_times(brush_opacity, percent);
    let x = brush_opacity.times(percent);
    assert(!x->Finite_negative) by {
        reveal(Num::times);
    }
    let one = Num::one_units() as int;
    power2::lemma_pow2_pos(149);
    let units = x->units as int;
    let k = Num::nearest_even(x->units, Num::one_units());
    div_mod::lemma_fundamental_div_mod(units, one);
    div_mod::lemma_mod_bound(units, one);
    let low = units / one;
    mul::lemma_mul_is_commutative(low, one);
    assert((low + 1) * one == low * one + one) by (nonlinear_arith);
    let off = 2 * (k * one - units);
    assert(-one <= off <= one);
    error::lemma_amount(x);
    error::lemma_cast_product(k as int, one);
    let o = one as real;
    let b = error::amount(x);
    let kr = k as real;
    assert((2 as real * (kr - b)) * o == 2 as real * (kr * o - b * o)) by (nonlinear_arith);
    let back = -(1 as real);
    assert(back * o == -o) by (nonlinear_arith)
        requires
            back == -(1 as real),
    ;
    assert(1 as real * o == o);
    error::lemma_cancel(2 as real * (kr - b), 1 as real, o);
    error::lemma_cancel(back, 2 as real * (kr - b), o);
    assert(opacity_text(brush_opacity) == "Opacity: "@ + text::decimal(k) + "%"@);
}

} // verus!
