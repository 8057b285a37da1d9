//! What holds of every pixel that a stroke composites.

use super::accuracy;
use super::blend;
use vstd::prelude::*;

verus! {

/// A pixel without wet paint stays as it was.
pub proof fn law_dry_pixel(before: Seq<u8>, wet: Seq<u8>, eraser: bool, j: int)
    requires
        0 <= j < before.len(),
        !blend::is_wet(wet, j),
    ensures
        blend::composited(before, wet, eraser)[j] == before[j],
{
}

/// Erasing keeps the colours.
pub proof fn law_erasing_keeps_colours(before: Seq<u8>, wet: Seq<u8>, j: int)
    requires
        0 <= j < before.len(),
        j % 4 != 3,
    ensures
        blend::composited(before, wet, true)[j] == before[j],
{
}

/// Erasing never raises an alpha, and erasing in full leaves none.
pub proof fn law_erasing_lowers_alpha(before: Seq<u8>, wet: Seq<u8>, j: int)
    requires
        0 <= j < before.len(),
        j % 4 == 3,
    ensures
        blend::composited(before, wet, true)[j] <= before[j],
        j < wet.len() && wet[j] == 255 ==> blend::composited(before, wet, true)[j] == 0,
{
    if blend::is_wet(wet, j) {
        let erase = wet[j];
        let alpha = before[j];
        accuracy::law_erased_alpha(erase, alpha);
        let k = alpha * (255 - erase);
        assert(0 <= k <= 255 * alpha) by (nonlinear_arith)
            requires
                k == alpha * (255 - erase),
                0 <= alpha,
                0 <= erase <= 255,
        ;
        if erase == 255 {
            assert(alpha * 0 == 0);
        }
    }
}

/// Painting never lowers an alpha, and leaves at least that of the paint.
pub proof fn law_painting_raises_alpha(before: Seq<u8>, wet: Seq<u8>, j: int)
    requires
        0 <= j < before.len(),
        j % 4 == 3,
    ensures
        blend::composited(before, wet, false)[j] >= before[j],
        j < wet.len() ==> blend::composited(before, wet, false)[j] >= wet[j],
{
    if blend::is_wet(wet, j) {
        let paint = wet[j];
        let backdrop = before[j];
        accuracy::lemma_paint_shows(paint, backdrop);
        accuracy::law_painted_alpha(paint, backdrop);
        let k = backdrop * (255 - paint);
        assert(0 <= k && 255 * paint + k >= 255 * backdrop) by (nonlinear_arith)
            requires
                k == backdrop * (255 - paint),
                0 <= backdrop <= 255,
                0 <= paint <= 255,
        ;
    }
}

/// Paint that covers in full takes the place of what was there.
pub proof fn law_opaque_paint(before: Seq<u8>, wet: Seq<u8>, j: int)
    requires
        0 <= j < before.len(),
        blend::pixel_start(j) + 3 < wet.len(),
        wet[blend::pixel_start(j) + 3] == 255,
    ensures
        blend::composited(before, wet, false)[j] == wet[j],
{
    let at = blend::pixel_start(j) + 3;
    accuracy::lemma_paint_shows(wet[at], before[at]);
    if j == at {
        accuracy::law_painted_alpha(wet[at], before[at]);
        assert(before[at] * 0 == 0);
    } else {
        accuracy::law_painted_channel(wet[j], wet[at], before[j], before[at]);
        assert(before[at] * 0 == 0);
        assert(before[j] * 0 == 0);
    }
}

/// Paint on a pixel that was empty is seen as it is.
pub proof fn law_paint_on_empty(before: Seq<u8>, wet: Seq<u8>, j: int)
    requires
        0 <= j < before.len(),
        blend::pixel_start(j) + 3 < wet.len(),
        wet[blend::pixel_start(j) + 3] > 0,
        before[blend::pixel_start(j) + 3] == 0,
    ensures
        blend::composited(before, wet, false)[j] == wet[j],
{
    let at = blend::pixel_start(j) + 3;
    let alpha = wet[at];
    accuracy::lemma_paint_shows(alpha, 0);
    assert(0 * (255 - alpha) == 0);
    if j == at {
        accuracy::law_painted_alpha(alpha, 0);
    } else {
        accuracy::law_painted_channel(wet[j], alpha, before[j], 0);
        let byte = blend::composited(before, wet, false)[j];
        let w = 255 * alpha as int;
        assert(before[j] * 0 == 0);
        assert(byte == wet[j]) by (nonlinear_arith)
            requires
                w > 0,
                -7 * w <= 10 * (byte * w - wet[j] * w) <= 7 * w,
        ;
    }
}

/// A colour that painting leaves lies between that of the paint and that of the
/// backdrop.
pub proof fn law_colour_between(before: Seq<u8>, wet: Seq<u8>, j: int, low: u8, high: u8)
    requires
        0 <= j < before.len(),
        j % 4 != 3,
        j < wet.len(),
        low <= wet[j] <= high,
        low <= before[j] <= high,
    ensures
        low <= blend::composited(before, wet, false)[j] <= high,
{
    let at = blend::pixel_start(j) + 3;
    if blend::is_wet(wet, j) {
        let alpha = wet[at];
        accuracy::lemma_paint_shows(alpha, before[at]);
        accuracy::law_painted_channel(wet[j], alpha, before[j], before[at]);
        accuracy::lemma_seen_bounds(
            wet[j],
            alpha,
            before[j],
            before[at],
            low as int,
            high as int,
        );
        let byte = blend::composited(before, wet, false)[j];
        let w = accuracy::weight(alpha, before[at]);
        let s = accuracy::seen(wet[j], alpha, before[j], before[at]);
        accuracy::lemma_weight(alpha, before[at]);
        assert(low <= byte <= high) by (nonlinear_arith)
            requires
                w > 0,
                low * w <= s <= high * w,
                -7 * w <= 10 * (byte * w - s) <= 7 * w,
        ;
    }
}

/// Of every pixel that begins at byte `at` painting leaves an alpha that is exact to the
/// byte, and in each of the three colours the mean of the paint and of what was there, each by
/// how much of it is seen, to within seven tenths of a byte. Paint of any alpha above zero
/// counts, and without paint the pixel stays as it is.
pub proof fn law_painted_pixel(before: Seq<u8>, wet: Seq<u8>, at: int, k: int)
    requires
        0 <= at,
        at % 4 == 0,
        at + 3 < before.len(),
        at + 3 < wet.len(),
        0 <= k < 3,
    ensures
        ({
            let out = blend::composited(before, wet, false);
            let a = wet[at + 3] as int;
            let b = before[at + 3] as int;
            let w = 255 * a + b * (255 - a);
            let off = out[at + k] * w - (wet[at + k] * (255 * a) + before[at + k] * (b * (255
                - a)));
            &&& out.len() == before.len()
            &&& a == 0 ==> out[at + k] == before[at + k] && out[at + 3] == before[at + 3]
            &&& a > 0 ==> out[at + 3] == (w + 127) / 255
            &&& a > 0 ==> w > 0 && -7 * w <= 10 * off <= 7 * w
        }),
{
    assert(blend::pixel_start(at + k) == at);
    assert(blend::pixel_start(at + 3) == at);
    let a = wet[at + 3];
    let b = before[at + 3];
    if a > 0 {
        accuracy::lemma_paint_shows(a, b);
        accuracy::lemma_weight(a, b);
        accuracy::law_painted_alpha(a, b);
        accuracy::law_painted_channel(wet[at + k], a, before[at + k], b);
    }
}

/// Of every pixel that begins at byte `at` erasing leaves its colours and an alpha that is
/// exact to the byte: what shows through the paint of the eraser.
pub proof fn law_erased_pixel(before: Seq<u8>, wet: Seq<u8>, at: int, k: int)
    requires
        0 <= at,
        at % 4 == 0,
        at + 3 < before.len(),
        at + 3 < wet.len(),
        0 <= k < 3,
    ensures
        ({
            let out = blend::composited(before, wet, true);
            &&& out.len() == before.len()
            &&& out[at + k] == before[at + k]
            &&& out[at + 3] == (before[at + 3] * (255 - wet[at + 3]) + 127) / 255
        }),
{
    assert(blend::pixel_start(at + k) == at);
    assert(blend::pixel_start(at + 3) == at);
    accuracy::law_erased_alpha(wet[at + 3], before[at + 3]);
    if wet[at + 3] == 0 {
        assert(before[at + 3] * 255 == 255 * before[at + 3]);
    }
}

/// The pixels are painted one by one: what is left of one rests on what was there and on the
/// paint there, and on nothing else.
pub proof fn law_pixels_are_apart(
    before: Seq<u8>,
    wet: Seq<u8>,
    other_before: Seq<u8>,
    other_wet: Seq<u8>,
    eraser: bool,
    at: int,
    other_at: int,
    k: int,
)
    requires
        0 <= at,
        at % 4 == 0,
        at + 3 < before.len(),
        at + 3 < wet.len(),
        0 <= other_at,
        other_at % 4 == 0,
        other_at + 3 < other_before.len(),
        other_at + 3 < other_wet.len(),
        0 <= k < 4,
        forall|j: int| 0 <= j < 4 ==> #[trigger] before[at + j] == other_before[other_at + j],
        forall|j: int| 0 <= j < 4 ==> #[trigger] wet[at + j] == other_wet[other_at + j],
    ensures
        blend::composited(before, wet, eraser)[at + k] == blend::composited(
            other_before,
            other_wet,
            eraser,
        )[other_at + k],
{
    assert(blend::pixel_start(at + k) == at);
    assert(blend::pixel_start(other_at + k) == other_at);
    assert(before[at + k] == other_before[other_at + k]);
    assert(before[at + 3] == other_before[other_at + 3]);
    assert(wet[at + k] == other_wet[other_at + k]);
    assert(wet[at + 3] == other_wet[other_at + 3]);
}

/// The byte that holds the alpha of pixel `i`.
pub open spec fn alpha_at(i: int) -> int {
    4 * i + 3
}

/// A wet buffer fits pixels if and only if it reaches to the alpha of each of them, and no
/// pixel that it has paint for is cut short. So one that is as long as whole pixels fits.
pub proof fn law_buffers_fit(pixels: Seq<u8>, wet: Seq<u8>)
    ensures
        blend::fits(pixels, wet) <==> forall|i: int|
            0 <= 4 * i < pixels.len() ==> #[trigger] alpha_at(i) < wet.len() && (wet[alpha_at(i)]
                > 0 ==> alpha_at(i) < pixels.len()),
        pixels.len() % 4 == 0 && wet.len() >= pixels.len() ==> blend::fits(pixels, wet),
{
    if blend::fits(pixels, wet) {
        assert forall|i: int| 0 <= 4 * i < pixels.len() implies #[trigger] alpha_at(i) < wet.len()
            && (wet[alpha_at(i)] > 0 ==> alpha_at(i) < pixels.len()) by {
            assert(blend::pixel_start(4 * i) == 4 * i);
        }
    }
    if forall|i: int|
        0 <= 4 * i < pixels.len() ==> #[trigger] alpha_at(i) < wet.len() && (wet[alpha_at(i)] > 0
            ==> alpha_at(i) < pixels.len()) {
        assert forall|j: int| 0 <= j < pixels.len() implies {
            &&& #[trigger] blend::pixel_start(j) + 3 < wet.len()
            &&& wet[blend::pixel_start(j) + 3] > 0 ==> blend::pixel_start(j) + 3 < pixels.len()
        } by {
            assert(blend::pixel_start(j) + 3 == alpha_at(j / 4));
        }
    }
}

/// A pixel that the wet buffer does not reach stays as it is.
pub proof fn law_beyond_the_wet_buffer(before: Seq<u8>, wet: Seq<u8>, eraser: bool, at: int, k: int)
    requires
        0 <= at,
        at % 4 == 0,
        wet.len() <= at + 3,
        0 <= k < 4,
        at + k < before.len(),
    ensures
        blend::composited(before, wet, eraser)[at + k] == before[at + k],
{
    assert(blend::pixel_start(at + k) == at);
}

} // verus!
