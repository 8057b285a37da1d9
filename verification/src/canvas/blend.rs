//! Compositing of wet paint over the pixels that a stroke found.
//!
//! Pixels are four bytes each: red, green, blue and alpha, with straight alpha.

use crate::binary32::num::Num;
use crate::binary32::single::Single;
use vstd::prelude::*;

verus! {

/// 0.0
pub const ZERO: u32 = 0;

/// 1.0
pub const ONE: u32 = 0x3f80_0000;

/// 255.0
pub const FULL: u32 = 0x437f_0000;

/// A byte as a share of the full scale.
pub open spec fn share(byte: u8) -> Num {
    Num::of_nat(byte as nat).over(Single::value(FULL))
}

/// A share of the full scale as the nearest byte.
#[verifier::opaque]
pub open spec fn byte_of(share: Num) -> u8 {
    share.times(Single::value(FULL)).rounded_whole().clamped(
        Single::value(ZERO),
        Single::value(FULL),
    ).cut_to(255) as u8
}

/// The share of the backdrop that shows through paint of the alpha given.
pub open spec fn uncovered(alpha: u8) -> Num {
    Single::value(ONE).minus(share(alpha))
}

/// The alpha of paint over a backdrop.
#[verifier::opaque]
pub open spec fn over_alpha(paint: u8, backdrop: u8) -> Num {
    share(paint).plus(share(backdrop).times(uncovered(paint)))
}

/// One colour channel of paint over a backdrop: the mean of the two colours,
/// weighted by how much of each is seen.
#[verifier::opaque]
pub open spec fn over_channel(
    paint: u8,
    paint_alpha: u8,
    backdrop: u8,
    backdrop_alpha: u8,
) -> Num {
    let seen_paint = share(paint).times(share(paint_alpha));
    let seen_backdrop = share(backdrop).times(share(backdrop_alpha)).times(uncovered(paint_alpha));
    seen_paint.plus(seen_backdrop).over(over_alpha(paint_alpha, backdrop_alpha))
}

/// The alpha that erasing leaves.
#[verifier::opaque]
pub open spec fn erased_alpha(erase: u8, alpha: u8) -> Num {
    share(alpha).times(uncovered(erase))
}

/// Where the pixel that byte `j` belongs to begins.
pub open spec fn pixel_start(j: int) -> int {
    j - j % 4
}

/// Whether the wet buffer holds paint at the pixel that byte `j` belongs to.
pub open spec fn is_wet(wet: Seq<u8>, j: int) -> bool {
    pixel_start(j) + 3 < wet.len() && wet[pixel_start(j) + 3] > 0
}

/// Byte `j` of the wet buffer painted over `before`.
pub open spec fn painted_byte(before: Seq<u8>, wet: Seq<u8>, j: int) -> u8 {
    let alpha = pixel_start(j) + 3;
    if is_wet(wet, j) && Single::value(ZERO).below(over_alpha(wet[alpha], before[alpha])) {
        if j == alpha {
            byte_of(over_alpha(wet[alpha], before[alpha]))
        } else {
            byte_of(over_channel(wet[j], wet[alpha], before[j], before[alpha]))
        }
    } else {
        before[j]
    }
}

/// The wet buffer painted over `before`.
pub open spec fn painted(before: Seq<u8>, wet: Seq<u8>) -> Seq<u8> {
    Seq::new(before.len(), |j: int| painted_byte(before, wet, j))
}

/// Byte `j` of `before` with the wet buffer erased from it.
pub open spec fn erased_byte(before: Seq<u8>, wet: Seq<u8>, j: int) -> u8 {
    let alpha = pixel_start(j) + 3;
    if is_wet(wet, j) && j == alpha {
        byte_of(erased_alpha(wet[alpha], before[alpha]))
    } else {
        before[j]
    }
}

/// `before` with the wet buffer erased from it: the colours stay.
pub open spec fn erased(before: Seq<u8>, wet: Seq<u8>) -> Seq<u8> {
    Seq::new(before.len(), |j: int| erased_byte(before, wet, j))
}

/// Whether the buffers fit one another: the wet buffer reaches as far as the
/// pixels do, and no pixel that it touches is cut short.
pub open spec fn fits(pixels: Seq<u8>, wet: Seq<u8>) -> bool {
    forall|j: int|
        0 <= j < pixels.len() ==> {
            &&& #[trigger] pixel_start(j) + 3 < wet.len()
            &&& wet[pixel_start(j) + 3] > 0 ==> pixel_start(j) + 3 < pixels.len()
        }
}

/// A byte as a share of the full scale.
fn to_share(byte: u8) -> (r: Single)
    ensures
        r@ == share(byte),
{
    Single::from_u32(byte as u32).div(Single { bits: FULL })
}

/// The share as the nearest byte.
fn to_byte(share: Single) -> (r: u8)
    ensures
        r == byte_of(share@),
{
    proof {
        lemma_scale();
        reveal(byte_of);
    }
    share.mul(Single { bits: FULL }).round().clamp(
        Single { bits: ZERO },
        Single { bits: FULL },
    ).to_u8()
}

/// The ends of the scale are in order.
proof fn lemma_scale()
    ensures
        Single::value(ZERO).at_most(Single::value(FULL)),
        Single::value(ZERO) == Num::zero(),
{
    assert(crate::binary32::single::magnitude(0) == 0);
}

/// The alpha of paint over a backdrop, from shares.
fn alpha_over(
    paint: Single,
    backdrop: Single,
    open: Single,
    Ghost(paint_byte): Ghost<u8>,
    Ghost(backdrop_byte): Ghost<u8>,
) -> (r: Single)
    requires
        paint@ == share(paint_byte),
        backdrop@ == share(backdrop_byte),
        open@ == uncovered(paint_byte),
    ensures
        r@ == over_alpha(paint_byte, backdrop_byte),
{
    proof {
        reveal(over_alpha);
    }
    paint.add(backdrop.mul(open))
}

/// One colour channel of paint over a backdrop, the alphas being known as shares.
fn channel_over(
    paint: u8,
    backdrop: u8,
    paint_alpha: Single,
    backdrop_alpha: Single,
    open: Single,
    out_alpha: Single,
    Ghost(paint_byte): Ghost<u8>,
    Ghost(backdrop_byte): Ghost<u8>,
) -> (r: u8)
    requires
        paint_alpha@ == share(paint_byte),
        backdrop_alpha@ == share(backdrop_byte),
        open@ == uncovered(paint_byte),
        out_alpha@ == over_alpha(paint_byte, backdrop_byte),
    ensures
        r == byte_of(over_channel(paint, paint_byte, backdrop, backdrop_byte)),
{
    proof {
        reveal(over_channel);
    }
    let seen_paint: Single = to_share(paint).mul(paint_alpha);
    let seen_backdrop: Single = to_share(backdrop).mul(backdrop_alpha).mul(open);
    to_byte(seen_paint.add(seen_backdrop).div(out_alpha))
}

/// The alpha that erasing leaves.
fn alpha_erased(erase: u8, alpha: u8) -> (r: u8)
    ensures
        r == byte_of(erased_alpha(erase, alpha)),
{
    proof {
        reveal(erased_alpha);
    }
    let one: Single = Single { bits: ONE };
    to_byte(to_share(alpha).mul(one.sub(to_share(erase))))
}

/// Paints the wet buffer over the pixels.
pub fn apply_wet_over_current(cur: &mut Vec<u8>, wet: &Vec<u8>)
    requires
        fits(old(cur)@, wet@),
    ensures
        final(cur)@ == painted(old(cur)@, wet@),
{
    let len: usize = cur.len();
    let wet_len: usize = wet.len();
    let one: Single = Single { bits: ONE };
    let zero: Single = Single { bits: ZERO };
    let mut i: usize = 0;
    while i < len
        invariant
            len == cur.len() == old(cur).len(),
            wet_len == wet.len(),
            i % 4 == 0,
            i <= len + 3,
            one.bits == ONE,
            zero.bits == ZERO,
            fits(old(cur)@, wet@),
            forall|j: int|
                0 <= j < len ==> #[trigger] cur[j] == if j < i {
                    painted_byte(old(cur)@, wet@, j)
                } else {
                    old(cur)[j]
                },
        decreases len + 3 - i,
    {
        proof {
            assert(pixel_start(i as int) == i);
        }
        let alpha: u8 = wet[i + 3];
        if alpha > 0 {
            let below: u8 = cur[i + 3];
            let sa: Single = to_share(alpha);
            let da: Single = to_share(below);
            let open: Single = one.sub(sa);
            let out_a: Single = alpha_over(sa, da, open, Ghost(alpha), Ghost(below));
            if zero.lt(out_a) {
                let r: u8 = channel_over(
                    wet[i],
                    cur[i],
                    sa,
                    da,
                    open,
                    out_a,
                    Ghost(alpha),
                    Ghost(below),
                );
                let g: u8 = channel_over(
                    wet[i + 1],
                    cur[i + 1],
                    sa,
                    da,
                    open,
                    out_a,
                    Ghost(alpha),
                    Ghost(below),
                );
                let b: u8 = channel_over(
                    wet[i + 2],
                    cur[i + 2],
                    sa,
                    da,
                    open,
                    out_a,
                    Ghost(alpha),
                    Ghost(below),
                );
                cur.set(i, r);
                cur.set(i + 1, g);
                cur.set(i + 2, b);
                cur.set(i + 3, to_byte(out_a));
            }
        }
        proof {
            assert forall|j: int| i <= j < i + 4 && j < len implies #[trigger] pixel_start(j)
                == i by {}
        }
        i = i + 4;
    }
    assert(cur@ =~= painted(old(cur)@, wet@));
}

/// Takes the alpha of the wet buffer away from that of the pixels.
pub fn apply_wet_erase_over_current(cur: &mut Vec<u8>, wet: &Vec<u8>)
    requires
        fits(old(cur)@, wet@),
    ensures
        final(cur)@ == erased(old(cur)@, wet@),
{
    let len: usize = cur.len();
    let wet_len: usize = wet.len();
    let mut i: usize = 0;
    while i < len
        invariant
            len == cur.len() == old(cur).len(),
            wet_len == wet.len(),
            i % 4 == 0,
            i <= len + 3,
            fits(old(cur)@, wet@),
            forall|j: int|
                0 <= j < len ==> #[trigger] cur[j] == if j < i {
                    erased_byte(old(cur)@, wet@, j)
                } else {
                    old(cur)[j]
                },
        decreases len + 3 - i,
    {
        proof {
            assert(pixel_start(i as int) == i);
        }
        let erase: u8 = wet[i + 3];
        if erase > 0 {
            let left: u8 = alpha_erased(erase, cur[i + 3]);
            cur.set(i + 3, left);
        }
        proof {
            assert forall|j: int| i <= j < i + 4 && j < len implies #[trigger] pixel_start(j)
                == i by {}
        }
        i = i + 4;
    }
    assert(cur@ =~= erased(old(cur)@, wet@));
}

/// Whether the buffers fit one another.
pub fn buffers_fit(pixels: &Vec<u8>, wet: &Vec<u8>) -> (r: bool)
    ensures
        r == fits(pixels@, wet@),
{
    let len: usize = pixels.len();
    let wet_len: usize = wet.len();
    let mut i: usize = 0;
    while i < len
        invariant
            len == pixels.len(),
            wet_len == wet.len(),
            i % 4 == 0,
            i <= len + 3,
            forall|j: int|
                0 <= j < i && j < len ==> {
                    &&& #[trigger] pixel_start(j) + 3 < wet.len()
                    &&& wet[pixel_start(j) + 3] > 0 ==> pixel_start(j) + 3 < pixels.len()
                },
        decreases len + 3 - i,
    {
        proof {
            assert(pixel_start(i as int) == i);
        }
        if wet_len < 4 || i > wet_len - 4 {
            return false;
        }
        if wet[i + 3] > 0 && (len < 4 || i > len - 4) {
            return false;
        }
        proof {
            assert forall|j: int| i <= j < i + 4 && j < len implies #[trigger] pixel_start(j)
                == i by {}
        }
        i = i + 4;
    }
    true
}

/// What a stroke shows of a tile: the wet buffer painted over the tile that it
/// found, or erased from it.
pub open spec fn composited(before: Seq<u8>, wet: Seq<u8>, eraser: bool) -> Seq<u8> {
    if eraser {
        erased(before, wet)
    } else {
        painted(before, wet)
    }
}

} // verus!
