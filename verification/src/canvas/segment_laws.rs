//! What the stamps of a segment are, and which tiles they are put into.

use super::blend;
use super::carry_laws;
use super::geometry::Place;
use super::pixel_laws;
use super::stamping;
use super::stamping::Run;
use super::stroke;
use super::stroke::{Stroke, TileRange, TileStamp};
use super::stroke_laws;
use super::tiles;
use crate::binary32::num::Num;
use crate::binary32::single;
use crate::binary32::single::Single;
use vstd::arithmetic::div_mod;
use vstd::arithmetic::mul;
use vstd::arithmetic::power2;
use vstd::prelude::*;

verus! {

/// The end of a segment is taken into the recent positions. All of them are kept until there
/// are twelve; then the oldest makes room.
pub proof fn law_recent_positions(stroke: Stroke, from: Place, to: Place)
    requires
        !stroke::is_negligible(from, to),
        stroke.window.len() <= 12,
    ensures
        ({
            let window = stroke.after_segment(from, to).window;
            &&& window.len() > 0 && window[window.len() - 1] == to
            &&& stroke.window.len() < 12 ==> window.len() == stroke.window.len() + 1 && forall|i: int|
                0 <= i < stroke.window.len() ==> #[trigger] window[i] == stroke.window[i]
            &&& stroke.window.len() == 12 ==> window.len() == 12 && forall|i: int|
                0 <= i < 11 ==> #[trigger] window[i] == stroke.window[i + 1]
        }),
{
}

/// All stamps of a segment are alike but for where they stand: each is turned to the direction
/// that the stroke has after the segment, and is narrowed and lays down paint as the segment
/// says. They stand on the line from its start, in its heading.
pub proof fn law_stamps_of_a_segment(stroke: Stroke, from: Place, to: Place, k: nat)
    requires
        !stroke::is_negligible(from, to),
    ensures
        ({
            let run = stroke.run_over(from, to);
            let now = carry_laws::run_after(run, k);
            let stamp = now.next_stamp();
            &&& stamp.dir == stroke.after_segment(from, to).dir
            &&& stamp.axis_scale == run.axis_scale
            &&& stamp.flow_scale == run.flow_scale
            &&& stamp.pos == from.along(stroke::segment_heading(from, to), now.offset)
            &&& now.dist == stroke::segment_length(from, to)
            &&& now.step == run.step
        }),
{
    lemma_same_run(stroke.run_over(from, to), k);
}

/// Stamp by stamp only the offset of a run changes.
proof fn lemma_same_run(run: Run, k: nat)
    ensures
        carry_laws::run_after(run, k) == (Run {
            offset: carry_laws::run_after(run, k).offset,
            ..run
        }),
    decreases k,
{
    if k > 0 {
        lemma_same_run(run, (k - 1) as nat);
    }
}

/// A segment is drawn at the speed that the stroke has after it: the distance of its stamps,
/// their narrowing and their paint are those of that speed, with the size and the spacing of
/// the brush.
pub proof fn law_segment_has_its_speed(stroke: Stroke, from: Place, to: Place)
    requires
        !stroke::is_negligible(from, to),
        stroke.after_segment(from, to).speed is Finite,
        stroke.after_segment(from, to).speed.place() > 0,
    ensures
        ({
            let run = stroke.run_over(from, to);
            let speed = stroke.after_segment(from, to).speed;
            &&& speed == stamping::smoothed_speed(
                stroke.speed,
                stroke.brush_size,
                stroke::segment_length(from, to),
            )
            &&& run.step == stamping::step_of(stroke.brush_size, stroke.spacing, speed)
            &&& run.axis_scale == stamping::axis_scale_of(stroke.brush_size, speed)
            &&& run.flow_scale == stamping::flow_scale_of(speed)
        }),
{
    assert(single::magnitude(0) == 0);
}

/// What a segment leaves of the stroke as it was: everything but the recent positions, the
/// direction, the speed and the way since the last stamp.
pub proof fn law_segment_leaves_the_rest(stroke: Stroke, from: Place, to: Place)
    ensures
        ({
            let next = stroke.after_segment(from, to);
            &&& next.color == stroke.color
            &&& next.brush_size == stroke.brush_size
            &&& next.brush_opacity == stroke.brush_opacity
            &&& next.eraser == stroke.eraser
            &&& next.layer_id == stroke.layer_id
            &&& next.spacing == stroke.spacing
            &&& next.tiles == stroke.tiles
            &&& next.last == stroke.last
            &&& stroke::is_negligible(from, to) ==> next == stroke
        }),
{
}

/// A number that is not negative, cut to a whole one from below.
proof fn lemma_floor_cut(low: Num)
    requires
        low is Finite,
        0 <= low.place() < 0x1_0000_0000 * Num::one_units(),
    ensures
        ({
            let w = low.floored().greater(Num::zero()).cut_to(0xffff_ffff);
            w * Num::one_units() <= low.place() < (w + 1) * Num::one_units()
        }),
{
    reveal(Num::floored);
    reveal(Num::cut_to);
    let one = Num::one_units() as int;
    power2::lemma_pow2_pos(149);
    let units = low->units as int;
    let w = units / one;
    div_mod::lemma_fundamental_div_mod(units, one);
    div_mod::lemma_div_pos_is_pos(units, one);
    div_mod::lemma_mod_bound(units, one);
    mul::lemma_mul_is_commutative(w, one);
    assert((w + 1) * one == w * one + one) by (nonlinear_arith);
    assert(w <= 0xffff_ffff) by (nonlinear_arith)
        requires
            w * one <= units,
            units < 0x1_0000_0000 * one,
            one > 0,
    ;
    div_mod::lemma_div_multiples_vanish(w, one);
    mul::lemma_mul_nonnegative(w, one);
    if units == 0 {
        div_mod::lemma_div_of0(one);
    }
}

/// A number cut to a whole one from above.
proof fn lemma_ceil_cut(high: Num)
    requires
        high is Finite,
        high.place() <= 0xffff_ffff * Num::one_units(),
    ensures
        ({
            let w = high.ceiled().cut_to(0xffff_ffff);
            &&& high.place() > 0 ==> w * Num::one_units() < high.place() + Num::one_units()
            &&& high.place() <= 0 ==> w == 0
        }),
{
    reveal(Num::floored);
    reveal(Num::cut_to);
    let one = Num::one_units() as int;
    power2::lemma_pow2_pos(149);
    let units = high->units as int;
    let w = units / one;
    div_mod::lemma_fundamental_div_mod(units, one);
    div_mod::lemma_div_pos_is_pos(units, one);
    div_mod::lemma_mod_bound(units, one);
    mul::lemma_mul_is_commutative(w, one);
    let top: int = if units % one != 0 {
        w + 1
    } else {
        w
    };
    assert((w + 1) * one == w * one + one) by (nonlinear_arith);
    div_mod::lemma_div_multiples_vanish(top, one);
    mul::lemma_mul_is_commutative(top, one);
    mul::lemma_mul_nonnegative(top, one);
    mul::lemma_mul_basics(one);
    let cut = high.ceiled().cut_to(0xffff_ffff) as int;
    if units == 0 {
        div_mod::lemma_div_of0(one);
        div_mod::lemma_small_mod(0, Num::one_units());
    }
    if high.place() > 0 {
        assert(cut <= top);
        mul::lemma_mul_inequality(cut, top, one);
    }
}

/// A tile and the pixels in it.
proof fn lemma_tile_of(w: int)
    requires
        0 <= w <= 0xffff_ffff,
    ensures
        ({
            let t = (w / 256) as u32;
            let one = Num::one_units() as int;
            &&& (256 * t) * one <= w * one
            &&& (w + 1) * one <= (256 * (t + 1)) * one
        }),
{
    let t = (w / 256) as u32 as int;
    power2::lemma_pow2_pos(149);
    mul::lemma_mul_inequality(256 * t, w, Num::one_units() as int);
    mul::lemma_mul_inequality(w + 1, 256 * (t + 1), Num::one_units() as int);
}

/// A stamp is put into no more tiles than it may touch: the first column and row reach to where
/// the stamp begins, and the last ones begin no later than a pixel past where it ends.
pub proof fn law_no_tile_too_many(pos: Place, size: Num)
    ensures
        ({
            let radius = size.times(Single::value(stroke::HALF));
            let range = stroke::covered(pos, size);
            let one = Num::one_units();
            let left = pos.x.minus(radius);
            let right = pos.x.plus(radius);
            let top = pos.y.minus(radius);
            let bottom = pos.y.plus(radius);
            &&& left is Finite && 0 <= left.place() < 0x1_0000_0000 * one ==> left.place() < (256
                * (range.min_tx + 1)) * one
            &&& top is Finite && 0 <= top.place() < 0x1_0000_0000 * one ==> top.place() < (256 * (
            range.min_ty + 1)) * one
            &&& right is Finite && 0 < right.place() <= 0xffff_ffff * one ==> (256 * range.max_tx)
                * one < right.place() + one
            &&& bottom is Finite && 0 < bottom.place() <= 0xffff_ffff * one ==> (256 * range.max_ty)
                * one < bottom.place() + one
            &&& right is Finite && right.place() <= 0 ==> range.max_tx == 0
            &&& bottom is Finite && bottom.place() <= 0 ==> range.max_ty == 0
        }),
{
    let radius = size.times(Single::value(stroke::HALF));
    assert(single::magnitude(0) == 0);
    lemma_first_tile(pos.x.minus(radius));
    lemma_first_tile(pos.y.minus(radius));
    lemma_last_tile(pos.x.plus(radius));
    lemma_last_tile(pos.y.plus(radius));
}

/// The first tile along one side.
proof fn lemma_first_tile(low: Num)
    ensures
        low is Finite && 0 <= low.place() < 0x1_0000_0000 * Num::one_units() ==> low.place() < (256
            * ((low.floored().greater(Num::zero()).cut_to(0xffff_ffff) / 256) as u32 + 1))
            * Num::one_units(),
{
    if low is Finite && 0 <= low.place() < 0x1_0000_0000 * Num::one_units() {
        lemma_floor_cut(low);
        reveal(Num::cut_to);
        lemma_tile_of(low.floored().greater(Num::zero()).cut_to(0xffff_ffff) as int);
    }
}

/// The last tile along one side.
proof fn lemma_last_tile(high: Num)
    ensures
        high is Finite && 0 < high.place() <= 0xffff_ffff * Num::one_units() ==> (256 * (
        high.ceiled().cut_to(0xffff_ffff) / 256) as u32) * Num::one_units() < high.place()
            + Num::one_units(),
        high is Finite && high.place() <= 0 ==> (high.ceiled().cut_to(0xffff_ffff) / 256) as u32
            == 0,
{
    power2::lemma_pow2_pos(149);
    if high is Finite && high.place() <= 0xffff_ffff * Num::one_units() {
        lemma_ceil_cut(high);
        reveal(Num::cut_to);
        lemma_tile_of(high.ceiled().cut_to(0xffff_ffff) as int);
    } else if high is Finite && high.place() <= 0 {
        mul::lemma_mul_nonnegative(0xffff_ffff, Num::one_units() as int);
    }
}

/// The tiles of a rectangle are taken row by row from its upper left corner, and each of them
/// is taken.
pub proof fn law_tiles_row_by_row(range: TileRange, tx: u32, ty: u32)
    requires
        range.wf(),
        range.min_tx <= tx <= range.max_tx,
        range.min_ty <= ty <= range.max_ty,
    ensures
        ({
            let across = range.max_tx - range.min_tx + 1;
            let down = range.max_ty - range.min_ty + 1;
            let n = (ty - range.min_ty) * across + (tx - range.min_tx);
            &&& range.rows() == down
            &&& range.columns() == across
            &&& 0 <= n < down * across
            &&& range.tile_at(n) == (tx, ty)
        }),
{
    let across = range.max_tx - range.min_tx + 1;
    let row = ty - range.min_ty;
    let column = tx - range.min_tx;
    let n = row * across + column;
    div_mod::lemma_fundamental_div_mod_converse(n, across, row, column);
    assert(0 <= n < range.rows() * across) by (nonlinear_arith)
        requires
            n == row * across + column,
            0 <= column < across,
            0 <= row < range.rows(),
    ;
}

/// A stamp leaves in each tile that it is put into the wet buffer that it was given, on the
/// pixels that were stored there byte for byte, or on a blank tile where nothing was; a tile
/// that the stroke holds already keeps its pixels.
pub proof fn law_stamp_on_stored_pixels(
    stroke: Stroke,
    range: TileRange,
    stamps: Seq<TileStamp>,
    n: int,
)
    requires
        range.wf(),
        stamps.len() <= range.rows() * range.columns(),
        0 <= n < stamps.len(),
    ensures
        ({
            let key = range.tile_at(n);
            let next = stroke.stamped(range, stamps);
            &&& next.tiles.dom().contains(key)
            &&& next.tiles[key].wet == stamps[n].wet@
            &&& stroke.tiles.dom().contains(key) ==> next.tiles[key].before
                == stroke.tiles[key].before
            &&& !stroke.tiles.dom().contains(key) && stamps[n].raw.len() > 0
                ==> next.tiles[key].before == stamps[n].raw@
            &&& !stroke.tiles.dom().contains(key) && stamps[n].raw.len() == 0
                ==> next.tiles[key].before.len() == 256 * 256 * 4 && forall|j: int|
                0 <= j < 256 * 256 * 4 ==> #[trigger] next.tiles[key].before[j] == 0
        }),
{
    stroke_laws::law_stamp_reaches(stroke, range, stamps, range.tile_at(n));
    tiles::law_stored_bytes_are_found(stamps[n].raw@);
}

/// Taking a tile in leaves the others as they are, and one that is held already as it is.
pub proof fn law_taking_a_tile_in(
    stroke: Stroke,
    tx: u32,
    ty: u32,
    raw: Seq<u8>,
    key: (u32, u32),
)
    ensures
        ({
            let next = stroke.with_tile(tx, ty, raw);
            &&& next.tiles.dom().contains((tx, ty))
            &&& key != (tx, ty) ==> (next.tiles.dom().contains(key) <==> stroke.tiles.dom().contains(
                key,
            ))
            &&& stroke.tiles.dom().contains(key) ==> next.tiles[key] == stroke.tiles[key]
            &&& !stroke.tiles.dom().contains((tx, ty)) && raw.len() > 0 ==> {
                &&& next.tiles[(tx, ty)].before == raw
                &&& next.tiles[(tx, ty)].current == raw
            }
            &&& !stroke.tiles.dom().contains((tx, ty)) && raw.len() == 0 ==> next.tiles[(
                tx,
                ty,
            )].before.len() == 256 * 256 * 4 && forall|j: int|
                0 <= j < 256 * 256 * 4 ==> #[trigger] next.tiles[(tx, ty)].before[j] == 0
        }),
{
}

/// What a stroke shows is seen on its own layer, in the tiles that it holds, and nowhere else;
/// a tile that it does not hold has no paint yet.
pub proof fn law_what_a_stroke_shows(stroke: Stroke, layer_id: Seq<char>, tx: u32, ty: u32)
    ensures
        stroke.shows(layer_id, tx, ty) <==> stroke.layer_id == layer_id
            && stroke.tiles.dom().contains((tx, ty)),
        stroke.tiles.dom().contains((tx, ty)) ==> stroke.wet_at((tx, ty)) == stroke.tiles[(
            tx,
            ty,
        )].wet,
        !stroke.tiles.dom().contains((tx, ty)) ==> stroke.wet_at((tx, ty)).len() == 256 * 256 * 4
            && forall|j: int|
            0 <= j < 256 * 256 * 4 ==> #[trigger] stroke.wet_at((tx, ty))[j] == 0,
{
}

/// Buffers of whole tiles are always taken: on a tile that the stroke holds and on one that it
/// finds, whether something was stored of it or not.
pub proof fn law_whole_tiles_are_taken(
    stroke: Stroke,
    range: TileRange,
    stamps: Seq<TileStamp>,
    tx: u32,
    ty: u32,
    wet: Seq<u8>,
)
    requires
        stamps.len() == range.rows() * range.columns(),
        forall|n: int|
            0 <= n < stamps.len() ==> (#[trigger] stamps[n]).wet.len() == 256 * 256 * 4 && (
            stamps[n].raw.len() == 0 || stamps[n].raw.len() == 256 * 256 * 4),
        forall|key: (u32, u32)| #[trigger]
            stroke.tiles.dom().contains(key) ==> stroke.tiles[key].before.len() == 256 * 256 * 4,
        wet.len() == 256 * 256 * 4,
    ensures
        stroke.takes_stamp(range, stamps),
        stroke.takes_wet(tx, ty, wet),
{
    assert forall|n: int| 0 <= n < stamps.len() implies blend::fits(
        stroke.found(range.tile_at(n), (#[trigger] stamps[n]).raw@),
        stamps[n].wet@,
    ) by {
        pixel_laws::law_buffers_fit(
            stroke.found(range.tile_at(n), stamps[n].raw@),
            stamps[n].wet@,
        );
    }
    pixel_laws::law_buffers_fit(stroke.tiles[(tx, ty)].before, wet);
}

/// A wet buffer is taken if and only if the tile is not held or the buffer fits its pixels; and
/// one that is put on a tile that is not held changes nothing.
pub proof fn law_wet_buffer_is_taken(stroke: Stroke, tx: u32, ty: u32, wet: Seq<u8>)
    ensures
        !stroke.tiles.dom().contains((tx, ty)) ==> stroke.takes_wet(tx, ty, wet)
            && stroke.with_wet(tx, ty, wet) == stroke,
        stroke.tiles.dom().contains((tx, ty)) ==> {
            let next = stroke.with_wet(tx, ty, wet);
            &&& stroke.takes_wet(tx, ty, wet) <==> blend::fits(stroke.tiles[(tx, ty)].before, wet)
            &&& next.tiles[(tx, ty)].wet == wet
            &&& next.tiles[(tx, ty)].before == stroke.tiles[(tx, ty)].before
            &&& next.tiles[(tx, ty)].current == blend::composited(
                stroke.tiles[(tx, ty)].before,
                wet,
                stroke.eraser,
            )
            &&& forall|key: (u32, u32)|
                key != (tx, ty) && #[trigger] stroke.tiles.dom().contains(key) ==> next.tiles[key]
                    == stroke.tiles[key]
        },
{
}

/// A pointer that comes to a place draws the segment from where the stroke was last to a part
/// of the way there, and nothing else.
pub proof fn law_pointer_draws_a_segment(stroke: Stroke, pointer: Place)
    ensures
        ({
            let from = stroke.segment_start(pointer);
            let to = stroke.segment_end(pointer);
            let drawn = stroke.after_segment(from, to);
            let next = stroke.after_pointer(pointer);
            &&& next.last == Some(to)
            &&& next.dir == drawn.dir
            &&& next.window == drawn.window
            &&& next.speed == drawn.speed
            &&& next.carry == drawn.carry
            &&& next.tiles == stroke.tiles
        }),
{
}

/// A tile is 256 pixels wide and high, of four bytes each.
pub proof fn law_size_of_a_tile()
    ensures
        tiles::TILE_SIZE == 256,
        tiles::TILE_BYTES == 256 * 256 * 4,
{
}

} // verus!
