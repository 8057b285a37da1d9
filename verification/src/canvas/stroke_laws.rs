//! What holds of every stroke.

use super::blend;
use super::geometry::Place;
use super::stamping;
use super::stamping::Run;
use super::stroke;
use super::stroke::{Brush, Stroke, TileRange, TileStamp};
use super::tiles;
use super::tiles::{StrokeTile, TileBuffers};
use crate::binary32::error;
use crate::binary32::num::Num;
use crate::binary32::order;
use crate::binary32::rounding;
use crate::binary32::single;
use crate::binary32::single::Single;
use vstd::arithmetic::div_mod;
use vstd::arithmetic::mul;
use vstd::arithmetic::power2;
use vstd::prelude::*;

verus! {

/// Whether a stroke is in order: each tile is shown as the paint of the stroke
/// composited with the tile that the stroke found, and no more recent positions are
/// kept than the direction is taken from.
pub open spec fn in_order(stroke: Stroke) -> bool {
    &&& stroke.window.len() <= stamping::DIR_WINDOW
    &&& forall|key: (u32, u32)| #[trigger]
        stroke.tiles.dom().contains(key) ==> stroke.tiles[key].current == blend::composited(
            stroke.tiles[key].before,
            stroke.tiles[key].wet,
            stroke.eraser,
        )
}

/// A stroke is in order when it begins.
pub proof fn law_begins_in_order(brush: Brush, at: Place, dir: Place, layer_id: Seq<char>)
    ensures
        in_order(brush.begun(at, dir, layer_id)),
{
}

/// A stroke stays in order, whatever happens to it.
pub proof fn law_stays_in_order(
    stroke: Stroke,
    pointer: Place,
    tx: u32,
    ty: u32,
    raw: Seq<u8>,
    wet: Seq<u8>,
)
    requires
        in_order(stroke),
    ensures
        in_order(stroke.after_pointer(pointer)),
        in_order(stroke.with_tile(tx, ty, raw)),
        in_order(stroke.with_wet(tx, ty, wet)),
{
    let next = stroke.with_tile(tx, ty, raw);
    assert forall|key: (u32, u32)| #[trigger]
        next.tiles.dom().contains(key) implies next.tiles[key].current == blend::composited(
        next.tiles[key].before,
        next.tiles[key].wet,
        next.eraser,
    ) by {
        if !stroke.tiles.dom().contains((tx, ty)) && key == (tx, ty) {
            tiles::lemma_blank(tiles::base_of(raw), stroke.eraser);
        } else {
            assert(stroke.tiles.dom().contains(key));
        }
    }
    let next = stroke.with_wet(tx, ty, wet);
    assert forall|key: (u32, u32)| #[trigger]
        next.tiles.dom().contains(key) implies next.tiles[key].current == blend::composited(
        next.tiles[key].before,
        next.tiles[key].wet,
        next.eraser,
    ) by {
        assert(stroke.tiles.dom().contains(key));
    }
}

/// A stroke stays in order when a stamp is put into it.
pub proof fn law_stamped_in_order(stroke: Stroke, range: TileRange, stamps: Seq<TileStamp>)
    requires
        in_order(stroke),
    ensures
        in_order(stroke.stamped(range, stamps)),
    decreases stamps.len(),
{
    if stamps.len() > 0 {
        law_stamped_in_order(stroke, range, stamps.drop_last());
        let some = stroke.stamped(range, stamps.drop_last());
        let key = range.tile_at(stamps.len() - 1);
        let stamp = stamps.last();
        law_stays_in_order(some, some.dir, key.0, key.1, stamp.raw@, stamp.wet@);
        let more = some.with_tile(key.0, key.1, stamp.raw@);
        law_stays_in_order(more, some.dir, key.0, key.1, stamp.raw@, stamp.wet@);
    }
}

/// A stamp that is put into every tile of a rectangle leaves in each the wet buffer that
/// it was given and the pixels that the stroke finds there, and leaves all other tiles
/// as they were.
pub proof fn law_stamp_reaches(
    stroke: Stroke,
    range: TileRange,
    stamps: Seq<TileStamp>,
    key: (u32, u32),
)
    requires
        range.wf(),
        stamps.len() <= range.rows() * range.columns(),
    ensures
        forall|n: int|
            0 <= n < stamps.len() && #[trigger] range.tile_at(n) == key ==> {
                let tile = stroke.stamped(range, stamps).tiles[key];
                &&& stroke.stamped(range, stamps).tiles.dom().contains(key)
                &&& tile.before == stroke.found(key, stamps[n].raw@)
                &&& tile.wet == stamps[n].wet@
            },
        (forall|n: int| 0 <= n < stamps.len() ==> #[trigger] range.tile_at(n) != key) ==> {
            &&& stroke.stamped(range, stamps).tiles.dom().contains(key)
                == stroke.tiles.dom().contains(key)
            &&& stroke.tiles.dom().contains(key) ==> stroke.stamped(range, stamps).tiles[key]
                == stroke.tiles[key]
        },
    decreases stamps.len(),
{
    if stamps.len() > 0 {
        let rest = stamps.drop_last();
        let last = stamps.len() - 1;
        law_stamp_reaches(stroke, range, rest, key);
        assert forall|n: int|
            0 <= n < stamps.len() && #[trigger] range.tile_at(n) == key implies ({
            let tile = stroke.stamped(range, stamps).tiles[key];
            &&& stroke.stamped(range, stamps).tiles.dom().contains(key)
            &&& tile.before == stroke.found(key, stamps[n].raw@)
            &&& tile.wet == stamps[n].wet@
        }) by {
            if n < last {
                stroke::lemma_tiles_differ(range, n, last);
                assert(rest[n] == stamps[n]);
            } else {
                assert forall|k: int| 0 <= k < rest.len() implies #[trigger] range.tile_at(k)
                    != key by {
                    stroke::lemma_tiles_differ(range, k, last);
                }
                stroke.lemma_untouched(range, rest, key);
            }
        }
        if forall|n: int| 0 <= n < stamps.len() ==> #[trigger] range.tile_at(n) != key {
            stroke.lemma_untouched(range, stamps, key);
        }
    }
}

/// What a finished stroke changes is what it showed: each tile before the stroke, and
/// the same tile with the paint of the stroke composited.
pub proof fn law_commit_is_what_was_shown(stroke: Stroke, changed: Seq<StrokeTile>, i: int)
    requires
        in_order(stroke),
        tiles::listing(changed, stroke.tiles),
        0 <= i < changed.len(),
    ensures
        changed[i].before@ == stroke.tiles[changed[i].key()].before,
        changed[i].current@ == stroke.tiles[changed[i].key()].current,
        changed[i].current@ == blend::composited(
            changed[i].before@,
            changed[i].wet@,
            stroke.eraser,
        ),
{
    assert(stroke.tiles.dom().contains(changed[i].key()));
}

/// The pixels that a stroke found in a tile never change.
pub proof fn law_before_kept(
    stroke: Stroke,
    key: (u32, u32),
    pointer: Place,
    tx: u32,
    ty: u32,
    raw: Seq<u8>,
    wet: Seq<u8>,
)
    requires
        stroke.tiles.dom().contains(key),
    ensures
        stroke.after_pointer(pointer).tiles[key].before == stroke.tiles[key].before,
        stroke.with_tile(tx, ty, raw).tiles[key].before == stroke.tiles[key].before,
        stroke.with_wet(tx, ty, wet).tiles[key].before == stroke.tiles[key].before,
{
}

/// Nor do they change when a stamp is put into the stroke.
pub proof fn law_before_kept_by_stamp(
    stroke: Stroke,
    key: (u32, u32),
    range: TileRange,
    stamps: Seq<TileStamp>,
)
    requires
        stroke.tiles.dom().contains(key),
    ensures
        stroke.stamped(range, stamps).tiles.dom().contains(key),
        stroke.stamped(range, stamps).tiles[key].before == stroke.tiles[key].before,
    decreases stamps.len(),
{
    if stamps.len() > 0 {
        law_before_kept_by_stamp(stroke, key, range, stamps.drop_last());
    }
}

/// What a stroke takes over from the tools when it begins stays with it to its end.
pub proof fn law_brush_locked(
    stroke: Stroke,
    pointer: Place,
    tx: u32,
    ty: u32,
    raw: Seq<u8>,
    wet: Seq<u8>,
)
    ensures
        same_brush(stroke.after_pointer(pointer), stroke),
        same_brush(stroke.with_tile(tx, ty, raw), stroke),
        same_brush(stroke.with_wet(tx, ty, wet), stroke),
{
}

/// A stamp that is put into a stroke leaves its brush as it is, and all else but the
/// tiles.
pub proof fn law_brush_locked_by_stamp(stroke: Stroke, range: TileRange, stamps: Seq<TileStamp>)
    ensures
        same_brush(stroke.stamped(range, stamps), stroke),
        stroke.stamped(range, stamps) == (Stroke {
            tiles: stroke.stamped(range, stamps).tiles,
            ..stroke
        }),
    decreases stamps.len(),
{
    if stamps.len() > 0 {
        law_brush_locked_by_stamp(stroke, range, stamps.drop_last());
    }
}

/// Whether two strokes are drawn on the same layer and with the same brush.
pub open spec fn same_brush(a: Stroke, b: Stroke) -> bool {
    &&& a.color == b.color
    &&& a.brush_size == b.brush_size
    &&& a.brush_opacity == b.brush_opacity
    &&& a.eraser == b.eraser
    &&& a.layer_id == b.layer_id
    &&& a.spacing == b.spacing
}

/// Only the last wet buffer of a tile counts: paint is never composited twice.
pub proof fn law_last_wet_counts(stroke: Stroke, tx: u32, ty: u32, first: Seq<u8>, last: Seq<u8>)
    ensures
        stroke.with_wet(tx, ty, first).with_wet(tx, ty, last) == stroke.with_wet(tx, ty, last),
{
    let once = stroke.with_wet(tx, ty, last);
    let twice = stroke.with_wet(tx, ty, first).with_wet(tx, ty, last);
    assert(once.tiles =~= twice.tiles);
}

/// Only the first load of a tile counts: what is stored later on is not taken in.
pub proof fn law_first_load_counts(stroke: Stroke, tx: u32, ty: u32, first: Seq<u8>, next: Seq<u8>)
    ensures
        stroke.with_tile(tx, ty, first).with_tile(tx, ty, next) == stroke.with_tile(
            tx,
            ty,
            first,
        ),
{
}

/// The distance of two stamps lies within the bounds of the brush, and is never less
/// than a quarter of a pixel.
pub proof fn law_step_in_bounds(size: Num, spacing: Num, speed: Num)
    requires
        !(size is Nan),
        spacing is Finite,
        Single::value(stamping::ZERO).below(spacing),
        !(speed is Nan),
        Single::value(stamping::ZERO).at_most(speed),
    ensures
        stamping::least_step(size).at_most(stamping::step_of(size, spacing, speed)),
        stamping::step_of(size, spacing, speed).at_most(stamping::most_step(size)),
        Single::value(stamping::LEAST_STEP).at_most(stamping::step_of(size, spacing, speed)),
{
    reveal(stamping::step_of);
    reveal(Num::times);
    reveal(Num::plus);
    lemma_positive_constants();
    stamping::lemma_step_bounds(size);
    let stretch = Single::value(stamping::ONE).plus(
        speed.times(Single::value(stamping::SPACING_GAIN)),
    ).clamped(Single::value(stamping::ONE), Single::value(stamping::MOST_SPACING));
    assert(!(speed.times(Single::value(stamping::SPACING_GAIN)) is Nan));
    assert(stretch is Finite && stretch->units > 0);
    assert(!(size.times(spacing) is Nan));
    assert(!(size.times(spacing).times(stretch) is Nan));
}

/// A stamp is narrowed along the motion to no less than 0.45 of its width.
pub proof fn law_axis_scale_in_bounds(size: Num, speed: Num)
    requires
        !(size is Nan),
        !(speed is Nan),
        speed is Infinite ==> Single::value(stamping::ZERO).below(stamping::largeness(size)),
    ensures
        Single::value(stamping::LEAST_AXIS).at_most(stamping::axis_scale_of(size, speed)),
        stamping::axis_scale_of(size, speed).at_most(Single::value(stamping::ONE)),
{
    reveal(stamping::axis_scale_of);
    reveal(Num::times);
    reveal(Num::plus);
    reveal(Num::over);
    lemma_positive_constants();
    single::lemma_value_order(stamping::ZERO, stamping::SMALL_BRUSH);
    single::lemma_value_order(stamping::ZERO, stamping::BRUSH_RANGE);
    single::lemma_value_order(stamping::ZERO, stamping::AXIS_GAIN);
    single::lemma_value_order(stamping::LEAST_AXIS, stamping::ONE);
    assert(stamping::largeness(size) is Finite);
    assert(!(speed.times(stamping::largeness(size)) is Nan));
}

/// A stamp lays down no less than 0.35 of its paint.
pub proof fn law_flow_scale_in_bounds(speed: Num)
    requires
        !(speed is Nan),
        Single::value(stamping::ZERO).at_most(speed),
    ensures
        Single::value(stamping::LEAST_FLOW).at_most(stamping::flow_scale_of(speed)),
        stamping::flow_scale_of(speed).at_most(Single::value(stamping::ONE)),
{
    reveal(stamping::flow_scale_of);
    reveal(Num::times);
    reveal(Num::plus);
    reveal(Num::over);
    lemma_positive_constants();
    single::lemma_value_order(stamping::ZERO, stamping::FLOW_GAIN);
    single::lemma_value_order(stamping::LEAST_FLOW, stamping::ONE);
}

/// The way since the last stamp is always shorter than the distance of two stamps, and is
/// not negative.
pub proof fn law_carry_below_step(carry: Num, dist: Num, step: Num)
    requires
        carry.plus(dist) is Finite,
        Single::value(stamping::ZERO).below(step),
    ensures
        stamping::carry_after(carry, dist, step).below(step),
        carry.plus(dist).place() >= 0 ==> stamping::carry_after(carry, dist, step).place() >= 0,
{
    reveal(stamping::carry_after);
    reveal(Num::remainder);
    lemma_positive_constants();
    if step is Finite {
        let m = carry.plus(dist)->units;
        let n = step->units;
        div_mod::lemma_mod_bound(m as int, n as int);
        if m == 0 {
            div_mod::lemma_small_mod(0, n);
        }
    } else {
        reveal(Num::plus);
    }
}

/// A stroke goes at least a fifth and at most three fifths of the way to the pointer.
pub proof fn law_follow_in_bounds(stroke: Stroke)
    requires
        !(stroke.speed is Nan),
    ensures
        Single::value(stroke::LEAST_FOLLOW).at_most(stroke.follow()),
        stroke.follow().at_most(Single::value(stroke::MOST_FOLLOW)),
{
    reveal(Num::times);
    reveal(Num::plus);
    lemma_positive_constants();
    single::lemma_value_order(stamping::ZERO, stroke::FOLLOW_GAIN);
    single::lemma_value_order(stamping::ZERO, stroke::MOST_FOLLOW_GAIN);
    single::lemma_value_order(stroke::LEAST_FOLLOW, stroke::MOST_FOLLOW);
}

/// The constants of the stamps are finite, positive and in order.
proof fn lemma_positive_constants()
    ensures
        Single::value(stamping::ZERO) == Num::zero(),
        Single::value(stamping::ONE) is Finite,
        Single::value(stamping::ONE).place() > 0,
        Single::value(stamping::SPACING_GAIN) is Finite,
        Single::value(stamping::SPACING_GAIN).place() > 0,
        Single::value(stamping::ONE).place() <= Single::value(stamping::MOST_SPACING).place(),
        Single::value(stamping::MOST_SPACING) is Finite,
        Single::value(stamping::MOST_SPACING).place() < Num::limit_units(),
        Num::limit_units() > 0,
{
    power2::lemma_pow2_pos(277);
    assert(single::magnitude(0) == 0);
    single::lemma_value_order(stamping::ZERO, stamping::ONE);
    single::lemma_value_order(stamping::ZERO, stamping::SPACING_GAIN);
    single::lemma_value_order(stamping::ONE, stamping::MOST_SPACING);
}

/// The tile at column `tx` and row `ty` of a rectangle is visited once, when the rows
/// above it and the tiles to its left are done.
pub proof fn law_each_tile_once(range: TileRange, tx: u32, ty: u32, n: nat)
    requires
        range.min_tx <= tx <= range.max_tx,
        range.min_ty <= ty <= range.max_ty,
        n < range.rows() * range.columns(),
    ensures
        ({
            let turn = (ty - range.min_ty) * range.columns() + (tx - range.min_tx);
            &&& 0 <= turn < range.rows() * range.columns()
            &&& n == turn <==> (range.min_tx + n % range.columns() == tx && range.min_ty + n
                / range.columns() == ty)
        }),
{
    let c = range.columns() as int;
    let row = ty - range.min_ty;
    let column = tx - range.min_tx;
    let turn = row * c + column;
    div_mod::lemma_fundamental_div_mod_converse(turn, c, row, column);
    div_mod::lemma_fundamental_div_mod(n as int, c);
    mul::lemma_mul_is_commutative(c, n as int / c);
    assert(0 <= turn < range.rows() * c) by (nonlinear_arith)
        requires
            turn == row * c + column,
            0 <= column < c,
            0 <= row < range.rows(),
    ;
}

/// Whether pixel `k` of a row lies, at least in part, within `radius` of `center`.
pub open spec fn touches(center: Num, radius: Num, k: nat) -> bool {
    let low = center.minus(radius);
    let high = center.plus(radius);
    &&& !(low is Nan)
    &&& !(high is Nan)
    &&& low.place() < (k + 1) * Num::one_units()
    &&& k * Num::one_units() <= high.place()
}

/// The pixel that a range of pixels begins with.
proof fn lemma_lowest(low: Num, k: nat, max: nat)
    requires
        !(low is Nan),
        low.place() < (k + 1) * Num::one_units(),
        low is Infinite ==> low->Infinite_negative,
    ensures
        low.floored().greater(Num::zero()).cut_to(max) <= k,
{
    reveal(Num::floored);
    reveal(Num::cut_to);
    let one = Num::one_units() as int;
    power2::lemma_pow2_pos(149);
    power2::lemma_pow2_pos(277);
    if low is Finite && !low->Finite_negative {
        let units = low->units as int;
        let w = units / one;
        div_mod::lemma_fundamental_div_mod(units, one);
        div_mod::lemma_div_pos_is_pos(units, one);
        assert(w <= k) by (nonlinear_arith)
            requires
                units < (k + 1) * one,
                units >= one * w,
                one > 0,
        ;
        div_mod::lemma_div_multiples_vanish(w, one);
        mul::lemma_mul_is_commutative(w, one);
        mul::lemma_mul_nonnegative(w, one);
    }
}

/// The pixel that a range of pixels ends with.
proof fn lemma_highest(high: Num, k: nat, max: nat)
    requires
        !(high is Nan),
        k * Num::one_units() <= high.place(),
        k <= max,
    ensures
        high.ceiled().cut_to(max) >= k,
{
    reveal(Num::floored);
    reveal(Num::cut_to);
    let one = Num::one_units() as int;
    power2::lemma_pow2_pos(149);
    power2::lemma_pow2_pos(277);
    mul::lemma_mul_nonnegative(k as int, one);
    if high is Finite {
        let units = high->units as int;
        let w = units / one;
        div_mod::lemma_fundamental_div_mod(units, one);
        div_mod::lemma_div_pos_is_pos(units, one);
        let top: int = if units % one != 0 {
            w + 1
        } else {
            w
        };
        if high->Finite_negative {
            assert(k == 0) by (nonlinear_arith)
                requires
                    k * one <= 0,
                    one > 0,
                    k >= 0,
            ;
        } else {
            assert(top >= k) by (nonlinear_arith)
                requires
                    units >= k * one,
                    units == one * w + units % one,
                    0 <= units % one < one,
                    one > 0,
                    top == if units % one != 0 {
                        w + 1
                    } else {
                        w
                    },
            ;
            div_mod::lemma_div_multiples_vanish(top, one);
            mul::lemma_mul_is_commutative(top, one);
            mul::lemma_mul_nonnegative(top, one);
        }
    } else if high->Infinite_negative {
        assert(k * one >= 0);
    }
}

/// No pixel under a stamp is missed: every one lies in a tile that the stamp is put
/// into.
pub proof fn law_no_pixel_missed(pos: Place, size: Num, x: u32, y: u32)
    requires
        touches(pos.x, size.times(Single::value(stroke::HALF)), x as nat),
        touches(pos.y, size.times(Single::value(stroke::HALF)), y as nat),
    ensures
        ({
            let range = stroke::covered(pos, size);
            &&& range.min_tx <= x / 256 <= range.max_tx
            &&& range.min_ty <= y / 256 <= range.max_ty
        }),
{
    let radius = size.times(Single::value(stroke::HALF));
    lemma_positive_constants();
    lemma_not_above(pos.x.minus(radius), x as nat);
    lemma_not_above(pos.y.minus(radius), y as nat);
    lemma_lowest(pos.x.minus(radius), x as nat, 0xffff_ffff);
    lemma_lowest(pos.y.minus(radius), y as nat, 0xffff_ffff);
    lemma_highest(pos.x.plus(radius), x as nat, 0xffff_ffff);
    lemma_highest(pos.y.plus(radius), y as nat, 0xffff_ffff);
    lemma_cut(pos.x.plus(radius).ceiled());
    lemma_cut(pos.y.plus(radius).ceiled());
}

/// A number cut to 32 bits fits them.
proof fn lemma_cut(n: Num)
    ensures
        n.cut_to(0xffff_ffff) <= 0xffff_ffff,
{
    reveal(Num::cut_to);
}

/// What lies below a pixel number is not positive infinity.
proof fn lemma_not_above(low: Num, k: nat)
    requires
        low.place() < (k + 1) * Num::one_units(),
        k <= 0xffff_ffff,
    ensures
        low is Infinite ==> low->Infinite_negative,
{
    power2::lemma2_to64();
    rounding::lemma_pow2_split(277, 149, 128);
    rounding::lemma_pow2_split(128, 64, 64);
    assert((k + 1) * Num::one_units() <= Num::limit_units()) by (nonlinear_arith)
        requires
            k <= 0xffff_ffff,
            Num::limit_units() == Num::one_units() * (0x1_0000_0000_0000_0000
                * 0x1_0000_0000_0000_0000),
            Num::one_units() >= 0,
    ;
}

/// A number cut to an integer is not greater than a greater number cut so.
proof fn lemma_cut_order(low: Num, high: Num)
    requires
        low.at_most(high),
    ensures
        low.floored().greater(Num::zero()).cut_to(0xffff_ffff) <= high.ceiled().cut_to(
            0xffff_ffff,
        ),
{
    reveal(Num::cut_to);
    reveal(Num::floored);
    let one = Num::one_units() as int;
    power2::lemma2_to64();
    power2::lemma_pow2_pos(149);
    rounding::lemma_pow2_split(277, 149, 128);
    rounding::lemma_pow2_split(128, 64, 64);
    let limit = Num::limit_units() as int;
    assert(limit >= one * 0x1_0000_0000_0000_0000) by (nonlinear_arith)
        requires
            limit == one * (0x1_0000_0000_0000_0000 * 0x1_0000_0000_0000_0000),
            one > 0,
    ;
    if low.place() >= 0 && low is Finite {
        let a = low->units as int;
        div_mod::lemma_fundamental_div_mod(a, one);
        div_mod::lemma_div_pos_is_pos(a, one);
        let w = a / one;
        div_mod::lemma_div_multiples_vanish(w, one);
        mul::lemma_mul_is_commutative(w, one);
        mul::lemma_mul_nonnegative(w, one);
        if low.floored().greater(Num::zero()).cut_to(0xffff_ffff) > 0 {
            assert(low.floored().greater(Num::zero()).cut_to(0xffff_ffff) <= w);
            assert(w * one <= high.place());
            let k: int = if w <= 0xffff_ffff {
                w
            } else {
                0xffff_ffff
            };
            mul::lemma_mul_inequality(k, w, one);
            lemma_highest(high, k as nat, 0xffff_ffff);
        }
    } else if low is Infinite && !low->Infinite_negative {
        assert(0xffff_ffff * one <= high.place()) by (nonlinear_arith)
            requires
                limit >= one * 0x1_0000_0000_0000_0000,
                high.place() >= limit,
                one > 0,
        ;
        lemma_highest(high, 0xffff_ffff, 0xffff_ffff);
    }
}

/// Along one side the first tile under a stamp is not behind the last.
proof fn lemma_side_covered(center: Num, radius: Num)
    requires
        !radius.below(Num::zero()),
    ensures
        center.minus(radius).floored().greater(Num::zero()).cut_to(0xffff_ffff) <= center.plus(
            radius,
        ).ceiled().cut_to(0xffff_ffff),
{
    let low = center.minus(radius);
    let high = center.plus(radius);
    if low is Nan {
        reveal(Num::floored);
        reveal(Num::cut_to);
        power2::lemma_pow2_pos(149);
        div_mod::lemma_div_of0(Num::one_units() as int);
    } else if high is Nan {
        reveal(Num::plus);
        reveal(Num::floored);
        reveal(Num::cut_to);
        power2::lemma_pow2_pos(149);
        power2::lemma_pow2_pos(277);
        div_mod::lemma_div_of0(Num::one_units() as int);
    } else {
        assert(!(radius is Nan)) by {
            reveal(Num::plus);
        }
        power2::lemma_pow2_pos(277);
        order::lemma_plus_order(center, radius.negated(), radius);
        lemma_cut_order(low, high);
    }
}

/// There is always a tile under a stamp, wherever it is put.
pub proof fn law_some_tile_covered(pos: Place, size: Num)
    requires
        !size.below(Single::value(stamping::ZERO)),
    ensures
        stroke::covered(pos, size).rows() > 0,
        stroke::covered(pos, size).columns() > 0,
{
    let radius = size.times(Single::value(stroke::HALF));
    lemma_positive_constants();
    assert(!radius.below(Num::zero())) by {
        reveal(Num::times);
        single::lemma_value_order(stamping::ZERO, stroke::HALF);
        power2::lemma_pow2_pos(149);
        order::lemma_round_zero(Num::one_units());
        mul::lemma_mul_basics(Single::value(stroke::HALF)->units as int);
    }
    lemma_side_covered(pos.x, radius);
    lemma_side_covered(pos.y, radius);
    lemma_cut(pos.x.plus(radius).ceiled());
    lemma_cut(pos.y.plus(radius).ceiled());
}

/// A stroke that a stamp was put into holds a tile, so finishing it changes something.
pub proof fn law_stamp_leaves_tile(stroke: Stroke, pos: Place, stamps: Seq<TileStamp>)
    requires
        !stroke.brush_size.below(Single::value(stamping::ZERO)),
        stroke.takes_stamp(stroke::covered(pos, stroke.brush_size), stamps),
    ensures
        ({
            let range = stroke::covered(pos, stroke.brush_size);
            let after = stroke.stamped(range, stamps);
            &&& after.tiles.dom().contains(range.tile_at(0))
            &&& after.tiles != Map::<(u32, u32), TileBuffers>::empty()
        }),
{
    let range = stroke::covered(pos, stroke.brush_size);
    law_some_tile_covered(pos, stroke.brush_size);
    mul::lemma_mul_strictly_positive(range.rows() as int, range.columns() as int);
    let radius = stroke.brush_size.times(Single::value(stroke::HALF));
    lemma_cut(pos.x.plus(radius).ceiled());
    lemma_cut(pos.y.plus(radius).ceiled());
    law_stamp_reaches(stroke, range, stamps, range.tile_at(0));
}

/// A stroke begins in the direction given, at rest, with nothing owed. Its first stamp is
/// put where it begins, in that direction and in full, and leaves it holding a tile.
pub proof fn law_stroke_begins(
    brush: Brush,
    at: Place,
    dir: Place,
    layer_id: Seq<char>,
    stamps: Seq<TileStamp>,
)
    requires
        !brush.size@.below(Single::value(stamping::ZERO)),
        brush.begun(at, dir, layer_id).takes_stamp(stroke::covered(at, brush.size@), stamps),
    ensures
        ({
            let begun = brush.begun(at, dir, layer_id);
            let seed = begun.seed(at);
            let stroke = begun.stamped(stroke::covered(seed.pos, begun.brush_size), stamps);
            &&& seed.pos == at
            &&& seed.dir == dir
            &&& seed.axis_scale == Single::value(stamping::ONE)
            &&& seed.flow_scale == Single::value(stamping::ONE)
            &&& stroke.dir == dir
            &&& stroke.last == Some(at)
            &&& stroke.window.len() == 0
            &&& stroke.speed == Num::zero()
            &&& stroke.carry == Num::zero()
            &&& stroke.tiles != Map::<(u32, u32), TileBuffers>::empty()
        }),
{
    let begun = brush.begun(at, dir, layer_id);
    lemma_positive_constants();
    law_stamp_leaves_tile(begun, at, stamps);
    law_brush_locked_by_stamp(begun, stroke::covered(at, brush.size@), stamps);
}

/// On a segment of up to four million steps each stamp comes at least seven tenths of
/// the step further, so the stamps of the segment come to an end.
pub proof fn law_run_advances(run: Run)
    requires
        run.owes(),
        run.offset is Finite,
        run.offset.place() >= 0,
        run.dist is Finite,
        run.step is Finite,
        1 as real / 4 as real <= error::amount(run.step),
        error::amount(run.dist) <= 4000000 as real * error::amount(run.step),
        error::amount(run.dist) + error::amount(run.step) <= error::large(),
    ensures
        run.after_stamp().offset is Finite,
        error::amount(run.after_stamp().offset) >= error::amount(run.offset) + 7 as real
            * error::amount(run.step) / 10 as real,
{
    let o = Num::one_units() as real;
    let offset = error::amount(run.offset);
    let step = error::amount(run.step);
    error::lemma_amount(run.offset);
    error::lemma_amount(run.dist);
    error::lemma_cancel(offset, error::amount(run.dist), o);
    assert(0 as real * o == 0 as real);
    error::lemma_cancel(0 as real, offset, o);
    error::lemma_plus(run.offset, run.step);
}

} // verus!
