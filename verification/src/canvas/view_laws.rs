//! What holds of the view, whatever the pointer does.

use super::geometry::Place;
use super::stamping;
use super::stroke::{Brush, Stroke};
use super::viewport;
use super::viewport::View2d;
use crate::binary32::error;
use crate::binary32::num::Num;
use crate::binary32::order;
use crate::binary32::rounding;
use crate::binary32::single;
use crate::binary32::single::Single;
use vstd::arithmetic::mul;
use vstd::arithmetic::power2;
use vstd::prelude::*;

verus! {

/// A drag forgets its path: where the canvas ends up rests on where the drag began and
/// on where the pointer is.
pub proof fn law_drag_forgets_path(view: View2d, via: Place, win: Place)
    requires
        view.grip.held || view.mid_grip.held,
    ensures
        view.moved(via).moved(win) == view.moved(win),
{
}

/// While the canvas is dragged no stroke is drawn.
pub proof fn law_drag_draws_nothing(view: View2d, win: Place)
    requires
        view.grip.held || view.mid_grip.held,
    ensures
        view.moved(win).stroke == view.stroke,
{
}

/// Moving the pointer without a drag leaves the canvas where it is.
pub proof fn law_move_keeps_canvas(view: View2d, win: Place)
    requires
        !view.grip.held,
        !view.mid_grip.held,
    ensures
        view.moved(win).pan == view.pan,
        view.moved(win).zoom == view.zoom,
{
}

/// A stroke begins in the direction that the one before it ended in, whatever was
/// dragged, moved or zoomed between the two.
pub proof fn law_direction_persists(
    view: View2d,
    last: Stroke,
    over: Place,
    turn: Num,
    at: Place,
    layer_id: String,
    brush: Brush,
)
    requires
        view.stroke == Some(last),
    ensures
        ({
            let rest = view.finished();
            &&& rest.stroke is None
            &&& rest.last_dir == last.dir
            &&& rest.moved(over).last_dir == rest.last_dir && rest.moved(over).stroke is None
            &&& rest.scrolled(over, turn).last_dir == rest.last_dir && rest.scrolled(
                over,
                turn,
            ).stroke is None
            &&& rest.gripped(over).last_dir == rest.last_dir && rest.gripped(over).stroke is None
            &&& rest.released().last_dir == rest.last_dir && rest.released().stroke is None
            &&& rest.begun(at, Some(layer_id), brush).stroke matches Some(next) && next.dir
                == last.dir && next.seed(at).dir == last.dir
        }),
{
}

/// Without a layer to draw on nothing begins.
pub proof fn law_no_layer_no_stroke(view: View2d, at: Place, brush: Brush)
    ensures
        view.begun(at, None, brush) == view,
{
}

/// A drag that has ended no longer moves the canvas.
pub proof fn law_released_drag(view: View2d, win: Place)
    requires
        !view.mid_grip.held,
    ensures
        view.released().moved(win).pan == view.pan,
{
}

/// Whether a point of the canvas has stayed where it was on the screen, but for rounding:
/// it may be off by 2^-21 of what the coordinates measure in pixels.
pub open spec fn stayed(local: Num, was: Num, now: Num, zoom: Num) -> bool {
    let off = error::size(error::amount(now) - error::amount(was)) * error::amount(zoom);
    &&& now is Finite
    &&& off <= (span(local, was, zoom) + 1 as real) / 2097152 as real
}

/// What two coordinates measure in pixels: one of the element, and one of the canvas.
pub open spec fn span(local: Num, at: Num, zoom: Num) -> real {
    error::size(error::amount(local)) + error::size(error::amount(at)) * error::amount(zoom)
}

/// Whether two coordinates are finite and far from the limit of the format.
pub open spec fn is_moderate(local: Num, at: Num, zoom: Num) -> bool {
    &&& local is Finite
    &&& at is Finite
    &&& span(local, at, zoom) <= error::large() / 1000 as real
}

/// A number that rounding has made of `v` is close to it.
proof fn lemma_close(x: real, v: real, m: real)
    requires
        error::size(x - v) <= error::slack(v),
        error::size(v) <= m,
    ensures
        error::size(x - v) <= (m + 1 as real) / 16777216 as real,
        error::size(x) <= m + (m + 1 as real) / 16777216 as real,
{
}

/// Moving the corner of the canvas and measuring from there again leads back, but for
/// rounding.
proof fn lemma_there_and_back(l: real, fz: real, t: real, p: real, s: real, m: real)
    requires
        error::size(l) + error::size(fz) <= m,
        error::size(t - fz) <= error::slack(fz),
        error::size(p - (l - t)) <= error::slack(l - t),
        error::size(s - (l - p)) <= error::slack(l - p),
    ensures
        error::size(l - t) <= 2 as real * m + 1 as real,
        error::size(l - p) <= 2 as real * m + 1 as real,
        error::size(s) <= 2 as real * m + 1 as real,
        error::size(s - fz) <= 4 as real * (m + 1 as real) / 16777216 as real,
{
    let u = (m + 1 as real) / 16777216 as real;
    lemma_close(t, fz, error::size(fz));
    assert(error::size(l - t) <= m + u);
    lemma_close(p, l - t, m + u);
    assert(error::size(p - (l - t)) <= u + u / 1000 as real);
    assert(error::size(l - p) <= error::size(fz) + 3 as real * u);
    lemma_close(s, l - p, error::size(fz) + 3 as real * u);
}

/// Moving the corner of the canvas puts a point back where it was.
proof fn lemma_stayed(local: Num, at: Num, zoom: Num)
    requires
        is_moderate(local, at, zoom) || local.minus(local.minus(at.times(zoom))).over(
            zoom,
        ) is Finite,
        zoom is Finite,
        1 as real / 32 as real <= error::amount(zoom) <= 32 as real,
    ensures
        stayed(local, at, local.minus(local.minus(at.times(zoom))).over(zoom), zoom),
{
    if !is_moderate(local, at, zoom) {
        reveal(Num::over);
        reveal(Num::plus);
        reveal(Num::times);
    }
    let l = error::amount(local);
    let f = error::amount(at);
    let z = error::amount(zoom);
    let m = span(local, at, zoom);
    lemma_scaled(f, z);
    error::lemma_large();
    error::lemma_times(at, zoom);
    let scaled = at.times(zoom);
    let t = error::amount(scaled);
    lemma_close(t, f * z, error::size(f * z));
    error::lemma_minus(local, scaled);
    let pan = local.minus(scaled);
    let p = error::amount(pan);
    lemma_close(p, l - t, 2 as real * m + 1 as real);
    error::lemma_minus(local, pan);
    let back = local.minus(pan);
    let s = error::amount(back);
    lemma_there_and_back(l, f * z, t, p, s, m);
    let r = s / z;
    assert(r * z == s) by (nonlinear_arith)
        requires
            r == s / z,
            z > 0 as real,
    ;
    lemma_quotient_size(r, s, z);
    error::lemma_over(back, zoom);
    let q = error::amount(back.over(zoom));
    lemma_last_step(f, z, s, r, q, m);
}

/// The last step of measuring again: dividing by the zoom.
proof fn lemma_last_step(f: real, z: real, s: real, r: real, q: real, m: real)
    requires
        z > 0 as real,
        z <= 32 as real,
        r * z == s,
        error::size(s) <= 2 as real * m + 1 as real,
        error::size(s - f * z) <= 4 as real * (m + 1 as real) / 16777216 as real,
        error::size(q - r) <= error::slack(r),
        m >= 0 as real,
    ensures
        error::size(q - f) * z <= (m + 1 as real) / 2097152 as real,
{
    let e = error::slack(r);
    let a = error::size(r);
    lemma_scaled_size(q - r, e, z);
    lemma_scaled(r, z);
    lemma_scaled(q - f, z);
    assert((q - f) * z == (q - r) * z + (r * z - f * z)) by (nonlinear_arith);
    assert((a / 16777216 as real + 1 as real / 281474976710656 as real) * z == (a * z)
        / 16777216 as real + z / 281474976710656 as real) by (nonlinear_arith);
    assert(e * z <= (2 as real * m + 2 as real) / 16777216 as real);
}

/// The size of a product with a positive number.
pub proof fn lemma_scaled(v: real, z: real)
    requires
        z > 0 as real,
    ensures
        error::size(v) * z == error::size(v * z),
{
    assert((-v) * z == -(v * z)) by (nonlinear_arith);
    if v < 0 as real {
        error::lemma_nonneg(-v, z);
    } else {
        error::lemma_nonneg(v, z);
    }
}

/// A number of at most the size `e` is of at most that size when scaled.
pub proof fn lemma_scaled_size(v: real, e: real, z: real)
    requires
        error::size(v) <= e,
        z > 0 as real,
    ensures
        error::size(v * z) <= e * z,
{
    lemma_scaled(v, z);
    error::lemma_nonneg(e - error::size(v), z);
    let a = error::size(v);
    assert((e - a) * z == e * z - a * z) by (nonlinear_arith);
}

/// Dividing by no less than a thirty-second enlarges no more than thirty-two times.
pub proof fn lemma_quotient_size(r: real, s: real, z: real)
    requires
        r * z == s,
        1 as real / 32 as real <= z,
    ensures
        error::size(r) <= 32 as real * error::size(s),
{
    lemma_scaled(r, z);
    let a = error::size(r);
    error::lemma_nonneg(a, z - 1 as real / 32 as real);
    assert(a * (z - 1 as real / 32 as real) == a * z - a / 32 as real) by (nonlinear_arith);
}

/// 2^-5
const THIRTY_SECOND: u32 = 0x3d00_0000;

/// The bounds of the zoom as real numbers.
pub proof fn lemma_zoom_amount(zoom: Num)
    requires
        Single::value(viewport::ZOOM_MIN).at_most(zoom),
        zoom.at_most(Single::value(viewport::ZOOM_MAX)),
    ensures
        zoom is Finite,
        1 as real / 32 as real <= error::amount(zoom) <= 32 as real,
{
    single::lemma_value_order(THIRTY_SECOND, viewport::ZOOM_MIN);
    single::lemma_value_order(viewport::ZOOM_MIN, viewport::ZOOM_MAX);
    power2::lemma2_to64();
    let one = Num::one_units();
    rounding::lemma_pow2_split(154, 23, 131);
    rounding::lemma_pow2_split(154, 5, 149);
    error::lemma_whole_value(viewport::ZOOM_MAX, 32, 0x80_0000, 131);
    rounding::lemma_pow2_split(144, 23, 121);
    rounding::lemma_pow2_split(149, 5, 144);
    assert(THIRTY_SECOND as nat / 0x80_0000 == 122);
    assert(Single::value(THIRTY_SECOND).place() == power2::pow2(144));
    assert(zoom.place() <= 32 * one);
    assert(one <= 32 * zoom.place());
    error::lemma_amount(zoom);
    let a = error::amount(zoom);
    let o = one as real;
    error::lemma_cancel(a, 32 as real, o);
    assert((32 as real * a) * o == 32 as real * (a * o)) by (nonlinear_arith);
    error::lemma_cancel(1 as real, 32 as real * a, o);
}

/// Measuring from the corner of the canvas undoes showing a point there.
proof fn lemma_returned(pan: Num, at: Num, zoom: Num)
    requires
        is_moderate(pan, at, zoom) || pan.plus(at.times(zoom)).minus(pan).over(zoom) is Finite,
        zoom is Finite,
        1 as real / 32 as real <= error::amount(zoom) <= 32 as real,
    ensures
        stayed(pan, at, pan.plus(at.times(zoom)).minus(pan).over(zoom), zoom),
{
    if !is_moderate(pan, at, zoom) {
        reveal(Num::over);
        reveal(Num::plus);
        reveal(Num::times);
    }
    let p = error::amount(pan);
    let f = error::amount(at);
    let z = error::amount(zoom);
    let m = span(pan, at, zoom);
    lemma_scaled(f, z);
    error::lemma_large();
    error::lemma_times(at, zoom);
    let scaled = at.times(zoom);
    let t = error::amount(scaled);
    lemma_close(t, f * z, error::size(f * z));
    error::lemma_plus(pan, scaled);
    let shown = pan.plus(scaled);
    let e = error::amount(shown);
    lemma_close(e, p + t, 2 as real * m + 1 as real);
    error::lemma_minus(shown, pan);
    let back = shown.minus(pan);
    let s = error::amount(back);
    lemma_there_and_back(-p, f * z, t, -e, s, m);
    let r = s / z;
    assert(r * z == s) by (nonlinear_arith)
        requires
            r == s / z,
            z > 0 as real,
    ;
    lemma_quotient_size(r, s, z);
    error::lemma_over(back, zoom);
    let q = error::amount(back.over(zoom));
    lemma_last_step(f, z, s, r, q, m);
}

/// Where in the element a point of the canvas is shown.
pub open spec fn on_element(view: View2d, at: Place) -> Place {
    view.pan.along(at, view.zoom)
}

/// A point of the canvas is found again from where it is shown, but for rounding: each
/// coordinate, wherever the way back stays within the format, as it does for all
/// coordinates that are not huge.
pub proof fn law_on_canvas_undoes_showing(view: View2d, at: Place)
    requires
        Single::value(viewport::ZOOM_MIN).at_most(view.zoom),
        view.zoom.at_most(Single::value(viewport::ZOOM_MAX)),
    ensures
        ({
            let back = view.on_canvas(on_element(view, at));
            &&& is_moderate(view.pan.x, at.x, view.zoom) || back.x is Finite ==> stayed(
                view.pan.x,
                at.x,
                back.x,
                view.zoom,
            )
            &&& is_moderate(view.pan.y, at.y, view.zoom) || back.y is Finite ==> stayed(
                view.pan.y,
                at.y,
                back.y,
                view.zoom,
            )
        }),
{
    let back = view.on_canvas(on_element(view, at));
    lemma_zoom_amount(view.zoom);
    if is_moderate(view.pan.x, at.x, view.zoom) || back.x is Finite {
        lemma_returned(view.pan.x, at.x, view.zoom);
    }
    if is_moderate(view.pan.y, at.y, view.zoom) || back.y is Finite {
        lemma_returned(view.pan.y, at.y, view.zoom);
    }
}

/// The corner of the canvas is shown at the pan: a pointer there is at the origin of the
/// canvas, exactly.
pub proof fn law_pan_is_origin(view: View2d)
    requires
        Single::value(viewport::ZOOM_MIN).at_most(view.zoom),
        view.zoom.at_most(Single::value(viewport::ZOOM_MAX)),
        view.pan.x is Finite,
        view.pan.y is Finite,
    ensures
        view.on_canvas(view.pan) == (Place { x: Num::zero(), y: Num::zero() }),
{
    reveal(Num::plus);
    reveal(Num::over);
    single::lemma_value_order(stamping::ZERO, viewport::ZOOM_MIN);
    single::lemma_value_order(viewport::ZOOM_MIN, viewport::ZOOM_MAX);
    lemma_zoom_amount(view.zoom);
    order::lemma_round_zero(view.zoom->units);
    power2::lemma_pow2_pos(277);
    mul::lemma_mul_basics(Num::one_units() as int);
    assert(view.pan.to(view.pan) == (Place { x: Num::zero(), y: Num::zero() }));
    assert(view.zoom.place() > 0);
    assert(Num::zero().over(view.zoom) == Num::zero());
}

/// Zooming keeps the point of the canvas under the pointer there, but for rounding: each
/// coordinate, wherever it stays within the format, as it does for all coordinates that are
/// not huge.
pub proof fn law_zoom_keeps_focus(view: View2d, win: Place, turn: Num)
    requires
        Single::value(viewport::ZOOM_MIN).at_most(view.zoom),
        view.zoom.at_most(Single::value(viewport::ZOOM_MAX)),
    ensures
        ({
            let local = view.local(win);
            let was = view.on_canvas(local);
            let next = view.scrolled(win, turn);
            let now = next.on_canvas(next.local(win));
            &&& is_moderate(local.x, was.x, next.zoom) || now.x is Finite ==> stayed(
                local.x,
                was.x,
                now.x,
                next.zoom,
            )
            &&& is_moderate(local.y, was.y, next.zoom) || now.y is Finite ==> stayed(
                local.y,
                was.y,
                now.y,
                next.zoom,
            )
        }),
{
    let local = view.local(win);
    let at = view.on_canvas(local);
    let zoom = view.zoom_after(turn);
    let next = view.scrolled(win, turn);
    let now = next.on_canvas(next.local(win));
    single::lemma_value_order(viewport::ZOOM_OUT, viewport::ZOOM_IN);
    viewport::lemma_zoom_bounds(
        view.zoom,
        if turn.below(Single::value(stamping::ZERO)) {
            Single::value(viewport::ZOOM_IN)
        } else {
            Single::value(viewport::ZOOM_OUT)
        },
    );
    lemma_zoom_amount(zoom);
    if is_moderate(local.x, at.x, zoom) || now.x is Finite {
        lemma_stayed(local.x, at.x, zoom);
    }
    if is_moderate(local.y, at.y, zoom) || now.y is Finite {
        lemma_stayed(local.y, at.y, zoom);
    }
}

} // verus!
