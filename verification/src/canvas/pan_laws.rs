//! What panning does, and where the pointer is on the canvas, in exact arithmetic.

use super::formula_laws;
use super::geometry::Place;
use super::stamping::StampRun;
use super::stroke;
use super::stroke::{Brush, Stroke, StrokeCommit};
use super::tiles;
use super::view_laws;
use super::viewport;
use super::viewport::{Grip, View2d};
use crate::binary32::error;
use crate::binary32::num::Num;
use crate::binary32::rounding;
use crate::binary32::single::Single;
use vstd::arithmetic::power2;
use vstd::prelude::*;

verus! {

/// Whether numbers are finite and together far from the limit of the format.
pub open spec fn are_moderate(a: Num, b: Num, c: Num, d: Num) -> bool {
    &&& a is Finite
    &&& b is Finite
    &&& c is Finite
    &&& d is Finite
    &&& extent(a, b, c, d) <= error::large() / 1000000 as real
}

/// What numbers measure together.
pub open spec fn extent(a: Num, b: Num, c: Num, d: Num) -> real {
    error::size(error::amount(a)) + error::size(error::amount(b)) + error::size(error::amount(c))
        + error::size(error::amount(d))
}

/// A coordinate moved by the way from one to another.
proof fn lemma_moved(pan: Num, start: Num, win: Num, rest: Num)
    requires
        are_moderate(pan, start, win, rest),
    ensures
        error::near(
            pan.plus(win.minus(start)),
            error::amount(pan) + error::amount(win) - error::amount(start),
            (1 as real + extent(pan, start, win, rest)) / 1000000 as real,
        ),
{
    error::lemma_large();
    error::lemma_minus(win, start);
    error::lemma_plus(pan, win.minus(start));
}

/// While a drag is held the canvas moves by as many pixels as the pointer has moved since the
/// button was pressed, in each coordinate and at every zoom; the zoom stays as it is. It is
/// the same with the middle button.
pub proof fn law_drag_moves_with_the_pointer(
    view: View2d,
    start: Place,
    win: Place,
    other_zoom: Num,
)
    ensures
        ({
            let dragged = view.gripped(start).moved(win);
            let other = View2d { zoom: other_zoom, ..view };
            let grip = Grip { held: true, start: Some(start), pan: view.pan };
            let middle = View2d { mid_grip: grip, ..view };
            let zero = Num::zero();
            &&& dragged.zoom == view.zoom
            &&& dragged.origin == view.origin
            &&& dragged.cursor == Some(win)
            &&& other.gripped(start).moved(win).pan == dragged.pan
            &&& are_moderate(view.pan.x, start.x, win.x, zero) ==> error::near(
                dragged.pan.x,
                error::amount(view.pan.x) + error::amount(win.x) - error::amount(start.x),
                (1 as real + extent(view.pan.x, start.x, win.x, zero)) / 1000000 as real,
            )
            &&& are_moderate(view.pan.y, start.y, win.y, zero) ==> error::near(
                dragged.pan.y,
                error::amount(view.pan.y) + error::amount(win.y) - error::amount(start.y),
                (1 as real + extent(view.pan.y, start.y, win.y, zero)) / 1000000 as real,
            )
            &&& !view.grip.held ==> middle.moved(win).pan == dragged.pan && middle.moved(win).zoom
                == view.zoom
        }),
{
    let zero = Num::zero();
    if are_moderate(view.pan.x, start.x, win.x, zero) {
        lemma_moved(view.pan.x, start.x, win.x, zero);
    }
    if are_moderate(view.pan.y, start.y, win.y, zero) {
        lemma_moved(view.pan.y, start.y, win.y, zero);
    }
}

/// A drag with the right button goes before one with the middle button, and each counts from
/// where it was begun, whatever the other one did.
pub proof fn law_drags_are_apart(view: View2d, start: Place, win: Place, mid: Grip)
    ensures
        ({
            let both = View2d { mid_grip: mid, ..view };
            &&& both.gripped(start).moved(win).pan == view.gripped(start).moved(win).pan
            &&& both.gripped(start).moved(win).mid_grip == mid
        }),
{
}

/// Where the pointer is on the canvas, in pixels: what is left of its local coordinate when
/// the pan is taken away.
#[verifier::rlimit(40)]
proof fn lemma_on_canvas(pan: Num, local: Num, zoom: Num)
    requires
        are_moderate(pan, local, Num::zero(), Num::zero()),
        zoom is Finite,
        1 as real / 32 as real <= error::amount(zoom) <= 32 as real,
    ensures
        ({
            let q = local.minus(pan).over(zoom);
            let exact = error::amount(local) - error::amount(pan);
            &&& q is Finite
            &&& error::size(error::amount(q) * error::amount(zoom) - exact) <= (1 as real
                + extent(pan, local, Num::zero(), Num::zero())) / 1000000 as real
        }),
{
    error::lemma_large();
    let z = error::amount(zoom);
    let d = local.minus(pan);
    error::lemma_minus(local, pan);
    let s = error::amount(d);
    let r = s / z;
    assert(r * z == s) by (nonlinear_arith)
        requires
            r == s / z,
            z > 0 as real,
    ;
    view_laws::lemma_quotient_size(r, s, z);
    error::lemma_over(d, zoom);
    let q = error::amount(d.over(zoom));
    lemma_scaled_back(q, r, z, s);
}

/// What rounding a quotient leads away from, when it is scaled back.
proof fn lemma_scaled_back(q: real, r: real, z: real, s: real)
    requires
        1 as real / 32 as real <= z <= 32 as real,
        r * z == s,
        error::size(q - r) <= error::slack(r),
    ensures
        error::size(q * z - s) <= (error::size(s) + 1 as real) / 16000000 as real,
{
    view_laws::lemma_scaled(r, z);
    let a = error::size(r);
    let e = error::slack(r);
    view_laws::lemma_scaled_size(q - r, e, z);
    assert((q - r) * z == q * z - r * z) by (nonlinear_arith);
    assert((a / 16777216 as real + 1 as real / 281474976710656 as real) * z == (a * z)
        / 16777216 as real + z / 281474976710656 as real) by (nonlinear_arith);
}

/// A coordinate of the canvas times the zoom is the local coordinate less the pan, but for
/// rounding.
pub proof fn law_canvas_coordinate_is(view: View2d, local: Place)
    requires
        Single::value(viewport::ZOOM_MIN).at_most(view.zoom),
        view.zoom.at_most(Single::value(viewport::ZOOM_MAX)),
    ensures
        ({
            let at = view.on_canvas(local);
            let z = error::amount(view.zoom);
            let zero = Num::zero();
            &&& are_moderate(view.pan.x, local.x, zero, zero) ==> at.x is Finite && error::size(
                error::amount(at.x) * z - (error::amount(local.x) - error::amount(view.pan.x)),
            ) <= (1 as real + extent(view.pan.x, local.x, zero, zero)) / 1000000 as real
            &&& are_moderate(view.pan.y, local.y, zero, zero) ==> at.y is Finite && error::size(
                error::amount(at.y) * z - (error::amount(local.y) - error::amount(view.pan.y)),
            ) <= (1 as real + extent(view.pan.y, local.y, zero, zero)) / 1000000 as real
        }),
{
    view_laws::lemma_zoom_amount(view.zoom);
    if are_moderate(view.pan.x, local.x, Num::zero(), Num::zero()) {
        lemma_on_canvas(view.pan.x, local.x, view.zoom);
    }
    if are_moderate(view.pan.y, local.y, Num::zero(), Num::zero()) {
        lemma_on_canvas(view.pan.y, local.y, view.zoom);
    }
}

/// Local coordinates are those of the window less the corner of the element, but for
/// rounding.
pub proof fn law_local_coordinate_is(view: View2d, win: Place)
    ensures
        ({
            let local = view.local(win);
            let zero = Num::zero();
            &&& are_moderate(view.origin.x, win.x, zero, zero) ==> error::near(
                local.x,
                error::amount(win.x) - error::amount(view.origin.x),
                (1 as real + extent(view.origin.x, win.x, zero, zero)) / 1000000 as real,
            )
            &&& are_moderate(view.origin.y, win.y, zero, zero) ==> error::near(
                local.y,
                error::amount(win.y) - error::amount(view.origin.y),
                (1 as real + extent(view.origin.y, win.y, zero, zero)) / 1000000 as real,
            )
        }),
{
    error::lemma_large();
    if are_moderate(view.origin.x, win.x, Num::zero(), Num::zero()) {
        error::lemma_minus(win.x, view.origin.x);
    }
    if are_moderate(view.origin.y, win.y, Num::zero(), Num::zero()) {
        error::lemma_minus(win.y, view.origin.y);
    }
}

/// The same point of the canvas stays under the pointer, in one coordinate.
#[verifier::rlimit(40)]
proof fn lemma_held(pan: Num, start: Num, win: Num, origin: Num, zoom: Num)
    requires
        are_moderate(pan, start, win, origin),
        zoom is Finite,
        1 as real / 32 as real <= error::amount(zoom) <= 32 as real,
    ensures
        ({
            let was = start.minus(origin).minus(pan).over(zoom);
            let now = win.minus(origin).minus(pan.plus(win.minus(start))).over(zoom);
            &&& was is Finite
            &&& now is Finite
            &&& error::size(error::amount(now) - error::amount(was)) * error::amount(zoom) <= (
            1 as real + extent(pan, start, win, origin)) / 100000 as real
        }),
{
    error::lemma_large();
    let zero = Num::zero();
    error::lemma_amount(zero);
    lemma_moved(pan, start, win, origin);
    let next = pan.plus(win.minus(start));
    error::lemma_minus(start, origin);
    error::lemma_minus(win, origin);
    let l0 = start.minus(origin);
    let l1 = win.minus(origin);
    let far = extent(pan, start, win, origin);
    let p = error::amount(pan);
    let n = error::amount(next);
    let a = error::amount(l0);
    let b = error::amount(l1);
    lemma_held_bounds(
        p,
        error::amount(start),
        error::amount(win),
        error::amount(origin),
        n,
        a,
        b,
    );
    lemma_on_canvas_within(pan, l0, zoom, 2 as real * far + 1 as real);
    lemma_on_canvas_within(next, l1, zoom, 4 as real * far + 2 as real);
    let was = error::amount(l0.minus(pan).over(zoom));
    let now = error::amount(l1.minus(next).over(zoom));
    let z = error::amount(zoom);
    view_laws::lemma_scaled(now - was, z);
    assert((now - was) * z == now * z - was * z) by (nonlinear_arith);
    lemma_held_difference(b - n, a - p, now * z, was * z, far);
}

/// What the coordinates of a drag are, but for rounding.
proof fn lemma_held_bounds(p: real, s: real, w: real, o: real, n: real, a: real, b: real)
    requires
        error::size(n - (p + w - s)) <= (1 as real + (error::size(p) + error::size(s)
            + error::size(w) + error::size(o))) / 1000000 as real,
        error::size(a - (s - o)) <= error::slack(s - o),
        error::size(b - (w - o)) <= error::slack(w - o),
    ensures
        ({
            let far = error::size(p) + error::size(s) + error::size(w) + error::size(o);
            &&& error::size(p) + error::size(a) <= 2 as real * far + 1 as real
            &&& error::size(n) + error::size(b) <= 4 as real * far + 2 as real
            &&& error::size((b - n) - (a - p)) <= (1 as real + far) / 500000 as real
        }),
{
}

/// Two places that are close to places that are close.
proof fn lemma_held_difference(x: real, y: real, now: real, was: real, far: real)
    requires
        far >= 0 as real,
        error::size(x - y) <= (1 as real + far) / 500000 as real,
        error::size(now - x) <= (1 as real + (4 as real * far + 2 as real)) / 1000000 as real,
        error::size(was - y) <= (1 as real + (2 as real * far + 1 as real)) / 1000000 as real,
    ensures
        error::size(now - was) <= (1 as real + far) / 100000 as real,
{
}

/// Where the pointer is on the canvas, in pixels, with a bound on the coordinates.
#[verifier::rlimit(40)]
proof fn lemma_on_canvas_within(pan: Num, local: Num, zoom: Num, far: real)
    requires
        pan is Finite,
        local is Finite,
        extent(pan, local, Num::zero(), Num::zero()) <= far,
        far <= error::large() / 1000 as real,
        zoom is Finite,
        1 as real / 32 as real <= error::amount(zoom) <= 32 as real,
    ensures
        ({
            let q = local.minus(pan).over(zoom);
            let exact = error::amount(local) - error::amount(pan);
            &&& q is Finite
            &&& error::size(error::amount(q) * error::amount(zoom) - exact) <= (1 as real + far)
                / 1000000 as real
        }),
{
    error::lemma_large();
    error::lemma_amount(Num::zero());
    let z = error::amount(zoom);
    let d = local.minus(pan);
    error::lemma_minus(local, pan);
    let s = error::amount(d);
    let r = s / z;
    assert(r * z == s) by (nonlinear_arith)
        requires
            r == s / z,
            z > 0 as real,
    ;
    view_laws::lemma_quotient_size(r, s, z);
    error::lemma_over(d, zoom);
    lemma_scaled_back(error::amount(d.over(zoom)), r, z, s);
}

/// While a drag is held the point of the canvas that was under the pointer when the button was
/// pressed stays under the pointer, at every zoom, but for rounding.
pub proof fn law_drag_holds_the_point(view: View2d, start: Place, win: Place)
    requires
        Single::value(viewport::ZOOM_MIN).at_most(view.zoom),
        view.zoom.at_most(Single::value(viewport::ZOOM_MAX)),
    ensures
        ({
            let dragged = view.gripped(start).moved(win);
            let was = view.on_canvas(view.local(start));
            let now = dragged.on_canvas(dragged.local(win));
            let z = error::amount(view.zoom);
            &&& are_moderate(view.pan.x, start.x, win.x, view.origin.x) ==> now.x is Finite && was.x
                is Finite && error::size(error::amount(now.x) - error::amount(was.x)) * z <= (
            1 as real + extent(view.pan.x, start.x, win.x, view.origin.x)) / 100000 as real
            &&& are_moderate(view.pan.y, start.y, win.y, view.origin.y) ==> now.y is Finite && was.y
                is Finite && error::size(error::amount(now.y) - error::amount(was.y)) * z <= (
            1 as real + extent(view.pan.y, start.y, win.y, view.origin.y)) / 100000 as real
        }),
{
    view_laws::lemma_zoom_amount(view.zoom);
    if are_moderate(view.pan.x, start.x, win.x, view.origin.x) {
        lemma_held(view.pan.x, start.x, win.x, view.origin.x, view.zoom);
    }
    if are_moderate(view.pan.y, start.y, win.y, view.origin.y) {
        lemma_held(view.pan.y, start.y, win.y, view.origin.y, view.zoom);
    }
}

/// A drag that has ended, and a wheel that is turned, leave the rest of the view as it is: the
/// stroke, the direction of the last one, the pointer and the element. Pressing a button moves
/// nothing.
pub proof fn law_events_leave_the_rest(view: View2d, win: Place, turn: Num)
    ensures
        view.gripped(win).pan == view.pan,
        view.gripped(win).grip.held,
        view.gripped(win).grip.start == Some(win),
        view.gripped(win).grip.pan == view.pan,
        !view.released().grip.held,
        view.released().grip.start is None,
        view.released().pan == view.pan,
        forall|next: View2d|
            next == view.gripped(win) || next == view.released() ==> {
                &&& #[trigger] next.zoom == view.zoom
                &&& next.mid_grip == view.mid_grip
                &&& next.stroke == view.stroke
                &&& next.last_dir == view.last_dir
                &&& next.cursor == view.cursor
                &&& next.origin == view.origin
                &&& next.size == view.size
            },
        ({
            let next = view.scrolled(win, turn);
            &&& next.grip == view.grip
            &&& next.mid_grip == view.mid_grip
            &&& next.stroke == view.stroke
            &&& next.last_dir == view.last_dir
            &&& next.cursor == view.cursor
            &&& next.origin == view.origin
            &&& next.size == view.size
        }),
        view.moved(win).cursor == Some(win),
        view.moved(win).zoom == view.zoom,
        view.moved(win).grip == view.grip,
        view.moved(win).mid_grip == view.mid_grip,
        view.moved(win).last_dir == view.last_dir,
        view.moved(win).origin == view.origin,
        view.moved(win).size == view.size,
{
}

/// A stroke that is under the pointer goes on to where the pointer is on the canvas, and
/// stays at its layer; without one nothing is drawn.
pub proof fn law_move_draws_on(view: View2d, win: Place)
    requires
        !view.grip.held,
        !view.mid_grip.held,
    ensures
        view.stroke matches Some(stroke) ==> view.moved(win).stroke matches Some(next)
            && next.last == Some(stroke.segment_end(view.on_canvas(view.local(win))))
            && next.layer_id == stroke.layer_id && next.tiles == stroke.tiles && next
            == stroke.after_pointer(view.on_canvas(view.local(win))),
        view.stroke is None ==> view.moved(win).stroke is None,
{
}

/// A stroke that begins is on the layer given, at the place given, and one that is finished is
/// gone; the view keeps its direction and stays where it is.
pub proof fn law_strokes_begin_and_end(view: View2d, at: Place, layer_id: String, brush: Brush)
    ensures
        view.begun(at, Some(layer_id), brush).stroke matches Some(stroke) && stroke.last == Some(
            at,
        ) && stroke.layer_id == layer_id@ && stroke.dir == view.last_dir && stroke.brush_size
            == brush.size@,
        view.begun(at, Some(layer_id), brush).pan == view.pan,
        view.begun(at, Some(layer_id), brush).zoom == view.zoom,
        view.finished().stroke is None,
        view.finished().pan == view.pan,
        view.finished().zoom == view.zoom,
        view.stroke matches Some(stroke) ==> view.finished().last_dir == stroke.dir,
        view.stroke is None ==> view.finished() == view,
        view.finished().finished() == view.finished(),
{
}

/// The first view: the canvas begins 32 pixels from the corner, at its own size; nothing is
/// drawn or dragged, and the first stroke is turned to the right.
pub proof fn law_first_view()
    ensures
        ({
            let view = View2d::initial();
            &&& error::near(view.pan.x, 32 as real, 0 as real)
            &&& error::near(view.pan.y, 32 as real, 0 as real)
            &&& error::near(view.zoom, 1 as real, 0 as real)
            &&& error::near(view.last_dir.x, 1 as real, 0 as real)
            &&& error::near(view.last_dir.y, 0 as real, 0 as real)
            &&& !view.grip.held
            &&& !view.mid_grip.held
            &&& view.stroke is None
            &&& view.cursor is None
        }),
{
    formula_laws::law_constants();
    power2::lemma2_to64();
    rounding::lemma_pow2_split(154, 23, 131);
    rounding::lemma_pow2_split(154, 5, 149);
    error::lemma_whole_value(viewport::FIRST_PAN, 32, 0x80_0000, 131);
}

/// The radius of a brush on the screen is half its size times the zoom.
#[verifier::rlimit(40)]
pub proof fn law_ring_radius_is(view: View2d, brush_size: Num)
    requires
        Single::value(viewport::ZOOM_MIN).at_most(view.zoom),
        view.zoom.at_most(Single::value(viewport::ZOOM_MAX)),
        brush_size is Finite,
        brush_size.place() >= 0,
        error::amount(brush_size) <= error::large() / 1000 as real,
    ensures
        ({
            let exact = error::amount(brush_size) * error::amount(view.zoom) / 2 as real;
            error::near(
                view.radius_of(brush_size),
                exact,
                (1 as real + exact) / 1000000 as real,
            )
        }),
{
    view_laws::lemma_zoom_amount(view.zoom);
    power2::lemma2_to64();
    error::lemma_constant(stroke::HALF, 0x80_0000, 125, 24, 0x100_0000);
    error::lemma_large();
    error::lemma_order(brush_size, brush_size);
    let half = Single::value(stroke::HALF);
    let b = error::amount(brush_size);
    let z = error::amount(view.zoom);
    let h = error::amount(half);
    assert(h == 1 as real / 2 as real);
    assert(b * (1 as real / 2 as real) == b / 2 as real);
    error::lemma_times(brush_size, half);
    let r = brush_size.times(half);
    let a = error::amount(r);
    error::lemma_bounded_product(a, z, error::size(a), 32 as real);
    let sa = error::size(a);
    assert(sa * 32 as real == 32 as real * sa);
    error::lemma_times(r, view.zoom);
    let f = a - b / 2 as real;
    let e = error::slack(b / 2 as real);
    view_laws::lemma_scaled_size(f, e, z);
    assert((b / 2 as real + f) * z == b * z / 2 as real + f * z) by (nonlinear_arith);
    assert(a * z == b * z / 2 as real + f * z);
    assert((b / 33554432 as real + 1 as real / 281474976710656 as real) * z == (b * z)
        / 33554432 as real + z / 281474976710656 as real) by (nonlinear_arith);
    error::lemma_nonneg(b, z);
}

/// A drag that does not know where it began leaves the canvas where it is.
pub proof fn law_drag_without_a_start(view: View2d, win: Place)
    requires
        view.grip.held && view.grip.start is None || !view.grip.held && view.mid_grip.held
            && view.mid_grip.start is None,
    ensures
        view.moved(win).pan == view.pan,
{
}

/// A finished stroke that holds a tile is committed: to its own layer, and with every tile that
/// it holds, before and after. One that holds none changes nothing, and so does none.
pub proof fn law_finished_stroke_is_committed(
    stroke: Stroke,
    commit: Option<StrokeCommit>,
    key: (u32, u32),
)
    requires
        viewport::change_of(Some(stroke), commit),
    ensures
        stroke.tiles.dom().contains(key) ==> commit is Some,
        commit is None ==> forall|k: (u32, u32)| !#[trigger] stroke.tiles.dom().contains(k),
        commit matches Some(change) ==> {
            &&& change.layer_id@ == stroke.layer_id
            &&& stroke.tiles.dom().contains(key) ==> exists|i: int|
                0 <= i < change.tiles.len() && (#[trigger] change.tiles[i]).tx == key.0
                    && change.tiles[i].ty == key.1 && change.tiles[i].before@
                    == stroke.tiles[key].before && change.tiles[i].current@
                    == stroke.tiles[key].current
        },
        forall|other: Option<StrokeCommit>| #[trigger]
            viewport::change_of(None, other) ==> other is None,
{
    if let Some(change) = commit {
        tiles::law_list_is_whole(change.tiles@, stroke.tiles, key.0, key.1);
        if stroke.tiles.dom().contains(key) {
            let i = choose|i: int|
                0 <= i < change.tiles@.len() && (#[trigger] change.tiles@[i]).tx == key.0
                    && change.tiles@[i].ty == key.1;
            assert(change.tiles[i].tx == key.0);
        }
    }
}

/// The stamps that are owed once the pointer has come to a place are those of the segment from
/// where the stroke was last, and there are none if and only if that is too short.
pub proof fn law_owed_stamps_are_of_the_segment(stroke: Stroke, at: Place, run: Option<StampRun>)
    requires
        viewport::run_owed(Some(stroke), at, run),
    ensures
        run is None <==> stroke::is_negligible(stroke.segment_start(at), stroke.segment_end(at)),
        run matches Some(owed) ==> {
            &&& owed@.from == stroke.segment_start(at)
            &&& owed@.dist == stroke::segment_length(
                stroke.segment_start(at),
                stroke.segment_end(at),
            )
            &&& owed@ == stroke.run_over(stroke.segment_start(at), stroke.segment_end(at))
        },
        stroke.last is None ==> stroke.segment_start(at) == at,
        stroke.last matches Some(last) ==> stroke.segment_start(at) == last,
{
}

} // verus!
