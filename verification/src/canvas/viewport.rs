//! The view of the canvas: panning, zooming, and the stroke under the pointer.
//!
//! Pointer positions come in window coordinates. Local coordinates count from the
//! corner of the element that shows the canvas, and canvas coordinates from the
//! corner of the canvas, which panning moves and zooming scales.

use super::geometry::{Place, Point};
use super::renderer::CanvasRenderInput;
use super::stamping;
use super::stamping::{StampRun, StampSample};
use super::stroke;
use super::stroke::{ActiveStroke, ActiveTool, Brush, Stroke, StrokeCommit, TileStamp};
use super::stroke_laws;
use super::tiles;
use super::tiles::TileBuffers;
use crate::binary32::num::Num;
use crate::binary32::single;
use crate::binary32::single::Single;
use vstd::prelude::*;

verus! {

/// 0.05
pub const ZOOM_MIN: u32 = 0x3d4c_cccd;

/// 32.0
pub const ZOOM_MAX: u32 = 0x4200_0000;

/// 1.1
pub const ZOOM_IN: u32 = 0x3f8c_cccd;

/// 0.9
pub const ZOOM_OUT: u32 = 0x3f66_6666;

/// 32.0
pub const LINE_PIXELS: u32 = 0x4200_0000;

/// 32.0
pub const FIRST_PAN: u32 = 0x4200_0000;

/// 2.0
pub const LEAST_RING: u32 = 0x4000_0000;

/// 4.0
pub const CROSS_ARM: u32 = 0x4080_0000;

/// A drag of the canvas, as values.
pub struct Grip {
    /// Whether the button is held.
    pub held: bool,
    /// Where the pointer was when it was pressed.
    pub start: Option<Place>,
    /// The pan at that moment.
    pub pan: Place,
}

impl Grip {
    /// The pan once the pointer is at `win`, if the drag knows where it began.
    pub open spec fn dragged(self, pan: Place, win: Place) -> Place {
        match self.start {
            Some(start) => self.pan.offset(start.to(win)),
            None => pan,
        }
    }
}

/// The view, as values.
pub struct View2d {
    /// Where the corner of the canvas is, in local coordinates.
    pub pan: Place,
    pub zoom: Num,
    /// The drag with the right button, or with the left one under the pan tool.
    pub grip: Grip,
    /// The drag with the middle button.
    pub mid_grip: Grip,
    /// The stroke under the pointer.
    pub stroke: Option<Stroke>,
    /// The direction that the last stroke ended in.
    pub last_dir: Place,
    /// The pointer, in window coordinates.
    pub cursor: Option<Place>,
    /// The corner of the element, in window coordinates.
    pub origin: Place,
    /// The size of the element.
    pub size: Place,
}

impl View2d {
    /// The view before anything has happened.
    pub open spec fn initial() -> View2d {
        let zero = Single::value(stamping::ZERO);
        let corner = Place { x: zero, y: zero };
        let grip = Grip { held: false, start: None, pan: corner };
        View2d {
            pan: Place { x: Single::value(FIRST_PAN), y: Single::value(FIRST_PAN) },
            zoom: Single::value(stamping::ONE),
            grip,
            mid_grip: grip,
            stroke: None,
            last_dir: Place { x: Single::value(stamping::ONE), y: zero },
            cursor: None,
            origin: corner,
            size: corner,
        }
    }

    /// Window coordinates in local ones.
    pub open spec fn local(self, win: Place) -> Place {
        self.origin.to(win)
    }

    /// Local coordinates in canvas ones.
    pub open spec fn on_canvas(self, local: Place) -> Place {
        self.pan.to(local).shrunk(self.zoom)
    }

    /// The radius of a brush on the screen.
    pub open spec fn radius_of(self, brush_size: Num) -> Num {
        brush_size.times(Single::value(stroke::HALF)).times(self.zoom)
    }

    /// The view once a drag has begun at `win`.
    pub open spec fn gripped(self, win: Place) -> View2d {
        View2d { grip: Grip { held: true, start: Some(win), pan: self.pan }, ..self }
    }

    /// The view once the drag has ended.
    pub open spec fn released(self) -> View2d {
        View2d { grip: Grip { held: false, start: None, pan: self.grip.pan }, ..self }
    }

    /// The view once a stroke has begun at `at`. Without a layer to draw on none
    /// begins.
    pub open spec fn begun(self, at: Place, layer: Option<String>, brush: Brush) -> View2d {
        match layer {
            Some(layer_id) => View2d {
                stroke: Some(brush.begun(at, self.last_dir, layer_id@)),
                ..self
            },
            None => self,
        }
    }

    /// The view once the stroke has been drawn on to `at`.
    pub open spec fn continued(self, at: Place) -> View2d {
        match self.stroke {
            Some(stroke) => View2d { stroke: Some(stroke.after_pointer(at)), ..self },
            None => self,
        }
    }

    /// The view once the stroke is finished: its direction stays for the next one.
    pub open spec fn finished(self) -> View2d {
        match self.stroke {
            Some(stroke) => View2d { stroke: None, last_dir: stroke.dir, ..self },
            None => self,
        }
    }

    /// The view once the pointer has moved to `win`: a drag moves the canvas, and
    /// without one a stroke goes on.
    pub open spec fn moved(self, win: Place) -> View2d {
        let view = View2d { cursor: Some(win), ..self };
        if self.grip.held {
            View2d { pan: self.grip.dragged(self.pan, win), ..view }
        } else if self.mid_grip.held {
            View2d { pan: self.mid_grip.dragged(self.pan, win), ..view }
        } else {
            view.continued(self.on_canvas(self.local(win)))
        }
    }

    /// The zoom after the wheel has been turned by `turn`: away from the user zooms
    /// in, towards the user zooms out.
    pub open spec fn zoom_after(self, turn: Num) -> Num {
        let factor = if turn.below(Single::value(stamping::ZERO)) {
            Single::value(ZOOM_IN)
        } else {
            Single::value(ZOOM_OUT)
        };
        self.zoom.times(factor).clamped(Single::value(ZOOM_MIN), Single::value(ZOOM_MAX))
    }

    /// The view after the wheel has been turned with the pointer at `win`. The pan
    /// puts the point of the canvas under the pointer back there.
    pub open spec fn scrolled(self, win: Place, turn: Num) -> View2d {
        let local = self.local(win);
        let focus = self.on_canvas(local);
        let zoom = self.zoom_after(turn);
        View2d {
            zoom,
            pan: Place {
                x: local.x.minus(focus.x.times(zoom)),
                y: local.y.minus(focus.y.times(zoom)),
            },
            ..self
        }
    }
}

/// How far a wheel was turned.
#[derive(Clone, Copy, Debug)]
pub enum ScrollDelta {
    /// In pixels.
    Pixels(Single),
    /// In lines of text.
    Lines(Single),
}

impl ScrollDelta {
    /// The turn in pixels.
    pub open spec fn turn(self) -> Num {
        match self {
            ScrollDelta::Pixels(y) => y@,
            ScrollDelta::Lines(y) => y@.times(Single::value(LINE_PIXELS)),
        }
    }
}

/// What is drawn of the pointer, in window coordinates.
#[derive(Clone, Copy, Debug)]
pub struct CursorOverlay {
    pub center: Point,
    /// The radius of the ring.
    pub radius: Single,
    /// Whether a stroke is being drawn.
    pub painting: bool,
    /// The ends of the cross.
    pub left: Point,
    pub right: Point,
    pub top: Point,
    pub bottom: Point,
}

/// The view of the canvas.
pub struct CanvasViewport {
    pan: Point,
    zoom: Single,
    is_panning: bool,
    pan_win_start: Option<Point>,
    pan_offset_at_start: Point,
    is_mid_panning: bool,
    mid_win_start: Option<Point>,
    mid_offset_at_start: Point,
    active_stroke: Option<ActiveStroke>,
    last_dir: Point,
    cursor_win: Option<Point>,
    element_origin: Point,
    element_size: Point,
}

/// A point that may be missing, as numbers.
pub open spec fn maybe(point: Option<Point>) -> Option<Place> {
    match point {
        Some(p) => Some(p@),
        None => None,
    }
}

impl View for CanvasViewport {
    type V = View2d;

    closed spec fn view(&self) -> View2d {
        View2d {
            pan: self.pan@,
            zoom: self.zoom@,
            grip: Grip {
                held: self.is_panning,
                start: maybe(self.pan_win_start),
                pan: self.pan_offset_at_start@,
            },
            mid_grip: Grip {
                held: self.is_mid_panning,
                start: maybe(self.mid_win_start),
                pan: self.mid_offset_at_start@,
            },
            stroke: match self.active_stroke {
                Some(stroke) => Some(stroke@),
                None => None,
            },
            last_dir: self.last_dir@,
            cursor: maybe(self.cursor_win),
            origin: self.element_origin@,
            size: self.element_size@,
        }
    }
}

impl CanvasViewport {
    /// The stroke is in order, and the zoom is within its bounds.
    pub closed spec fn wf(self) -> bool {
        &&& self.active_stroke matches Some(stroke) ==> stroke.wf()
        &&& Single::value(ZOOM_MIN).at_most(self.zoom@)
        &&& self.zoom@.at_most(Single::value(ZOOM_MAX))
    }

    /// The view before anything has happened.
    pub fn new() -> (r: CanvasViewport)
        ensures
            r.wf(),
            r@ == View2d::initial(),
    {
        proof {
            single::lemma_value_order(ZOOM_MIN, stamping::ONE);
            single::lemma_value_order(stamping::ONE, ZOOM_MAX);
        }
        let zero: Single = Single { bits: stamping::ZERO };
        let corner = Point { x: zero, y: zero };
        let first: Single = Single { bits: FIRST_PAN };
        CanvasViewport {
            pan: Point { x: first, y: first },
            zoom: Single { bits: stamping::ONE },
            is_panning: false,
            pan_win_start: None,
            pan_offset_at_start: corner,
            is_mid_panning: false,
            mid_win_start: None,
            mid_offset_at_start: corner,
            active_stroke: None,
            last_dir: Point { x: Single { bits: stamping::ONE }, y: zero },
            cursor_win: None,
            element_origin: corner,
            element_size: corner,
        }
    }

    /// Takes note of where the element stands and how large it is.
    pub fn set_layout(&mut self, origin: Point, size: Point)
        requires
            old(self).wf(),
        ensures
            final(self).wf(),
            final(self)@ == (View2d { origin: origin@, size: size@, ..old(self)@ }),
    {
        self.element_origin = origin;
        self.element_size = size;
    }

    /// Window coordinates in local ones.
    pub fn to_local(&self, win: Point) -> (r: Point)
        ensures
            r@ == self@.local(win@),
    {
        self.element_origin.to(win)
    }

    /// Local coordinates in canvas ones.
    pub fn canvas_of_local(&self, local: Point) -> (r: Point)
        ensures
            r@ == self@.on_canvas(local@),
    {
        self.pan.to(local).shrunk(self.zoom)
    }

    /// Begins a stroke, and says where its first stamp is put. Without a layer to
    /// draw on none begins.
    pub fn start_stroke(&mut self, canvas_pos: Point, layer: Option<String>, brush: &Brush) -> (r:
        Option<StampSample>)
        requires
            old(self).wf(),
        ensures
            final(self).wf(),
            final(self)@ == old(self)@.begun(canvas_pos@, layer, *brush),
            match r {
                Some(sample) => layer is Some && sample@ == (final(self)@.stroke->0).seed(
                    canvas_pos@,
                ),
                None => layer is None,
            },
    {
        match layer {
            None => None,
            Some(layer_id) => {
                let stroke = ActiveStroke::begin(canvas_pos, self.last_dir, layer_id, brush);
                let seed: StampSample = stroke.seed(canvas_pos);
                self.active_stroke = Some(stroke);
                Some(seed)
            },
        }
    }

    /// Draws the stroke on to a point of the canvas, and says which stamps are owed.
    pub fn continue_stroke(&mut self, canvas_pos: Point) -> (r: Option<StampRun>)
        requires
            old(self).wf(),
        ensures
            final(self).wf(),
            final(self)@ == old(self)@.continued(canvas_pos@),
            run_owed(old(self)@.stroke, canvas_pos@, r),
    {
        match self.active_stroke.take() {
            None => None,
            Some(mut stroke) => {
                let run = stroke.continue_stroke(canvas_pos);
                self.active_stroke = Some(stroke);
                run
            },
        }
    }

    /// Ends the stroke, and says what it changes.
    pub fn finish_stroke(&mut self) -> (r: Option<StrokeCommit>)
        requires
            old(self).wf(),
        ensures
            final(self).wf(),
            final(self)@ == old(self)@.finished(),
            change_of(old(self)@.stroke, r),
    {
        match self.active_stroke.take() {
            None => None,
            Some(stroke) => {
                self.last_dir = stroke.direction();
                stroke.into_commit()
            },
        }
    }

    /// The right button goes down: the canvas is dragged.
    pub fn press_right(&mut self, win: Point)
        requires
            old(self).wf(),
        ensures
            final(self).wf(),
            final(self)@ == old(self)@.gripped(win@),
    {
        self.is_panning = true;
        self.pan_win_start = Some(win);
        self.pan_offset_at_start = self.pan;
    }

    /// The right button goes up.
    pub fn release_right(&mut self)
        requires
            old(self).wf(),
        ensures
            final(self).wf(),
            final(self)@ == old(self)@.released(),
    {
        self.is_panning = false;
        self.pan_win_start = None;
    }

    /// The middle button goes down: the canvas is dragged.
    pub fn press_middle(&mut self, win: Point)
        requires
            old(self).wf(),
        ensures
            final(self).wf(),
            final(self)@ == (View2d {
                mid_grip: Grip { held: true, start: Some(win@), pan: old(self)@.pan },
                ..old(self)@
            }),
    {
        self.is_mid_panning = true;
        self.mid_win_start = Some(win);
        self.mid_offset_at_start = self.pan;
    }

    /// The middle button goes up.
    pub fn release_middle(&mut self)
        requires
            old(self).wf(),
        ensures
            final(self).wf(),
            final(self)@ == (View2d {
                mid_grip: Grip { held: false, start: None, pan: old(self)@.mid_grip.pan },
                ..old(self)@
            }),
    {
        self.is_mid_panning = false;
        self.mid_win_start = None;
    }

    /// The left button goes down: the pan tool drags the canvas, the brush and the
    /// eraser begin a stroke, and the other tools do nothing.
    pub fn press_left(&mut self, win: Point, layer: Option<String>, brush: &Brush) -> (r: Option<
        StampSample,
    >)
        requires
            old(self).wf(),
        ensures
            final(self).wf(),
            ({
                let at = old(self)@.on_canvas(old(self)@.local(win@));
                match brush.tool {
                    ActiveTool::Pan => r is None && final(self)@ == old(self)@.gripped(win@),
                    ActiveTool::Paint | ActiveTool::Erase => {
                        &&& final(self)@ == old(self)@.begun(at, layer, *brush)
                        &&& match r {
                            Some(sample) => layer is Some && sample@ == (
                            final(self)@.stroke->0).seed(at),
                            None => layer is None,
                        }
                    },
                    _ => r is None && final(self)@ == old(self)@,
                }
            }),
    {
        match brush.tool {
            ActiveTool::Pan => {
                self.is_panning = true;
                self.pan_win_start = Some(win);
                self.pan_offset_at_start = self.pan;
                None
            },
            ActiveTool::Paint | ActiveTool::Erase => {
                let local: Point = self.to_local(win);
                let canvas_pos: Point = self.canvas_of_local(local);
                self.start_stroke(canvas_pos, layer, brush)
            },
            _ => None,
        }
    }

    /// The left button goes up: the stroke ends, and so does a drag.
    pub fn release_left(&mut self) -> (r: Option<StrokeCommit>)
        requires
            old(self).wf(),
        ensures
            final(self).wf(),
            final(self)@ == old(self)@.finished().released(),
            change_of(old(self)@.stroke, r),
    {
        let commit = self.finish_stroke();
        self.is_panning = false;
        self.pan_win_start = None;
        commit
    }

    /// The pointer moves.
    pub fn move_to(&mut self, win: Point) -> (r: Option<StampRun>)
        requires
            old(self).wf(),
        ensures
            final(self).wf(),
            final(self)@ == old(self)@.moved(win@),
            if old(self)@.grip.held || old(self)@.mid_grip.held {
                r is None
            } else {
                run_owed(old(self)@.stroke, old(self)@.on_canvas(old(self)@.local(win@)), r)
            },
    {
        self.cursor_win = Some(win);
        if self.is_panning {
            if let Some(start) = self.pan_win_start {
                self.pan = self.pan_offset_at_start.offset(start.to(win));
            }
            None
        } else if self.is_mid_panning {
            if let Some(start) = self.mid_win_start {
                self.pan = self.mid_offset_at_start.offset(start.to(win));
            }
            None
        } else {
            let local: Point = self.to_local(win);
            let canvas_pos: Point = self.canvas_of_local(local);
            self.continue_stroke(canvas_pos)
        }
    }

    /// The wheel is turned: the canvas is zoomed around the pointer.
    pub fn scroll(&mut self, win: Point, delta: ScrollDelta)
        requires
            old(self).wf(),
        ensures
            final(self).wf(),
            final(self)@ == old(self)@.scrolled(win@, delta.turn()),
    {
        let local: Point = self.to_local(win);
        let focus: Point = self.canvas_of_local(local);
        let turn: Single = match delta {
            ScrollDelta::Pixels(y) => y,
            ScrollDelta::Lines(y) => y.mul(Single { bits: LINE_PIXELS }),
        };
        let factor: Single = if turn.lt(Single { bits: stamping::ZERO }) {
            Single { bits: ZOOM_IN }
        } else {
            Single { bits: ZOOM_OUT }
        };
        proof {
            single::lemma_value_order(ZOOM_MIN, ZOOM_MAX);
            single::lemma_value_order(ZOOM_OUT, ZOOM_IN);
            lemma_zoom_bounds(self.zoom@, factor@);
        }
        let zoom: Single = self.zoom.mul(factor).clamp(
            Single { bits: ZOOM_MIN },
            Single { bits: ZOOM_MAX },
        );
        self.pan = Point {
            x: local.x.sub(focus.x.mul(zoom)),
            y: local.y.sub(focus.y.mul(zoom)),
        };
        self.zoom = zoom;
    }

    /// The stroke under the pointer.
    pub fn stroke(&self) -> (r: Option<&ActiveStroke>)
        requires
            self.wf(),
        ensures
            match r {
                Some(stroke) => stroke.wf() && self@.stroke == Some(stroke@),
                None => self@.stroke is None,
            },
    {
        match &self.active_stroke {
            Some(stroke) => Some(stroke),
            None => None,
        }
    }

    /// What a frame is drawn of.
    pub fn render_input(
        &self,
        canvas_w: u32,
        canvas_h: u32,
        brush_size: Single,
        brush_color: [Single; 4],
    ) -> (r: CanvasRenderInput)
        ensures
            r.pan_offset@ == self@.pan,
            r.zoom@ == self@.zoom,
            r.canvas_size@ == (Place {
                x: Num::of_nat(canvas_w as nat),
                y: Num::of_nat(canvas_h as nat),
            }),
            r.viewport_size@ == self@.size,
            maybe(r.cursor_screen_pos) == match self@.cursor {
                Some(win) => Some(self@.local(win)),
                None => None,
            },
            r.brush_radius@ == self@.radius_of(brush_size@),
            r.brush_color == brush_color,
    {
        let cursor: Option<Point> = match self.cursor_win {
            Some(win) => Some(self.to_local(win)),
            None => None,
        };
        CanvasRenderInput {
            pan_offset: self.pan,
            zoom: self.zoom,
            canvas_size: Point { x: Single::from_u32(canvas_w), y: Single::from_u32(canvas_h) },
            viewport_size: self.element_size,
            cursor_screen_pos: cursor,
            brush_radius: brush_size.mul(Single { bits: stroke::HALF }).mul(self.zoom),
            brush_color,
        }
    }

    /// What is drawn of the pointer, if it has been seen: a ring of the size of the
    /// brush, but never too small, and a cross in its middle.
    pub fn cursor_overlay(&self, brush_size: Single) -> (r: Option<CursorOverlay>)
        ensures
            match r {
                Some(overlay) => {
                    &&& self@.cursor == Some(overlay.center@)
                    &&& overlay.radius@ == self@.radius_of(brush_size@).greater(
                        Single::value(LEAST_RING),
                    )
                    &&& overlay.painting == (self@.stroke is Some)
                    &&& overlay.left@ == (Place {
                        x: overlay.center.x@.minus(Single::value(CROSS_ARM)),
                        y: overlay.center.y@,
                    })
                    &&& overlay.right@ == (Place {
                        x: overlay.center.x@.plus(Single::value(CROSS_ARM)),
                        y: overlay.center.y@,
                    })
                    &&& overlay.top@ == (Place {
                        x: overlay.center.x@,
                        y: overlay.center.y@.minus(Single::value(CROSS_ARM)),
                    })
                    &&& overlay.bottom@ == (Place {
                        x: overlay.center.x@,
                        y: overlay.center.y@.plus(Single::value(CROSS_ARM)),
                    })
                },
                None => self@.cursor is None,
            },
    {
        match self.cursor_win {
            None => None,
            Some(center) => {
                let arm: Single = Single { bits: CROSS_ARM };
                let radius: Single = brush_size.mul(Single { bits: stroke::HALF }).mul(
                    self.zoom,
                ).max(Single { bits: LEAST_RING });
                Some(
                    CursorOverlay {
                        center,
                        radius,
                        painting: self.active_stroke.is_some(),
                        left: Point { x: center.x.sub(arm), y: center.y },
                        right: Point { x: center.x.add(arm), y: center.y },
                        top: Point { x: center.x, y: center.y.sub(arm) },
                        bottom: Point { x: center.x, y: center.y.add(arm) },
                    },
                )
            },
        }
    }

    /// Puts a stamp into the stroke under the pointer.
    pub fn stamp_sample(&mut self, sample: &StampSample, stamps: Vec<TileStamp>)
        requires
            old(self).wf(),
            old(self)@.stroke matches Some(stroke) ==> stroke.takes_stamp(
                stroke::covered(sample.pos@, stroke.brush_size),
                stamps@,
            ),
        ensures
            final(self).wf(),
            final(self)@ == (View2d {
                stroke: match old(self)@.stroke {
                    Some(stroke) => Some(
                        stroke.stamped(
                            stroke::covered(sample.pos@, stroke.brush_size),
                            stamps@,
                        ),
                    ),
                    None => None,
                },
                ..old(self)@
            }),
    {
        match self.active_stroke.take() {
            None => {},
            Some(mut stroke) => {
                stroke.stamp_sample(sample, stamps);
                self.active_stroke = Some(stroke);
            },
        }
    }
}

/// Whether a run is what a stroke owes once the pointer has come to `at`.
pub open spec fn run_owed(stroke: Option<Stroke>, at: Place, run: Option<StampRun>) -> bool {
    match stroke {
        None => run is None,
        Some(stroke) => {
            let from = stroke.segment_start(at);
            let to = stroke.segment_end(at);
            match run {
                Some(run) => !stroke::is_negligible(from, to) && run@ == stroke.run_over(from, to),
                None => stroke::is_negligible(from, to),
            }
        },
    }
}

/// Whether a change is what a finished stroke leaves.
pub open spec fn change_of(stroke: Option<Stroke>, commit: Option<StrokeCommit>) -> bool {
    match stroke {
        None => commit is None,
        Some(stroke) => match commit {
            Some(commit) => {
                &&& stroke.tiles != Map::<(u32, u32), TileBuffers>::empty()
                &&& commit.layer_id@ == stroke.layer_id
                &&& tiles::listing(commit.tiles@, stroke.tiles)
            },
            None => stroke.tiles == Map::<(u32, u32), TileBuffers>::empty(),
        },
    }
}

/// A zoom within its bounds stays there.
pub proof fn lemma_zoom_bounds(zoom: Num, factor: Num)
    requires
        Single::value(ZOOM_MIN).at_most(zoom),
        zoom.at_most(Single::value(ZOOM_MAX)),
        factor is Finite,
    ensures
        ({
            let next = zoom.times(factor).clamped(
                Single::value(ZOOM_MIN),
                Single::value(ZOOM_MAX),
            );
            &&& Single::value(ZOOM_MIN).at_most(next)
            &&& next.at_most(Single::value(ZOOM_MAX))
        }),
{
    reveal(Num::times);
    single::lemma_value_order(ZOOM_MIN, ZOOM_MAX);
    assert(zoom is Finite);
}

impl CanvasViewport {
    /// The zoom never leaves its bounds.
    pub proof fn law_zoom_in_bounds(self)
        requires
            self.wf(),
        ensures
            Single::value(ZOOM_MIN).at_most(self@.zoom),
            self@.zoom.at_most(Single::value(ZOOM_MAX)),
    {
    }

    /// A stroke under the pointer is in order.
    pub proof fn law_stroke_in_order(self)
        requires
            self.wf(),
        ensures
            self@.stroke matches Some(stroke) ==> stroke_laws::in_order(stroke),
    {
        if let Some(stroke) = self.active_stroke {
            stroke.law_in_order();
        }
    }

    /// A press of the button without a move leaves the canvas where it is.
    pub proof fn law_press_stays(self, win: Point)
        requires
            self@.pan.x is Finite,
            self@.pan.y is Finite,
            win.x@ is Finite,
            win.y@ is Finite,
        ensures
            self@.gripped(win@).moved(win@).pan.x.place() == self@.pan.x.place(),
            self@.gripped(win@).moved(win@).pan.y.place() == self@.pan.y.place(),
    {
        reveal(Num::plus);
        single::lemma_exact(self.pan.x);
        single::lemma_exact(self.pan.y);
    }
}

/// A point that is there is there as numbers too, and one that is missing is missing.
pub proof fn law_maybe_a_point(point: Point)
    ensures
        maybe(Some(point)) matches Some(place) && place.x == point.x@ && place.y == point.y@,
        maybe(None) is None,
{
}

} // verus!
