//! A stroke of the brush or of the eraser.

use super::blend;
use super::geometry::{Place, Point};
use super::stamping;
use super::stamping::{Run, Stamp, StampRun, StampSample};
use super::stroke_laws;
use super::tiles;
use super::tiles::{StrokeTile, StrokeTiles, TileBuffers, TILE_SIZE};
use crate::binary32::num::Num;
use crate::binary32::single;
use crate::binary32::single::Single;
use std::collections::VecDeque;
use vstd::prelude::*;

verus! {

/// 0.01
pub const LEAST_FLOW: u32 = 0x3c23_d70a;

/// 0.05
pub const LEAST_SPACING: u32 = 0x3d4c_cccd;

/// 0.20
pub const PLAIN_SPACING: u32 = 0x3e4c_cccd;

/// 0.75
pub const MOST_SPACING: u32 = 0x3f40_0000;

/// 0.20
pub const LEAST_FOLLOW: u32 = 0x3e4c_cccd;

/// 0.25
pub const FOLLOW_GAIN: u32 = 0x3e80_0000;

/// 0.40
pub const MOST_FOLLOW_GAIN: u32 = 0x3ecc_cccd;

/// 0.60
pub const MOST_FOLLOW: u32 = 0x3f19_999a;

/// 0.5
pub const HALF: u32 = 0x3f00_0000;

/// A stroke, as values.
pub struct Stroke {
    /// Red, green, blue and alpha of the paint.
    pub color: Seq<u8>,
    pub brush_size: Num,
    pub brush_opacity: Num,
    /// Whether the stroke erases.
    pub eraser: bool,
    /// The layer that the stroke is on.
    pub layer_id: Seq<char>,
    /// The spacing of the stamps as a share of the brush size.
    pub spacing: Num,
    /// The smoothed unit direction.
    pub dir: Place,
    /// The recent positions.
    pub window: Seq<Place>,
    /// The tiles touched.
    pub tiles: Map<(u32, u32), TileBuffers>,
    /// The last position.
    pub last: Option<Place>,
    /// The smoothed speed.
    pub speed: Num,
    /// The way since the last stamp.
    pub carry: Num,
}

/// What the length of a segment is.
pub open spec fn segment_length(from: Place, to: Place) -> Num {
    from.to(to).length()
}

/// Whether a segment is too short to be drawn.
pub open spec fn is_negligible(from: Place, to: Place) -> bool {
    segment_length(from, to).below(Single::value(stamping::LEAST_SEGMENT))
}

/// The unit direction of a segment.
pub open spec fn segment_heading(from: Place, to: Place) -> Place {
    from.to(to).shrunk(segment_length(from, to))
}

impl Stroke {
    /// The speed that a segment is drawn at.
    pub open spec fn speed_over(self, from: Place, to: Place) -> Num {
        stamping::smoothed_speed(self.speed, self.brush_size, segment_length(from, to))
    }

    /// The distance of two stamps on a segment.
    pub open spec fn step_over(self, from: Place, to: Place) -> Num {
        stamping::step_of(
            self.brush_size,
            self.spacing,
            self.speed_over(from, to).greater(Single::value(stamping::ZERO)),
        )
    }

    /// The direction of the stroke on a segment.
    pub open spec fn dir_over(self, from: Place, to: Place) -> Place {
        stamping::turned(
            self.dir,
            stamping::pushed(self.window, to),
            segment_length(from, to),
            segment_heading(from, to),
        )
    }

    /// The stamps that a segment owes.
    pub open spec fn run_over(self, from: Place, to: Place) -> Run {
        let step = self.step_over(from, to);
        let speed = self.speed_over(from, to).greater(Single::value(stamping::ZERO));
        Run {
            from,
            heading: segment_heading(from, to),
            dist: segment_length(from, to),
            offset: stamping::first_offset(stamping::carried(self.carry, step), step),
            step,
            dir: self.dir_over(from, to),
            axis_scale: stamping::axis_scale_of(self.brush_size, speed),
            flow_scale: stamping::flow_scale_of(speed),
        }
    }

    /// The stroke after a segment. A negligible one leaves it as it is.
    pub open spec fn after_segment(self, from: Place, to: Place) -> Stroke {
        let step = self.step_over(from, to);
        if is_negligible(from, to) {
            self
        } else {
            Stroke {
                window: stamping::pushed(self.window, to),
                dir: self.dir_over(from, to),
                speed: self.speed_over(from, to),
                carry: stamping::carry_after(
                    stamping::carried(self.carry, step),
                    segment_length(from, to),
                    step,
                ),
                ..self
            }
        }
    }

    /// How closely the stroke follows the pointer: the faster, the closer.
    pub open spec fn follow(self) -> Num {
        Single::value(LEAST_FOLLOW).plus(
            self.speed.times(Single::value(FOLLOW_GAIN)).clamped(
                Single::value(stamping::ZERO),
                Single::value(MOST_FOLLOW_GAIN),
            ),
        ).clamped(Single::value(LEAST_FOLLOW), Single::value(MOST_FOLLOW))
    }

    /// Where the stroke goes on from when the pointer comes to `pointer`.
    pub open spec fn segment_start(self, pointer: Place) -> Place {
        match self.last {
            Some(last) => last,
            None => pointer,
        }
    }

    /// Where the stroke goes when the pointer comes to `pointer`: a part of the way
    /// there.
    pub open spec fn segment_end(self, pointer: Place) -> Place {
        let from = self.segment_start(pointer);
        from.along(from.to(pointer), self.follow())
    }

    /// The stroke after the pointer has come to `pointer`.
    pub open spec fn after_pointer(self, pointer: Place) -> Stroke {
        let from = self.segment_start(pointer);
        let to = self.segment_end(pointer);
        Stroke { last: Some(to), ..self.after_segment(from, to) }
    }

    /// The first stamp of a stroke.
    pub open spec fn seed(self, at: Place) -> Stamp {
        Stamp {
            pos: at,
            dir: self.dir,
            axis_scale: Single::value(stamping::ONE),
            flow_scale: Single::value(stamping::ONE),
        }
    }
}

/// A stroke that is being drawn.
pub struct ActiveStroke {
    color: [u8; 4],
    brush_size: Single,
    brush_opacity: Single,
    is_eraser: bool,
    layer_id: String,
    brush_spacing: Single,
    dir: Point,
    pos_buffer: VecDeque<Point>,
    tiles: StrokeTiles,
    last_pos: Option<Point>,
    speed_ema: Single,
    stamp_carry: Single,
}

impl View for ActiveStroke {
    type V = Stroke;

    closed spec fn view(&self) -> Stroke {
        Stroke {
            color: self.color@,
            brush_size: self.brush_size@,
            brush_opacity: self.brush_opacity@,
            eraser: self.is_eraser,
            layer_id: self.layer_id@,
            spacing: self.brush_spacing@,
            dir: self.dir@,
            window: stamping::places(self.pos_buffer@),
            tiles: self.tiles.map(),
            last: match self.last_pos {
                Some(p) => Some(p@),
                None => None,
            },
            speed: self.speed_ema@,
            carry: self.stamp_carry@,
        }
    }
}

impl ActiveStroke {
    /// At most twelve recent positions are kept, and the tiles are in order.
    pub closed spec fn wf(self) -> bool {
        &&& self.tiles.wf()
        &&& self.tiles.erases() == self.is_eraser
        &&& self.pos_buffer.len() <= stamping::DIR_WINDOW
    }

    /// Draws a segment: takes its end into the recent positions, turns the stroke,
    /// and says which stamps are owed. A negligible segment owes none.
    pub fn stamp_segment(&mut self, from: Point, to: Point) -> (r: Option<StampRun>)
        requires
            old(self).wf(),
        ensures
            final(self).wf(),
            final(self)@ == old(self)@.after_segment(from@, to@),
            match r {
                Some(run) => !is_negligible(from@, to@) && run@ == old(self)@.run_over(
                    from@,
                    to@,
                ),
                None => is_negligible(from@, to@),
            },
    {
        let way: Point = from.to(to);
        let dist: Single = way.length();
        if dist.lt(Single { bits: stamping::LEAST_SEGMENT }) {
            return None;
        }
        let heading: Point = way.shrunk(dist);
        let ghost window = self.pos_buffer@;
        if self.pos_buffer.len() >= stamping::DIR_WINDOW {
            let _ = self.pos_buffer.pop_front();
        }
        self.pos_buffer.push_back(to);
        proof {
            assert(stamping::places(self.pos_buffer@) =~= stamping::pushed(
                stamping::places(window),
                to@,
            ));
        }
        self.dir = stamping::turn(self.dir, &self.pos_buffer, dist, heading);
        self.speed_ema = stamping::smooth_speed(self.speed_ema, self.brush_size, dist);
        let speed: Single = self.speed_ema.max(Single { bits: stamping::ZERO });
        let step: Single = stamping::step_at(self.brush_size, self.brush_spacing, speed);
        let carry: Single = stamping::carry_for(self.stamp_carry, step);
        let run = StampRun {
            from,
            heading,
            dist,
            offset: stamping::offset_for(carry, step),
            step,
            dir: self.dir,
            axis_scale: stamping::axis_scale_at(self.brush_size, speed),
            flow_scale: stamping::flow_scale_at(speed),
        };
        self.stamp_carry = stamping::carry_past(carry, dist, step);
        Some(run)
    }

    /// Draws on towards the pointer.
    pub fn continue_stroke(&mut self, pointer: Point) -> (r: Option<StampRun>)
        requires
            old(self).wf(),
        ensures
            final(self).wf(),
            final(self)@ == old(self)@.after_pointer(pointer@),
            ({
                let from = old(self)@.segment_start(pointer@);
                let to = old(self)@.segment_end(pointer@);
                match r {
                    Some(run) => !is_negligible(from, to) && run@ == old(self)@.run_over(from, to),
                    None => is_negligible(from, to),
                }
            }),
    {
        let from: Point = match self.last_pos {
            Some(last) => last,
            None => pointer,
        };
        let least: Single = Single { bits: LEAST_FOLLOW };
        proof {
            single::lemma_value_order(stamping::ZERO, MOST_FOLLOW_GAIN);
            single::lemma_value_order(LEAST_FOLLOW, MOST_FOLLOW);
        }
        let follow: Single = least.add(
            self.speed_ema.mul(Single { bits: FOLLOW_GAIN }).clamp(
                Single { bits: stamping::ZERO },
                Single { bits: MOST_FOLLOW_GAIN },
            ),
        ).clamp(least, Single { bits: MOST_FOLLOW });
        let to: Point = from.along(from.to(pointer), follow);
        let run = self.stamp_segment(from, to);
        self.last_pos = Some(to);
        run
    }

    /// A stroke that begins at `at`, on the layer and with the brush given, turned as
    /// `dir` says. Erasing takes no colour.
    pub fn begin(at: Point, dir: Point, layer_id: String, brush: &Brush) -> (r: ActiveStroke)
        ensures
            r.wf(),
            r@ == brush.begun(at@, dir@, layer_id@),
    {
        let is_eraser: bool = match brush.tool {
            ActiveTool::Erase => true,
            _ => false,
        };
        let color: [u8; 4] = if is_eraser {
            [0, 0, 0, 0]
        } else {
            brush.foreground
        };
        let brush_spacing: Single = match brush.spacing {
            Some(spacing) => {
                proof {
                    single::lemma_value_order(LEAST_SPACING, MOST_SPACING);
                }
                spacing.clamp(Single { bits: LEAST_SPACING }, Single { bits: MOST_SPACING })
            },
            None => Single { bits: PLAIN_SPACING },
        };
        let r = ActiveStroke {
            color,
            brush_size: brush.size,
            brush_opacity: brush.opacity,
            is_eraser,
            layer_id,
            brush_spacing,
            dir,
            pos_buffer: VecDeque::with_capacity(stamping::DIR_WINDOW),
            tiles: StrokeTiles::new(is_eraser),
            last_pos: Some(at),
            speed_ema: Single { bits: stamping::ZERO },
            stamp_carry: Single { bits: stamping::ZERO },
        };
        proof {
            assert(r@.window =~= Seq::<Place>::empty());
            assert(r@.color =~= brush.begun(at@, dir@, layer_id@).color);
        }
        r
    }

    /// The first stamp of a stroke.
    pub fn seed(&self, at: Point) -> (r: StampSample)
        ensures
            r@ == self@.seed(at@),
    {
        let one: Single = Single { bits: stamping::ONE };
        StampSample { pos: at, dir: self.dir, axis_scale: one, flow_scale: one }
    }

    /// The tiles that a stamp may touch.
    pub fn stamp_tiles(&self, sample: &StampSample) -> (r: TileRange)
        ensures
            r.wf(),
            r == covered(sample.pos@, self@.brush_size),
    {
        let radius: Single = self.brush_size.mul(Single { bits: HALF });
        let zero: Single = Single { bits: stamping::ZERO };
        let min_x: u32 = sample.pos.x.sub(radius).floor().max(zero).to_u32();
        let min_y: u32 = sample.pos.y.sub(radius).floor().max(zero).to_u32();
        let max_x: u32 = sample.pos.x.add(radius).ceil().to_u32();
        let max_y: u32 = sample.pos.y.add(radius).ceil().to_u32();
        TileRange {
            min_tx: min_x / TILE_SIZE,
            max_tx: max_x / TILE_SIZE,
            min_ty: min_y / TILE_SIZE,
            max_ty: max_y / TILE_SIZE,
        }
    }

    /// How a stamp is put into a tile.
    pub fn stamp_params(&self, sample: &StampSample, tx: u32, ty: u32) -> (r: StampParams)
        requires
            tx <= 0xff_ffff,
            ty <= 0xff_ffff,
        ensures
            r.pos == sample.pos,
            r.dir == sample.dir,
            r.size@ == self@.brush_size,
            r.axis_size@ == self@.axis_size(sample@),
            r.flow@ == self@.flow(sample@),
            r.opacity@ == self@.brush_opacity,
            r.color@ == self@.color,
            r.origin_x == tx * TILE_SIZE,
            r.origin_y == ty * TILE_SIZE,
    {
        proof {
            single::lemma_value_order(LEAST_FLOW, stamping::ONE);
        }
        let one: Single = Single { bits: stamping::ONE };
        StampParams {
            pos: sample.pos,
            dir: sample.dir,
            size: self.brush_size,
            axis_size: self.brush_size.mul(sample.axis_scale).max(one),
            flow: self.brush_opacity.mul(sample.flow_scale).clamp(
                Single { bits: LEAST_FLOW },
                one,
            ),
            opacity: self.brush_opacity,
            color: self.color,
            origin_x: tx * TILE_SIZE,
            origin_y: ty * TILE_SIZE,
        }
    }

    /// Whether the stroke holds the tile.
    pub fn holds_tile(&self, tx: u32, ty: u32) -> (r: bool)
        requires
            self.wf(),
        ensures
            r == self@.tiles.dom().contains((tx, ty)),
    {
        self.tiles.contains(tx, ty)
    }

    /// Takes a tile into the stroke, with the bytes that were stored of it. A tile
    /// that the stroke holds already stays as it is.
    pub fn ensure_tile(&mut self, tx: u32, ty: u32, raw: Vec<u8>)
        requires
            old(self).wf(),
        ensures
            final(self).wf(),
            final(self)@ == old(self)@.with_tile(tx, ty, raw@),
    {
        self.tiles.ensure_tile(tx, ty, raw);
    }

    /// The wet buffer of a tile.
    pub fn wet_tile(&self, tx: u32, ty: u32) -> (r: Option<&Vec<u8>>)
        requires
            self.wf(),
        ensures
            match r {
                Some(wet) => self@.tiles.dom().contains((tx, ty)) && wet@ == self@.tiles[(
                    tx,
                    ty,
                )].wet,
                None => !self@.tiles.dom().contains((tx, ty)),
            },
    {
        self.tiles.wet_tile(tx, ty)
    }

    /// The tile of a layer as the stroke shows it. A stroke shows nothing of the
    /// layers that it is not on.
    pub fn live_tile(&self, layer_id: &String, tx: u32, ty: u32) -> (r: Option<&Vec<u8>>)
        requires
            self.wf(),
        ensures
            match r {
                Some(current) => self@.shows(layer_id@, tx, ty) && current@ == self@.tiles[(
                    tx,
                    ty,
                )].current,
                None => !self@.shows(layer_id@, tx, ty),
            },
    {
        if self.layer_id == *layer_id {
            self.tiles.current_tile(tx, ty)
        } else {
            None
        }
    }

    /// Whether a wet buffer may be put on a tile: it must fit the pixels there.
    pub fn accepts(&self, tx: u32, ty: u32, wet: &Vec<u8>) -> (r: bool)
        requires
            self.wf(),
        ensures
            r == self@.takes_wet(tx, ty, wet@),
    {
        self.tiles.accepts(tx, ty, wet)
    }

    /// Puts a wet buffer on a tile and composites the tile anew.
    pub fn recomposite_tile(&mut self, tx: u32, ty: u32, wet: Vec<u8>)
        requires
            old(self).wf(),
            old(self)@.takes_wet(tx, ty, wet@),
        ensures
            final(self).wf(),
            final(self)@ == old(self)@.with_wet(tx, ty, wet@),
    {
        self.tiles.recomposite_tile(tx, ty, wet);
    }

    /// The wet buffer that the next stamp goes into: that of the tile, or a blank one
    /// where the stroke does not hold the tile yet.
    pub fn wet_for(&self, tx: u32, ty: u32) -> (r: Vec<u8>)
        requires
            self.wf(),
        ensures
            r@ == self@.wet_at((tx, ty)),
    {
        match self.tiles.wet_tile(tx, ty) {
            Some(wet) => tiles::copy(wet),
            None => tiles::blank(),
        }
    }

    /// Whether the wet buffers of a stamp fit the tiles that the stamp touches.
    pub fn accepts_stamp(&self, sample: &StampSample, stamps: &Vec<TileStamp>) -> (r: bool)
        requires
            self.wf(),
        ensures
            r == self@.takes_stamp(covered(sample.pos@, self@.brush_size), stamps@),
    {
        let range = self.stamp_tiles(sample);
        if stamps.len() as u64 != range.count() {
            return false;
        }
        let mut n: usize = 0;
        while n < stamps.len()
            invariant
                self.wf(),
                range.wf(),
                range == covered(sample.pos@, self@.brush_size),
                n <= stamps.len(),
                stamps.len() == range.rows() * range.columns(),
                forall|k: int|
                    0 <= k < n ==> blend::fits(
                        self@.found(range.tile_at(k), (#[trigger] stamps[k]).raw@),
                        stamps[k].wet@,
                    ),
            decreases stamps.len() - n,
        {
            let (tx, ty) = range.tile(n as u64);
            let fits: bool = if self.tiles.contains(tx, ty) {
                self.tiles.accepts(tx, ty, &stamps[n].wet)
            } else if stamps[n].raw.len() == 0 {
                blend::buffers_fit(&tiles::blank(), &stamps[n].wet)
            } else {
                blend::buffers_fit(&stamps[n].raw, &stamps[n].wet)
            };
            assert(fits == blend::fits(
                self@.found(range.tile_at(n as int), stamps[n as int].raw@),
                stamps[n as int].wet@,
            ));
            if !fits {
                return false;
            }
            n = n + 1;
        }
        true
    }

    /// Puts a stamp into the tiles that it touches, row by row: takes each tile into the
    /// stroke, gives it the wet buffer with the stamp in it, and composites it anew.
    pub fn stamp_sample(&mut self, sample: &StampSample, stamps: Vec<TileStamp>)
        requires
            old(self).wf(),
            old(self)@.takes_stamp(covered(sample.pos@, old(self)@.brush_size), stamps@),
        ensures
            final(self).wf(),
            final(self)@ == old(self)@.stamped(
                covered(sample.pos@, old(self)@.brush_size),
                stamps@,
            ),
    {
        let range = self.stamp_tiles(sample);
        let ghost before = self@;
        let ghost all = stamps@;
        let count: u64 = range.count();
        let mut n: u64 = 0;
        for stamp in it: stamps
            invariant
                self.wf(),
                range.wf(),
                count == range.rows() * range.columns(),
                it.seq() == all,
                n == it.index(),
                before.takes_stamp(range, all),
                self@ == before.stamped(range, all.take(n as int)),
        {
            proof {
                assert(stamp == all[n as int]);
                assert(all.len() == range.rows() * range.columns());
            }
            let (tx, ty) = range.tile(n);
            proof {
                let some = all.take(n as int);
                assert forall|k: int| 0 <= k < n implies range.tile_at(k) != (tx, ty) by {
                    lemma_tiles_differ(range, k, n as int);
                }
                before.lemma_untouched(range, some, (tx, ty));
                assert(blend::fits(
                    before.found(range.tile_at(n as int), all[n as int].raw@),
                    all[n as int].wet@,
                ));
                assert(all.take(n + 1).drop_last() =~= some);
                assert(all.take(n + 1).last() == stamp);
            }
            self.tiles.ensure_tile(tx, ty, stamp.raw);
            self.tiles.recomposite_tile(tx, ty, stamp.wet);
            n = n + 1;
        }
        proof {
            assert(all.take(all.len() as int) =~= all);
        }
    }

    /// The layer that the stroke is on.
    pub fn layer_id(&self) -> (r: &String)
        ensures
            r@ == self@.layer_id,
    {
        &self.layer_id
    }

    /// The direction of the stroke.
    pub fn direction(&self) -> (r: Point)
        ensures
            r@ == self@.dir,
    {
        self.dir
    }

    /// What a finished stroke changes: the layer and the tiles before and after. A
    /// stroke that touched no tile changes nothing.
    pub fn into_commit(self) -> (r: Option<StrokeCommit>)
        requires
            self.wf(),
        ensures
            match r {
                Some(commit) => {
                    &&& self@.tiles != Map::<(u32, u32), TileBuffers>::empty()
                    &&& commit.layer_id@ == self@.layer_id
                    &&& tiles::listing(commit.tiles@, self@.tiles)
                },
                None => self@.tiles == Map::<(u32, u32), TileBuffers>::empty(),
            },
    {
        if self.tiles.is_empty() {
            return None;
        }
        Some(StrokeCommit { layer_id: self.layer_id, tiles: self.tiles.into_tiles() })
    }

    /// At every moment of a stroke its tiles are shown as its paint composited with the
    /// tiles that it found, and at most twelve recent positions are kept.
    pub proof fn law_in_order(self)
        requires
            self.wf(),
        ensures
            stroke_laws::in_order(self@),
    {
        assert forall|key: (u32, u32)| #[trigger]
            self@.tiles.dom().contains(key) implies self@.tiles[key].current == blend::composited(
            self@.tiles[key].before,
            self@.tiles[key].wet,
            self@.eraser,
        ) by {
            self.tiles.law_shown_tile(key);
        }
    }
}

/// What a finished stroke changes.
pub struct StrokeCommit {
    /// The layer that the stroke is on.
    pub layer_id: String,
    /// The tiles that it touched, before and after.
    pub tiles: Vec<StrokeTile>,
}

/// The tools.
#[derive(Clone, Copy, Debug, PartialEq, Eq, Structural)]
pub enum ActiveTool {
    Paint,
    Erase,
    Fill,
    Eyedropper,
    Pan,
}

/// What a stroke takes over from the tools when it begins.
pub struct Brush {
    pub tool: ActiveTool,
    /// Red, green, blue and alpha of the paint.
    pub foreground: [u8; 4],
    pub size: Single,
    pub opacity: Single,
    /// The spacing that the chosen brush asks for, if there is such a brush.
    pub spacing: Option<Single>,
}

impl Brush {
    /// The spacing of the stamps: that of the brush, within bounds, or a plain one.
    pub open spec fn stamp_spacing(self) -> Num {
        match self.spacing {
            Some(spacing) => spacing@.clamped(
                Single::value(LEAST_SPACING),
                Single::value(MOST_SPACING),
            ),
            None => Single::value(PLAIN_SPACING),
        }
    }

    /// The stroke that begins with this brush.
    pub open spec fn begun(self, at: Place, dir: Place, layer_id: Seq<char>) -> Stroke {
        let eraser = self.tool == ActiveTool::Erase;
        Stroke {
            color: if eraser {
                seq![0u8, 0u8, 0u8, 0u8]
            } else {
                self.foreground@
            },
            brush_size: self.size@,
            brush_opacity: self.opacity@,
            eraser,
            layer_id,
            spacing: self.stamp_spacing(),
            dir,
            window: Seq::empty(),
            tiles: Map::empty(),
            last: Some(at),
            speed: Single::value(stamping::ZERO),
            carry: Single::value(stamping::ZERO),
        }
    }
}

/// How a stamp is put into a tile.
#[derive(Clone, Copy, Debug)]
pub struct StampParams {
    pub pos: Point,
    /// The direction that the stamp is turned to.
    pub dir: Point,
    /// The width of the stamp across the motion.
    pub size: Single,
    /// Its width along the motion.
    pub axis_size: Single,
    /// The paint that it lays down.
    pub flow: Single,
    /// The most paint that the stroke may lay down.
    pub opacity: Single,
    pub color: [u8; 4],
    /// Where the tile begins on the canvas.
    pub origin_x: u32,
    pub origin_y: u32,
}

impl Stroke {
    /// The width of a stamp along the motion, at least a pixel.
    pub open spec fn axis_size(self, stamp: Stamp) -> Num {
        self.brush_size.times(stamp.axis_scale).greater(Single::value(stamping::ONE))
    }

    /// The paint that a stamp lays down.
    pub open spec fn flow(self, stamp: Stamp) -> Num {
        self.brush_opacity.times(stamp.flow_scale).clamped(
            Single::value(LEAST_FLOW),
            Single::value(stamping::ONE),
        )
    }

    /// The stroke with a tile that holds the bytes given. A tile that it holds
    /// already stays as it is.
    pub open spec fn with_tile(self, tx: u32, ty: u32, raw: Seq<u8>) -> Stroke {
        if self.tiles.dom().contains((tx, ty)) {
            self
        } else {
            Stroke { tiles: self.tiles.insert((tx, ty), tiles::fresh_tile(raw)), ..self }
        }
    }

    /// Whether a wet buffer fits the tile that it is put on.
    pub open spec fn takes_wet(self, tx: u32, ty: u32, wet: Seq<u8>) -> bool {
        self.tiles.dom().contains((tx, ty)) ==> blend::fits(self.tiles[(tx, ty)].before, wet)
    }

    /// The stroke with another wet buffer on a tile that it holds.
    pub open spec fn with_wet(self, tx: u32, ty: u32, wet: Seq<u8>) -> Stroke {
        if self.tiles.dom().contains((tx, ty)) {
            Stroke {
                tiles: self.tiles.insert(
                    (tx, ty),
                    tiles::stamped_tile(self.tiles[(tx, ty)], wet, self.eraser),
                ),
                ..self
            }
        } else {
            self
        }
    }

    /// The pixels that the stroke finds in a tile, given the bytes that were stored of
    /// it: those that it found already, if it holds the tile.
    pub open spec fn found(self, key: (u32, u32), raw: Seq<u8>) -> Seq<u8> {
        if self.tiles.dom().contains(key) {
            self.tiles[key].before
        } else {
            tiles::base_of(raw)
        }
    }

    /// The wet buffer that the next stamp goes into.
    pub open spec fn wet_at(self, key: (u32, u32)) -> Seq<u8> {
        if self.tiles.dom().contains(key) {
            self.tiles[key].wet
        } else {
            tiles::blank_tile()
        }
    }

    /// Whether there is a wet buffer for every tile of a rectangle, and each fits.
    pub open spec fn takes_stamp(self, range: TileRange, stamps: Seq<TileStamp>) -> bool {
        &&& stamps.len() == range.rows() * range.columns()
        &&& forall|n: int|
            0 <= n < stamps.len() ==> blend::fits(
                self.found(range.tile_at(n), (#[trigger] stamps[n]).raw@),
                stamps[n].wet@,
            )
    }

    /// The stroke with a stamp in the first tiles of a rectangle, as many as there are
    /// wet buffers.
    pub open spec fn stamped(self, range: TileRange, stamps: Seq<TileStamp>) -> Stroke
        decreases stamps.len(),
    {
        if stamps.len() == 0 {
            self
        } else {
            let stamp = stamps.last();
            let key = range.tile_at(stamps.len() - 1);
            self.stamped(range, stamps.drop_last()).with_tile(key.0, key.1, stamp.raw@).with_wet(
                key.0,
                key.1,
                stamp.wet@,
            )
        }
    }

    /// A tile that a stamp does not reach stays as it is.
    pub proof fn lemma_untouched(self, range: TileRange, stamps: Seq<TileStamp>, key: (u32, u32))
        requires
            forall|k: int| 0 <= k < stamps.len() ==> #[trigger] range.tile_at(k) != key,
        ensures
            self.stamped(range, stamps).tiles.dom().contains(key)
                == self.tiles.dom().contains(key),
            self.tiles.dom().contains(key) ==> self.stamped(range, stamps).tiles[key]
                == self.tiles[key],
        decreases stamps.len(),
    {
        if stamps.len() > 0 {
            self.lemma_untouched(range, stamps.drop_last(), key);
            assert(range.tile_at(stamps.len() - 1) != key);
        }
    }

    /// Whether the stroke shows a tile of a layer otherwise than it is stored.
    pub open spec fn shows(self, layer_id: Seq<char>, tx: u32, ty: u32) -> bool {
        self.layer_id == layer_id && self.tiles.dom().contains((tx, ty))
    }
}

/// What a stamp makes of a tile.
pub struct TileStamp {
    /// The bytes that were stored of the tile. They count where the stroke does not hold
    /// the tile yet.
    pub raw: Vec<u8>,
    /// The wet buffer of the tile with the stamp in it.
    pub wet: Vec<u8>,
}

/// A rectangle of tiles.
#[derive(Clone, Copy, Debug)]
pub struct TileRange {
    pub min_tx: u32,
    pub max_tx: u32,
    pub min_ty: u32,
    pub max_ty: u32,
}

/// The tiles under the square around `pos` whose side is the brush size.
pub open spec fn covered(pos: Place, size: Num) -> TileRange {
    let radius = size.times(Single::value(HALF));
    let zero = Single::value(stamping::ZERO);
    let low = |c: Num| c.minus(radius).floored().greater(zero).cut_to(0xffff_ffff);
    let high = |c: Num| c.plus(radius).ceiled().cut_to(0xffff_ffff);
    TileRange {
        min_tx: (low(pos.x) / 256) as u32,
        max_tx: (high(pos.x) / 256) as u32,
        min_ty: (low(pos.y) / 256) as u32,
        max_ty: (high(pos.y) / 256) as u32,
    }
}

impl TileRange {
    /// The tiles lie on a canvas whose pixels are numbered by 32 bits.
    pub open spec fn wf(self) -> bool {
        self.max_tx <= 0xff_ffff && self.max_ty <= 0xff_ffff
    }

    /// The number of columns.
    pub open spec fn columns(self) -> nat {
        if self.min_tx <= self.max_tx {
            (self.max_tx - self.min_tx + 1) as nat
        } else {
            0
        }
    }

    /// The number of rows.
    pub open spec fn rows(self) -> nat {
        if self.min_ty <= self.max_ty {
            (self.max_ty - self.min_ty + 1) as nat
        } else {
            0
        }
    }

    /// Tile `n`, row by row from the top.
    pub open spec fn tile_at(self, n: int) -> (u32, u32) {
        (
            (self.min_tx + n % (self.columns() as int)) as u32,
            (self.min_ty + n / (self.columns() as int)) as u32,
        )
    }

    /// The number of tiles.
    pub fn count(&self) -> (r: u64)
        requires
            self.wf(),
        ensures
            r == self.rows() * self.columns(),
    {
        if self.min_tx > self.max_tx || self.min_ty > self.max_ty {
            proof {
                assert(self.rows() == 0 || self.columns() == 0);
                vstd::arithmetic::mul::lemma_mul_basics(self.rows() as int);
                vstd::arithmetic::mul::lemma_mul_basics(self.columns() as int);
            }
            return 0;
        }
        let columns: u64 = self.max_tx as u64 - self.min_tx as u64 + 1;
        let rows: u64 = self.max_ty as u64 - self.min_ty as u64 + 1;
        proof {
            assert(rows * columns <= 0x100_0000 * 0x100_0000) by (nonlinear_arith)
                requires
                    0 <= rows <= 0x100_0000,
                    0 <= columns <= 0x100_0000,
            ;
        }
        rows * columns
    }

    /// Tile `n`, row by row from the top.
    pub fn tile(&self, n: u64) -> (r: (u32, u32))
        requires
            self.wf(),
            n < self.rows() * self.columns(),
        ensures
            r.0 == self.min_tx + n as nat % self.columns(),
            r.1 == self.min_ty + n as nat / self.columns(),
            self.min_tx <= r.0 <= self.max_tx,
            self.min_ty <= r.1 <= self.max_ty,
            r == self.tile_at(n as int),
    {
        proof {
            vstd::arithmetic::mul::lemma_mul_basics(self.rows() as int);
            vstd::arithmetic::mul::lemma_mul_basics(self.columns() as int);
        }
        let columns: u64 = self.max_tx as u64 - self.min_tx as u64 + 1;
        proof {
            vstd::arithmetic::div_mod::lemma_mod_bound(n as int, columns as int);
            vstd::arithmetic::mul::lemma_mul_is_commutative(
                self.rows() as int,
                self.columns() as int,
            );
            vstd::arithmetic::div_mod::lemma_multiply_divide_lt(
                n as int,
                columns as int,
                self.rows() as int,
            );
        }
        let column: u64 = n % columns;
        let row: u64 = n / columns;
        (self.min_tx + column as u32, self.min_ty + row as u32)
    }
}

/// The tiles of a rectangle are all different.
pub proof fn lemma_tiles_differ(range: TileRange, k: int, n: int)
    requires
        range.wf(),
        0 <= k < n < range.rows() * range.columns(),
    ensures
        range.tile_at(k) != range.tile_at(n),
{
    lemma_tile_bounds(range, k);
    lemma_tile_bounds(range, n);
    let c = range.columns() as int;
    vstd::arithmetic::div_mod::lemma_fundamental_div_mod(k, c);
    vstd::arithmetic::div_mod::lemma_fundamental_div_mod(n, c);
}

/// The tiles of a rectangle lie in it.
proof fn lemma_tile_bounds(range: TileRange, n: int)
    requires
        range.wf(),
        0 <= n < range.rows() * range.columns(),
    ensures
        range.columns() > 0,
        0 <= n % (range.columns() as int) < range.columns(),
        0 <= n / (range.columns() as int) < range.rows(),
        range.tile_at(n).0 == range.min_tx + n % (range.columns() as int),
        range.tile_at(n).1 == range.min_ty + n / (range.columns() as int),
{
    let c = range.columns() as int;
    let r = range.rows() as int;
    vstd::arithmetic::mul::lemma_mul_basics(r);
    vstd::arithmetic::mul::lemma_mul_basics(c);
    vstd::arithmetic::div_mod::lemma_mod_bound(n, c);
    vstd::arithmetic::mul::lemma_mul_is_commutative(r, c);
    vstd::arithmetic::div_mod::lemma_multiply_divide_lt(n, c, r);
    vstd::arithmetic::div_mod::lemma_div_pos_is_pos(n, c);
}

} // verus!
