//! Strokes against the arithmetic of the machine, and what holds of them.

use matter::binary32::single::Single;
use matter::canvas::geometry::Point;
use matter::canvas::stamping::StampSample;
use matter::canvas::stroke::{ActiveStroke, ActiveTool, Brush, TileStamp};
use matter::canvas::tiles::TILE_BYTES;
use std::collections::VecDeque;

fn single(x: f32) -> Single {
    Single { bits: x.to_bits() }
}

fn point(x: f32, y: f32) -> Point {
    Point { x: single(x), y: single(y) }
}

fn float(x: Single) -> f32 {
    f32::from_bits(x.bits)
}

fn brush(tool: ActiveTool, size: f32, opacity: f32, spacing: Option<f32>) -> Brush {
    Brush { tool, foreground: [10, 20, 30, 255], size: single(size), opacity: single(opacity), spacing: spacing.map(single) }
}

/// The same rules on the numbers of the machine.
struct MachineStroke {
    size: f32,
    spacing: f32,
    dir: (f32, f32),
    window: VecDeque<(f32, f32)>,
    last: (f32, f32),
    speed: f32,
    carry: f32,
}

/// Position, direction, narrowing and flow of a stamp.
type MachineStamp = (f32, f32, f32, f32, f32, f32);

impl MachineStroke {
    fn continue_to(&mut self, p: (f32, f32)) -> Vec<MachineStamp> {
        let from = self.last;
        let follow = (0.20 + (self.speed * 0.25).clamp(0.0, 0.40)).clamp(0.20, 0.60);
        let to = (from.0 + (p.0 - from.0) * follow, from.1 + (p.1 - from.1) * follow);
        let stamps = self.segment(from, to);
        self.last = to;
        stamps
    }

    fn segment(&mut self, from: (f32, f32), to: (f32, f32)) -> Vec<MachineStamp> {
        let mut stamps: Vec<MachineStamp> = vec![];
        let dx = to.0 - from.0;
        let dy = to.1 - from.1;
        let dist = (dx * dx + dy * dy).sqrt();
        if dist < 0.01 {
            return stamps;
        }
        let seg = (dx / dist, dy / dist);
        if self.window.len() >= 12 {
            self.window.pop_front();
        }
        self.window.push_back(to);
        if self.window.len() >= 2 && dist >= 1.0 {
            let oldest = *self.window.front().unwrap();
            let newest = *self.window.back().unwrap();
            let tdx = newest.0 - oldest.0;
            let tdy = newest.1 - oldest.1;
            let tlen = (tdx * tdx + tdy * tdy).sqrt();
            if tlen > 0.1 {
                self.dir.0 += (tdx / tlen - self.dir.0) * 0.20;
                self.dir.1 += (tdy / tlen - self.dir.1) * 0.20;
            }
        }
        let len = (self.dir.0 * self.dir.0 + self.dir.1 * self.dir.1).sqrt();
        if len > 0.0001 {
            self.dir.0 /= len;
            self.dir.1 /= len;
        } else {
            self.dir = seg;
        }
        let speed = if self.size > 1.0 { dist / self.size } else { dist };
        self.speed += (speed - self.speed) * 0.35;
        let speed = self.speed.max(0.0);
        let boost = (1.0 + speed * 1.10).clamp(1.0, 2.6);
        let raw = self.size * self.spacing * boost;
        let least = (self.size * 0.15).max(0.25);
        let most = (self.size * 0.70).max(least);
        let step = raw.clamp(least, most);
        let large = ((self.size - 24.0) / 96.0).clamp(0.0, 1.0);
        let axis = (1.0 - speed * large * 0.55).clamp(0.45, 1.0);
        let flow = (1.0 / (1.0 + speed * 0.8)).clamp(0.35, 1.0);
        let carry = self.carry.min((step - 0.001).max(0.0));
        let mut offset = if carry <= 0.0 { step } else { step - carry };
        while offset <= dist {
            stamps.push((from.0 + seg.0 * offset, from.1 + seg.1 * offset, self.dir.0, self.dir.1, axis, flow));
            offset += step;
        }
        self.carry = if step > 0.0 { (carry + dist) % step } else { 0.0 };
        stamps
    }
}

fn bits_of(s: &StampSample) -> [u32; 6] {
    [s.pos.x.bits, s.pos.y.bits, s.dir.x.bits, s.dir.y.bits, s.axis_scale.bits, s.flow_scale.bits]
}

fn machine_bits(s: &MachineStamp) -> [u32; 6] {
    [s.0.to_bits(), s.1.to_bits(), s.2.to_bits(), s.3.to_bits(), s.4.to_bits(), s.5.to_bits()]
}

/// A path that wanders, with jumps, short moves and rests.
fn path(seed: u64, count: u32) -> Vec<(f32, f32)> {
    let mut state = seed;
    let mut at = (200.0f32, 300.0f32);
    let mut all: Vec<(f32, f32)> = vec![];
    for i in 0..count {
        state = state.wrapping_mul(6364136223846793005).wrapping_add(1442695040888963407);
        let a = ((state >> 33) % 2001) as f32 / 1000.0 - 1.0;
        let b = ((state >> 45) % 2001) as f32 / 1000.0 - 1.0;
        let reach = match i % 5 {
            0 => 0.001,
            1 => 0.7,
            2 => 6.0,
            3 => 40.0,
            _ => 0.0,
        };
        at = (at.0 + a * reach, at.1 + b * reach);
        all.push(at);
    }
    all
}

#[test]
fn strokes_are_those_of_the_machine() {
    for (n, size) in [0.4f32, 1.0, 3.0, 12.5, 24.0, 60.0, 130.0, 500.0].iter().enumerate() {
        for spacing in [0.05f32, 0.2, 0.75] {
            let b = brush(ActiveTool::Paint, *size, 0.8, Some(spacing));
            let mut ours = ActiveStroke::begin(point(200.0, 300.0), point(1.0, 0.0), String::from("a"), &b);
            let mut theirs = MachineStroke {
                size: *size,
                spacing,
                dir: (1.0, 0.0),
                window: VecDeque::new(),
                last: (200.0, 300.0),
                speed: 0.0,
                carry: 0.0,
            };
            let mut count = 0;
            for p in path(n as u64 + 17, 60) {
                let expected = theirs.continue_to(p);
                let mut got: Vec<[u32; 6]> = vec![];
                if let Some(mut run) = ours.continue_stroke(point(p.0, p.1)) {
                    while let Some(sample) = run.next() {
                        got.push(bits_of(&sample));
                    }
                }
                let expected: Vec<[u32; 6]> = expected.iter().map(machine_bits).collect();
                assert_eq!(got, expected, "size {} spacing {}", size, spacing);
                count += got.len();
                let dir = ours.direction();
                assert_eq!([dir.x.bits, dir.y.bits], [theirs.dir.0.to_bits(), theirs.dir.1.to_bits()]);
                // A unit vector, but for rounding.
                let square = float(dir.x) as f64 * float(dir.x) as f64 + float(dir.y) as f64 * float(dir.y) as f64;
                assert!((square - 1.0).abs() <= 1.0 / 65536.0);
            }
            assert!(count > 0 || *size > 100.0);
        }
    }
}

#[test]
fn a_straight_segment() {
    // A brush of 10 pixels, spaced 0.2: at first two pixels and a bit from stamp to stamp.
    let b = brush(ActiveTool::Paint, 10.0, 1.0, Some(0.2));
    let mut stroke = ActiveStroke::begin(point(0.0, 0.0), point(0.0, 1.0), String::from("a"), &b);
    let mut run = stroke.stamp_segment(point(0.0, 0.0), point(10.0, 0.0)).unwrap();
    // The speed is 0.35 diameters, so the step is 2 * 1.385.
    assert_eq!(float(run.step), 10.0f32 * 0.2 * (1.0 + 0.35 * 1.10));
    assert_eq!(float(run.dist), 10.0);
    let mut xs: Vec<f32> = vec![];
    while let Some(sample) = run.next() {
        assert_eq!(float(sample.pos.y), 0.0);
        assert_eq!(float(sample.axis_scale), 1.0);
        xs.push(float(sample.pos.x));
    }
    assert_eq!(xs.len(), 3);
    assert!(xs[0] > 2.76 && xs[0] < 2.78);
    // The run owes no more, and stays so.
    assert!(run.next().is_none());
    // What is left of the way is shorter than the step, and counts for the next segment.
    let next = stroke.stamp_segment(point(10.0, 0.0), point(20.0, 0.0)).unwrap();
    assert!(float(next.offset) < float(next.step));
}

#[test]
fn a_negligible_segment_changes_nothing() {
    let b = brush(ActiveTool::Paint, 10.0, 1.0, None);
    let mut stroke = ActiveStroke::begin(point(5.0, 5.0), point(0.6, 0.8), String::from("a"), &b);
    assert!(stroke.stamp_segment(point(5.0, 5.0), point(5.005, 5.0)).is_none());
    assert_eq!(float(stroke.direction().x), 0.6);
    assert_eq!(float(stroke.direction().y), 0.8);
}

#[test]
fn a_short_move_keeps_the_direction() {
    let b = brush(ActiveTool::Paint, 10.0, 1.0, None);
    let mut stroke = ActiveStroke::begin(point(0.0, 0.0), point(1.0, 0.0), String::from("a"), &b);
    for i in 0..20 {
        let y = i as f32 * 0.5;
        assert!(stroke.stamp_segment(point(0.0, y), point(0.0, y + 0.5)).is_some());
    }
    assert_eq!(float(stroke.direction().x), 1.0);
    assert_eq!(float(stroke.direction().y), 0.0);
}

#[test]
fn a_direction_that_cannot_be_told_is_that_of_the_segment() {
    let b = brush(ActiveTool::Paint, 10.0, 1.0, None);
    let mut stroke = ActiveStroke::begin(point(0.0, 0.0), point(0.0, 0.0), String::from("a"), &b);
    assert!(stroke.stamp_segment(point(0.0, 0.0), point(0.0, 0.5)).is_some());
    assert_eq!(float(stroke.direction().x), 0.0);
    assert_eq!(float(stroke.direction().y), 1.0);
}

#[test]
fn the_first_stamp() {
    let b = brush(ActiveTool::Paint, 10.0, 0.5, None);
    let stroke = ActiveStroke::begin(point(7.0, 9.0), point(0.6, 0.8), String::from("a"), &b);
    let seed = stroke.seed(point(7.0, 9.0));
    assert_eq!(
        bits_of(&seed),
        machine_bits(&(7.0, 9.0, 0.6, 0.8, 1.0, 1.0)),
    );
}

#[test]
fn how_a_stamp_is_put_into_a_tile() {
    let b = brush(ActiveTool::Paint, 40.0, 0.5, None);
    let stroke = ActiveStroke::begin(point(300.0, 20.0), point(0.6, 0.8), String::from("a"), &b);
    let mut sample = stroke.seed(point(300.0, 20.0));
    sample.axis_scale = single(0.5);
    sample.flow_scale = single(0.35);
    let params = stroke.stamp_params(&sample, 1, 2);
    assert_eq!(float(params.size), 40.0);
    assert_eq!(float(params.axis_size), 20.0);
    assert_eq!(float(params.flow), 0.5f32 * 0.35);
    assert_eq!(float(params.opacity), 0.5);
    assert_eq!(params.color, [10, 20, 30, 255]);
    assert_eq!((params.origin_x, params.origin_y), (256, 512));
    assert_eq!(float(params.dir.x), 0.6);
    assert_eq!(float(params.pos.x), 300.0);
    // A stamp is at least a pixel wide, and lays down at least a hundredth.
    let thin = brush(ActiveTool::Paint, 0.5, 0.001, None);
    let stroke = ActiveStroke::begin(point(0.0, 0.0), point(1.0, 0.0), String::from("a"), &thin);
    let params = stroke.stamp_params(&stroke.seed(point(0.0, 0.0)), 0, 0);
    assert_eq!(float(params.axis_size), 1.0);
    assert_eq!(float(params.flow), 0.01);
}

#[test]
fn an_eraser_has_no_colour() {
    let b = brush(ActiveTool::Erase, 10.0, 1.0, None);
    let stroke = ActiveStroke::begin(point(0.0, 0.0), point(1.0, 0.0), String::from("a"), &b);
    let params = stroke.stamp_params(&stroke.seed(point(0.0, 0.0)), 0, 0);
    assert_eq!(params.color, [0, 0, 0, 0]);
}

#[test]
fn the_tiles_under_a_stamp() {
    let b = brush(ActiveTool::Paint, 100.0, 1.0, None);
    let stroke = ActiveStroke::begin(point(0.0, 0.0), point(1.0, 0.0), String::from("a"), &b);
    let range = stroke.stamp_tiles(&stroke.seed(point(250.0, 600.0)));
    assert_eq!((range.min_tx, range.max_tx, range.min_ty, range.max_ty), (0, 1, 2, 2));
    assert_eq!(range.count(), 2);
    assert_eq!(range.tile(0), (0, 2));
    assert_eq!(range.tile(1), (1, 2));
    // Beyond the upper left corner the tiles are cut off.
    let range = stroke.stamp_tiles(&stroke.seed(point(-30.0, 10.0)));
    assert_eq!((range.min_tx, range.max_tx, range.min_ty, range.max_ty), (0, 0, 0, 0));
    // Far beyond it the first tile is still counted in.
    let range = stroke.stamp_tiles(&stroke.seed(point(-3000.0, -3000.0)));
    assert_eq!(range.count(), 1);
    // What is not a number counts as the corner.
    let range = stroke.stamp_tiles(&stroke.seed(point(f32::NAN, f32::NAN)));
    assert_eq!(range.count(), 1);
    // Far to the right the numbers are cut to 32 bits.
    let range = stroke.stamp_tiles(&stroke.seed(point(1e30, 5.0)));
    assert_eq!((range.min_tx, range.max_tx), (0xff_ffff, 0xff_ffff));
}

#[test]
fn the_tiles_under_a_stamp_are_those_of_the_machine() {
    for size in [0.5f32, 3.0, 100.0, 700.0] {
        let b = brush(ActiveTool::Paint, size, 1.0, None);
        let stroke = ActiveStroke::begin(point(0.0, 0.0), point(1.0, 0.0), String::from("a"), &b);
        for (x, y) in path(3, 200) {
            let range = stroke.stamp_tiles(&stroke.seed(point(x * 3.0 - 500.0, y)));
            let radius = size * 0.5;
            let min_x = (x * 3.0 - 500.0 - radius).floor().max(0.0) as u32 / 256;
            let max_x = (x * 3.0 - 500.0 + radius).ceil() as u32 / 256;
            let min_y = (y - radius).floor().max(0.0) as u32 / 256;
            let max_y = (y + radius).ceil() as u32 / 256;
            assert_eq!((range.min_tx, range.max_tx, range.min_ty, range.max_ty), (min_x, max_x, min_y, max_y));
            // Every tile is visited once, row by row.
            let mut n = 0;
            for ty in min_y..=max_y {
                for tx in min_x..=max_x {
                    assert_eq!(range.tile(n), (tx, ty));
                    n += 1;
                }
            }
            assert_eq!(range.count(), n);
        }
    }
}

#[test]
fn every_pixel_under_a_stamp_is_in_a_tile() {
    let b = brush(ActiveTool::Paint, 30.0, 1.0, None);
    let stroke = ActiveStroke::begin(point(0.0, 0.0), point(1.0, 0.0), String::from("a"), &b);
    for (x, y) in path(9, 100) {
        let range = stroke.stamp_tiles(&stroke.seed(point(x, y)));
        for px in (x - 15.0) as u32..=(x + 15.0) as u32 {
            assert!(range.min_tx <= px / 256 && px / 256 <= range.max_tx);
        }
        for py in (y - 15.0) as u32..=(y + 15.0) as u32 {
            assert!(range.min_ty <= py / 256 && py / 256 <= range.max_ty);
        }
    }
}

#[test]
fn the_spacing_of_a_brush_is_kept_within_bounds() {
    for (asked, step) in [(Some(0.0f32), 2.0f32 * 0.05), (Some(0.4), 0.4 * 2.0), (Some(9.0), 2.0 * 0.75), (None, 2.0 * 0.20)] {
        let b = brush(ActiveTool::Paint, 2.0, 1.0, asked);
        let mut stroke = ActiveStroke::begin(point(0.0, 0.0), point(1.0, 0.0), String::from("a"), &b);
        let run = stroke.stamp_segment(point(0.0, 0.0), point(0.02, 0.0)).unwrap();
        // At this speed the step is all but that of the brush, within its own bounds.
        let expected = step.clamp(2.0 * 0.15, 2.0 * 0.70);
        assert!((float(run.step) - expected).abs() < 0.02, "{:?}", asked);
    }
}

#[test]
fn bounds_of_what_the_speed_changes() {
    let b = brush(ActiveTool::Paint, 200.0, 1.0, Some(0.5));
    let mut stroke = ActiveStroke::begin(point(0.0, 0.0), point(1.0, 0.0), String::from("a"), &b);
    let run = stroke.stamp_segment(point(0.0, 0.0), point(90_000.0, 0.0)).unwrap();
    assert_eq!(float(run.step), 200.0 * 0.70);
    assert_eq!(float(run.axis_scale), 0.45);
    assert_eq!(float(run.flow_scale), 0.35);
}

#[test]
fn a_stroke_that_touched_nothing_changes_nothing() {
    let b = brush(ActiveTool::Paint, 10.0, 1.0, None);
    let stroke = ActiveStroke::begin(point(0.0, 0.0), point(1.0, 0.0), String::from("a"), &b);
    assert!(stroke.into_commit().is_none());
}

#[test]
fn a_stroke_shows_and_commits_its_tiles() {
    let b = brush(ActiveTool::Paint, 10.0, 1.0, None);
    let mut stroke = ActiveStroke::begin(point(0.0, 0.0), point(1.0, 0.0), String::from("sky"), &b);
    assert_eq!(stroke.layer_id(), "sky");
    assert!(!stroke.holds_tile(0, 0));
    stroke.ensure_tile(0, 0, vec![]);
    stroke.ensure_tile(1, 0, vec![50; TILE_BYTES]);
    assert!(stroke.holds_tile(1, 0));
    let mut wet = stroke.wet_tile(1, 0).unwrap().clone();
    wet[2] = 77;
    wet[3] = 255;
    assert!(stroke.accepts(1, 0, &wet));
    stroke.recomposite_tile(1, 0, wet);
    let sky = String::from("sky");
    let sea = String::from("sea");
    assert_eq!(&stroke.live_tile(&sky, 1, 0).unwrap()[0..8], &[0, 0, 77, 255, 50, 50, 50, 50]);
    assert!(stroke.live_tile(&sky, 2, 0).is_none());
    assert!(stroke.live_tile(&sea, 1, 0).is_none());
    let commit = stroke.into_commit().unwrap();
    assert_eq!(commit.layer_id, "sky");
    assert_eq!(commit.tiles.len(), 2);
    let tile = commit.tiles.iter().find(|t| t.tx == 1).unwrap();
    assert_eq!(tile.before[2], 50);
    assert_eq!(tile.current[2], 77);
    let other = commit.tiles.iter().find(|t| t.tx == 0).unwrap();
    assert_eq!(other.before, other.current);
    assert_eq!(other.before.len(), TILE_BYTES);
}

#[test]
fn a_stamp_goes_into_every_tile_that_it_touches() {
    let b = brush(ActiveTool::Paint, 20.0, 1.0, None);
    let mut stroke = ActiveStroke::begin(point(256.0, 256.0), point(1.0, 0.0), String::from("a"), &b);
    stroke.ensure_tile(5, 5, vec![3; 8]);
    let seed = stroke.seed(point(256.0, 256.0));
    let range = stroke.stamp_tiles(&seed);
    assert_eq!(range.count(), 4);
    let mut stamps: Vec<TileStamp> = vec![];
    for n in 0..range.count() {
        let (tx, ty) = range.tile(n);
        assert!(!stroke.holds_tile(tx, ty));
        let mut wet = stroke.wet_for(tx, ty);
        assert_eq!(wet, vec![0; TILE_BYTES]);
        wet[0] = n as u8 + 1;
        wet[3] = 255;
        let raw = if n == 0 { vec![] } else { vec![10 * n as u8; TILE_BYTES] };
        stamps.push(TileStamp { raw, wet });
    }
    assert!(stroke.accepts_stamp(&seed, &stamps));
    stroke.stamp_sample(&seed, stamps);
    let id = String::from("a");
    for n in 0..range.count() {
        let (tx, ty) = range.tile(n);
        let shown = stroke.live_tile(&id, tx, ty).unwrap();
        assert_eq!(&shown[0..4], &[n as u8 + 1, 0, 0, 255]);
        assert_eq!(shown[4], 10 * n as u8);
        assert_eq!(stroke.wet_for(tx, ty)[0], n as u8 + 1);
    }
    // Other tiles are as they were.
    assert_eq!(stroke.live_tile(&id, 5, 5).unwrap(), &vec![3; 8]);
    // A second stamp finds the pixels of the first load again.
    let again: Vec<TileStamp> = (0..4).map(|_| TileStamp { raw: vec![99; 4], wet: vec![0; TILE_BYTES] }).collect();
    assert!(stroke.accepts_stamp(&seed, &again));
    stroke.stamp_sample(&seed, again);
    assert_eq!(stroke.live_tile(&id, 1, 0).unwrap(), &vec![10; TILE_BYTES]);
    assert_eq!(stroke.into_commit().unwrap().tiles.len(), 5);
}

#[test]
fn a_stamp_needs_a_wet_buffer_that_fits_for_every_tile() {
    let b = brush(ActiveTool::Paint, 20.0, 1.0, None);
    let mut stroke = ActiveStroke::begin(point(256.0, 9.0), point(1.0, 0.0), String::from("a"), &b);
    let seed = stroke.seed(point(256.0, 9.0));
    assert_eq!(stroke.stamp_tiles(&seed).count(), 2);
    let full = || TileStamp { raw: vec![], wet: vec![0; TILE_BYTES] };
    let short = || TileStamp { raw: vec![], wet: vec![0; 4] };
    assert!(stroke.accepts_stamp(&seed, &vec![full(), full()]));
    assert!(!stroke.accepts_stamp(&seed, &vec![full()]));
    assert!(!stroke.accepts_stamp(&seed, &vec![full(), full(), full()]));
    assert!(!stroke.accepts_stamp(&seed, &vec![full(), short()]));
    // Of a tile that was stored in part a short wet buffer is enough.
    assert!(stroke.accepts_stamp(&seed, &vec![full(), TileStamp { raw: vec![1; 4], wet: vec![0; 4] }]));
    // But not once the stroke holds the whole of it.
    stroke.ensure_tile(1, 0, vec![]);
    assert!(!stroke.accepts_stamp(&seed, &vec![full(), TileStamp { raw: vec![1; 4], wet: vec![0; 4] }]));
}

#[test]
fn the_way_since_the_last_stamp_is_carried_over() {
    let b = brush(ActiveTool::Paint, 40.0, 1.0, Some(0.3));
    let mut stroke = ActiveStroke::begin(point(0.0, 0.0), point(1.0, 0.0), String::from("a"), &b);
    let mut x = 0.0f32;
    let mut since = 0.0f32;
    let mut placed = 0;
    let mut skipped = 0;
    for i in 0..200 {
        let to = x + 3.0 + (i % 7) as f32;
        let mut run = stroke.stamp_segment(point(x, 0.0), point(to, 0.0)).unwrap();
        // What the last segment left over is taken off the first step of this one,
        // unless the step has become shorter than that.
        let carry = since.min(float(run.step) - 0.001);
        let owed = if carry <= 0.0 { float(run.step) } else { float(run.step) - carry };
        assert!((float(run.offset) - owed).abs() < 0.001);
        assert!(float(run.offset) > 0.0);
        let mut last: Option<f32> = None;
        while let Some(sample) = run.next() {
            last = Some(float(sample.pos.x));
            placed += 1;
        }
        since = match last {
            Some(at) => to - at,
            None => {
                skipped += 1;
                carry + (to - x)
            },
        };
        assert!(since < float(run.step) + 0.001);
        x = to;
    }
    assert!(placed > 0 && skipped > 0);
}

#[test]
fn a_stamp_always_covers_a_tile() {
    let far = [0.0f32, -0.0, 255.999, -1e9, 1e9, 4.2e9, 1e30, f32::INFINITY, f32::NEG_INFINITY, f32::NAN];
    for size in [0.0f32, -0.0, 0.001, 1.0, 300.0] {
        let b = brush(ActiveTool::Paint, size, 1.0, None);
        let stroke = ActiveStroke::begin(point(0.0, 0.0), point(1.0, 0.0), String::from("a"), &b);
        for x in far {
            for y in far {
                let range = stroke.stamp_tiles(&stroke.seed(point(x, y)));
                assert!(range.count() >= 1, "size {} at {} {}", size, x, y);
            }
        }
    }
}

#[test]
fn a_stroke_holds_a_tile_after_its_first_stamp() {
    let b = brush(ActiveTool::Paint, 4.0, 1.0, None);
    let mut stroke = ActiveStroke::begin(point(300.0, 20.0), point(1.0, 0.0), String::from("a"), &b);
    let seed = stroke.seed(point(300.0, 20.0));
    stroke.stamp_sample(&seed, vec![TileStamp { raw: vec![], wet: vec![0; TILE_BYTES] }]);
    assert!(stroke.holds_tile(1, 0));
    assert_eq!(stroke.into_commit().unwrap().tiles.len(), 1);
}

#[test]
fn the_first_segment_keeps_the_direction() {
    let b = brush(ActiveTool::Paint, 10.0, 1.0, None);
    let mut stroke = ActiveStroke::begin(point(0.0, 0.0), point(0.6, 0.8), String::from("a"), &b);
    assert!(stroke.stamp_segment(point(0.0, 0.0), point(50.0, 0.0)).is_some());
    let dir = stroke.direction();
    assert!((float(dir.x) - 0.6).abs() < 1e-6);
    assert!((float(dir.y) - 0.8).abs() < 1e-6);
    // The second one turns it.
    assert!(stroke.stamp_segment(point(50.0, 0.0), point(100.0, 0.0)).is_some());
    assert!(float(stroke.direction().x) > 0.65);
}

#[test]
fn jitter_does_not_turn_a_stroke() {
    let b = brush(ActiveTool::Paint, 10.0, 1.0, None);
    let mut directions: Vec<[u32; 2]> = vec![];
    for jitter in [0.0f32, 3.0, -20.0] {
        let mut stroke = ActiveStroke::begin(point(0.0, 0.0), point(0.0, 1.0), String::from("a"), &b);
        assert!(stroke.stamp_segment(point(0.0, 0.5), point(0.0, 0.0)).is_some());
        // Positions off the line, each after a move too short to turn the stroke.
        for i in 1..5 {
            let at = point(i as f32, jitter * i as f32);
            let before = point(i as f32, jitter * i as f32 + 0.5);
            assert!(stroke.stamp_segment(before, at).is_some());
        }
        assert!(stroke.stamp_segment(point(3.0, 3.0), point(30.0, 40.0)).is_some());
        let dir = stroke.direction();
        directions.push([dir.x.bits, dir.y.bits]);
        assert!(float(dir.x) > 0.1);
    }
    assert_eq!(directions[0], directions[1]);
    assert_eq!(directions[0], directions[2]);
}

#[test]
fn a_straight_line_stays_straight() {
    let b = brush(ActiveTool::Paint, 10.0, 1.0, None);
    let mut stroke = ActiveStroke::begin(point(0.0, 0.0), point(0.6, 0.8), String::from("a"), &b);
    for i in 0..100 {
        let n = i as f32;
        assert!(stroke.stamp_segment(point(3.0 * n, 4.0 * n), point(3.0 * (n + 1.0), 4.0 * (n + 1.0))).is_some());
        assert!((float(stroke.direction().x) - 0.6).abs() < 1e-5);
        assert!((float(stroke.direction().y) - 0.8).abs() < 1e-5);
    }
}

#[test]
fn a_faster_stroke_is_wider_thinner_and_narrower() {
    for size in [0.5f32, 10.0, 30.0, 200.0] {
        let b = brush(ActiveTool::Paint, size, 1.0, Some(0.2));
        let mut last: Option<(f32, f32, f32)> = None;
        for dist in [0.01f32, 0.5, 1.0, 7.5, 60.0, 300.0, 5e3, 1e9, 1e19] {
            let mut stroke = ActiveStroke::begin(point(0.0, 0.0), point(1.0, 0.0), String::from("a"), &b);
            let run = stroke.stamp_segment(point(0.0, 0.0), point(dist, 0.0)).unwrap();
            let now = (float(run.step), float(run.flow_scale), float(run.axis_scale));
            if let Some(was) = last {
                assert!(was.0 <= now.0);
                assert!(was.1 >= now.1);
                assert!(was.2 >= now.2);
            }
            last = Some(now);
        }
    }
    // In the middle of the range each does change.
    let b = brush(ActiveTool::Paint, 200.0, 1.0, Some(0.2));
    let over = |dist: f32| {
        let mut stroke = ActiveStroke::begin(point(0.0, 0.0), point(1.0, 0.0), String::from("a"), &b);
        stroke.stamp_segment(point(0.0, 0.0), point(dist, 0.0)).unwrap()
    };
    let (slow, fast) = (over(100.0), over(200.0));
    assert!(float(slow.step) < float(fast.step));
    assert!(float(slow.flow_scale) > float(fast.flow_scale));
    assert!(float(slow.axis_scale) > float(fast.axis_scale));
}

#[test]
fn a_faster_stroke_follows_more_closely() {
    let b = brush(ActiveTool::Paint, 10.0, 1.0, None);
    let mut last = 0.0f32;
    for dist in [0.1f32, 5.0, 20.0, 60.0, 500.0] {
        let mut stroke = ActiveStroke::begin(point(0.0, 0.0), point(1.0, 0.0), String::from("a"), &b);
        // The pointer leads on from the corner, by a fifth of the way at first.
        stroke.continue_stroke(point(dist * 5.0, 0.0));
        let at = dist * 5.0 * 0.2;
        let run = stroke.continue_stroke(point(at + 1000.0, 0.0)).unwrap();
        let follow = float(run.dist) / 1000.0;
        assert!(follow >= last - 1e-5);
        assert!(follow > 0.199 && follow < 0.601);
        last = follow;
    }
    assert!(last > 0.59);
}

#[test]
fn a_speed_never_becomes_negative() {
    let b = brush(ActiveTool::Paint, 10.0, 1.0, Some(0.2));
    let mut stroke = ActiveStroke::begin(point(0.0, 0.0), point(1.0, 0.0), String::from("a"), &b);
    let mut x = 0.0f32;
    for i in 0..300 {
        let to = x + if i == 0 { 900.0 } else { 0.02 };
        let run = stroke.stamp_segment(point(x, 0.0), point(to, 0.0)).unwrap();
        // At rest the step is that of the brush, and never shorter.
        assert!(float(run.step) >= 2.0);
        assert!(float(run.flow_scale) <= 1.0);
        x = to;
    }
}

#[test]
fn stamps_stand_evenly() {
    let b = brush(ActiveTool::Paint, 25.0, 1.0, Some(0.3));
    let mut stroke = ActiveStroke::begin(point(0.0, 0.0), point(1.0, 0.0), String::from("a"), &b);
    let mut x = 0.0f32;
    for i in 0..40 {
        let to = x + 20.0 + i as f32;
        let mut run = stroke.stamp_segment(point(x, 0.0), point(to, 0.0)).unwrap();
        let step = float(run.step) as f64;
        let carry = step - float(run.offset) as f64;
        assert!(carry > -1e-5);
        let mut k = 0;
        while let Some(sample) = run.next() {
            k += 1;
            let exact = x as f64 + k as f64 * step - carry;
            assert!((float(sample.pos.x) as f64 - exact).abs() < 0.001);
            assert!(float(sample.pos.x) <= to + 0.001);
        }
        assert!(k > 0);
        x = to;
    }
}
