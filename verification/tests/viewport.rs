//! The view: coordinates, drags, zoom, strokes under the pointer.

use matter::binary32::single::Single;
use matter::canvas::geometry::Point;
use matter::canvas::stamping::StampSample;
use matter::canvas::stroke::{ActiveTool, Brush, TileStamp};
use matter::canvas::tiles::TILE_BYTES;
use matter::canvas::viewport::{CanvasViewport, ScrollDelta};

fn single(x: f32) -> Single {
    Single { bits: x.to_bits() }
}

fn point(x: f32, y: f32) -> Point {
    Point { x: single(x), y: single(y) }
}

fn pair(p: Point) -> (f32, f32) {
    (f32::from_bits(p.x.bits), f32::from_bits(p.y.bits))
}

fn brush(tool: ActiveTool) -> Brush {
    Brush { tool, foreground: [1, 2, 3, 255], size: single(10.0), opacity: single(1.0), spacing: None }
}

/// Pan and zoom, as a frame takes them.
fn pan_zoom(view: &CanvasViewport) -> (f32, f32, f32) {
    let input = view.render_input(100, 50, single(10.0), [single(0.0); 4]);
    let pan = pair(input.pan_offset);
    (pan.0, pan.1, f32::from_bits(input.zoom.bits))
}

#[test]
fn a_view_before_anything_has_happened() {
    let view = CanvasViewport::new();
    assert_eq!(pan_zoom(&view), (32.0, 32.0, 1.0));
    assert!(view.stroke().is_none());
    assert!(view.cursor_overlay(single(10.0)).is_none());
    assert_eq!(pair(view.to_local(point(5.0, 6.0))), (5.0, 6.0));
    assert_eq!(pair(view.canvas_of_local(point(40.0, 30.0))), (8.0, -2.0));
}

#[test]
fn coordinates_follow_the_layout() {
    let mut view = CanvasViewport::new();
    view.set_layout(point(100.0, 50.0), point(800.0, 600.0));
    assert_eq!(pair(view.to_local(point(132.0, 82.5))), (32.0, 32.5));
    assert_eq!(pair(view.canvas_of_local(point(32.0, 32.5))), (0.0, 0.5));
    let input = view.render_input(100, 50, single(10.0), [single(0.1), single(0.2), single(0.3), single(0.4)]);
    assert_eq!(pair(input.viewport_size), (800.0, 600.0));
    assert_eq!(pair(input.canvas_size), (100.0, 50.0));
    assert_eq!(f32::from_bits(input.brush_radius.bits), 5.0);
    assert_eq!(f32::from_bits(input.brush_color[2].bits), 0.3);
    assert!(input.cursor_screen_pos.is_none());
}

#[test]
fn the_right_button_drags() {
    let mut view = CanvasViewport::new();
    view.press_right(point(10.0, 10.0));
    assert!(view.move_to(point(500.0, -70.0)).is_none());
    assert!(view.move_to(point(25.0, 4.0)).is_none());
    // Only the last position counts.
    assert_eq!(pan_zoom(&view), (47.0, 26.0, 1.0));
    view.release_right();
    assert!(view.move_to(point(300.0, 300.0)).is_none());
    assert_eq!(pan_zoom(&view), (47.0, 26.0, 1.0));
}

#[test]
fn the_middle_button_drags() {
    let mut view = CanvasViewport::new();
    view.press_middle(point(0.0, 0.0));
    view.move_to(point(1.5, 2.5));
    assert_eq!(pan_zoom(&view), (33.5, 34.5, 1.0));
    view.release_middle();
    view.move_to(point(9.0, 9.0));
    assert_eq!(pan_zoom(&view), (33.5, 34.5, 1.0));
}

#[test]
fn a_drag_with_the_right_button_goes_first() {
    let mut view = CanvasViewport::new();
    view.press_middle(point(0.0, 0.0));
    view.press_right(point(10.0, 0.0));
    view.move_to(point(20.0, 0.0));
    assert_eq!(pan_zoom(&view), (42.0, 32.0, 1.0));
    view.release_right();
    view.move_to(point(21.0, 0.0));
    assert_eq!(pan_zoom(&view), (53.0, 32.0, 1.0));
}

#[test]
fn the_pan_tool_drags_with_the_left_button() {
    let mut view = CanvasViewport::new();
    assert!(view.press_left(point(0.0, 0.0), Some(String::from("a")), &brush(ActiveTool::Pan)).is_none());
    assert!(view.stroke().is_none());
    view.move_to(point(-8.0, 3.0));
    assert_eq!(pan_zoom(&view), (24.0, 35.0, 1.0));
    assert!(view.release_left().is_none());
    view.move_to(point(100.0, 100.0));
    assert_eq!(pan_zoom(&view), (24.0, 35.0, 1.0));
}

#[test]
fn a_press_without_a_move_leaves_the_canvas() {
    let mut view = CanvasViewport::new();
    view.press_right(point(123.456, 0.1));
    view.move_to(point(123.456, 0.1));
    assert_eq!(pan_zoom(&view), (32.0, 32.0, 1.0));
}

#[test]
fn tools_without_a_stroke() {
    for tool in [ActiveTool::Fill, ActiveTool::Eyedropper] {
        let mut view = CanvasViewport::new();
        assert!(view.press_left(point(0.0, 0.0), Some(String::from("a")), &brush(tool)).is_none());
        assert!(view.stroke().is_none());
        view.move_to(point(10.0, 10.0));
        assert_eq!(pan_zoom(&view), (32.0, 32.0, 1.0));
    }
}

#[test]
fn no_layer_no_stroke() {
    let mut view = CanvasViewport::new();
    assert!(view.press_left(point(40.0, 40.0), None, &brush(ActiveTool::Paint)).is_none());
    assert!(view.stroke().is_none());
    assert!(view.release_left().is_none());
}

#[test]
fn a_stroke_from_press_to_release() {
    let mut view = CanvasViewport::new();
    let seed = view.press_left(point(132.0, 42.0), Some(String::from("a")), &brush(ActiveTool::Paint)).unwrap();
    assert_eq!(pair(seed.pos), (100.0, 10.0));
    assert_eq!(pair(seed.dir), (1.0, 0.0));
    assert!(view.cursor_overlay(single(10.0)).is_none());
    let mut wet = view.stroke().unwrap().wet_for(0, 0);
    wet[3] = 255;
    let stamps = vec![TileStamp { raw: vec![], wet }];
    assert!(view.stroke().unwrap().accepts_stamp(&seed, &stamps));
    view.stamp_sample(&seed, stamps);
    // A fifth of the way at first.
    let mut run = view.move_to(point(232.0, 42.0)).unwrap();
    assert_eq!(f32::from_bits(run.dist.bits), 20.0);
    let first = run.next().unwrap();
    assert_eq!(pair(first.pos).1, 10.0);
    assert!(view.cursor_overlay(single(10.0)).unwrap().painting);
    let commit = view.release_left().unwrap();
    assert_eq!(commit.layer_id, "a");
    assert_eq!(commit.tiles.len(), 1);
    assert_eq!(commit.tiles[0].before, vec![0; TILE_BYTES]);
    assert_eq!(commit.tiles[0].current[3], 255);
    assert!(view.stroke().is_none());
    assert!(view.finish_stroke().is_none());
    assert!(!view.cursor_overlay(single(10.0)).unwrap().painting);
}

#[test]
fn a_stroke_waits_while_the_canvas_is_dragged() {
    let mut view = CanvasViewport::new();
    view.press_left(point(132.0, 42.0), Some(String::from("a")), &brush(ActiveTool::Erase));
    view.press_middle(point(0.0, 0.0));
    assert!(view.move_to(point(50.0, 0.0)).is_none());
    assert!(view.stroke().is_some());
    view.release_middle();
    assert!(view.move_to(point(400.0, 42.0)).is_some());
}

#[test]
fn the_direction_stays_for_the_next_stroke() {
    let mut view = CanvasViewport::new();
    view.start_stroke(point(0.0, 0.0), Some(String::from("a")), &brush(ActiveTool::Paint));
    for i in 1..60 {
        view.continue_stroke(point(0.0, i as f32 * 10.0));
    }
    let dir = pair(view.stroke().unwrap().direction());
    assert!(dir.1 > 0.99);
    assert!(view.finish_stroke().is_none());
    view.move_to(point(9.0, 9.0));
    view.scroll(point(9.0, 9.0), ScrollDelta::Lines(single(1.0)));
    let seed = view.start_stroke(point(5.0, 5.0), Some(String::from("a")), &brush(ActiveTool::Paint)).unwrap();
    assert_eq!(pair(seed.dir), dir);
}

#[test]
fn a_stroke_that_never_began_does_not_go_on() {
    let mut view = CanvasViewport::new();
    assert!(view.continue_stroke(point(3.0, 3.0)).is_none());
    let sample = StampSample {
        pos: point(0.0, 0.0),
        dir: point(1.0, 0.0),
        axis_scale: single(1.0),
        flow_scale: single(1.0),
    };
    view.stamp_sample(&sample, vec![]);
    assert!(view.stroke().is_none());
}

#[test]
fn the_wheel_zooms_around_the_pointer() {
    let mut view = CanvasViewport::new();
    view.set_layout(point(10.0, 20.0), point(800.0, 600.0));
    let mut zoom = 1.0f32;
    let mut pan = (32.0f32, 32.0f32);
    for (i, turn) in [-1.0f32, -3.0, 2.0, 0.0, -0.0, -5.0, f32::NAN, 1.0].iter().enumerate() {
        let win = (100.0 + 37.0 * i as f32, 300.0 - 11.0 * i as f32);
        let local = (win.0 - 10.0, win.1 - 20.0);
        let focus = ((local.0 - pan.0) / zoom, (local.1 - pan.1) / zoom);
        let factor = if *turn < 0.0 { 1.1f32 } else { 0.9f32 };
        zoom = (zoom * factor).clamp(0.05, 32.0);
        pan = (local.0 - focus.0 * zoom, local.1 - focus.1 * zoom);
        view.scroll(point(win.0, win.1), ScrollDelta::Pixels(single(*turn)));
        assert_eq!(pan_zoom(&view), (pan.0, pan.1, zoom));
        // The point under the pointer is still there, but for rounding.
        let now = pair(view.canvas_of_local(view.to_local(point(win.0, win.1))));
        assert!((now.0 - focus.0).abs() * zoom < 0.001);
        assert!((now.1 - focus.1).abs() * zoom < 0.001);
    }
}

#[test]
fn the_zoom_stays_within_its_bounds() {
    let mut view = CanvasViewport::new();
    for _ in 0..100 {
        view.scroll(point(0.0, 0.0), ScrollDelta::Lines(single(-1.0)));
    }
    assert_eq!(pan_zoom(&view).2, 32.0);
    for _ in 0..200 {
        view.scroll(point(0.0, 0.0), ScrollDelta::Lines(single(1.0)));
    }
    assert_eq!(pan_zoom(&view).2, 0.05);
}

#[test]
fn the_ring_and_the_cross() {
    let mut view = CanvasViewport::new();
    view.set_layout(point(7.0, 7.0), point(10.0, 10.0));
    view.move_to(point(50.0, 60.0));
    let overlay = view.cursor_overlay(single(30.0)).unwrap();
    assert_eq!(pair(overlay.center), (50.0, 60.0));
    assert_eq!(f32::from_bits(overlay.radius.bits), 15.0);
    assert!(!overlay.painting);
    assert_eq!(pair(overlay.left), (46.0, 60.0));
    assert_eq!(pair(overlay.right), (54.0, 60.0));
    assert_eq!(pair(overlay.top), (50.0, 56.0));
    assert_eq!(pair(overlay.bottom), (50.0, 64.0));
    // A ring is never too small to be seen.
    assert_eq!(f32::from_bits(view.cursor_overlay(single(1.0)).unwrap().radius.bits), 2.0);
    // A frame takes the pointer in local coordinates, and the radius as it is.
    let input = view.render_input(1, 1, single(1.0), [single(0.0); 4]);
    assert_eq!(pair(input.cursor_screen_pos.unwrap()), (43.0, 53.0));
    assert_eq!(f32::from_bits(input.brush_radius.bits), 0.5);
}

#[test]
fn a_pointer_at_the_pan_is_at_the_origin() {
    let mut view = CanvasViewport::new();
    for i in 0..40 {
        let turn = if i % 3 == 0 { 1.0 } else { -1.0 };
        view.scroll(point(17.3 * i as f32, 900.1 - i as f32), ScrollDelta::Lines(single(turn)));
        let (x, y, _) = pan_zoom(&view);
        let origin = view.canvas_of_local(point(x, y));
        assert_eq!((origin.x.bits, origin.y.bits), (0, 0));
    }
}

#[test]
fn a_point_is_found_again_from_where_it_is_shown() {
    let mut view = CanvasViewport::new();
    for i in 0..40 {
        let turn = if i % 5 == 0 { 1.0 } else { -1.0 };
        view.scroll(point(31.7 * i as f32, 7.0), ScrollDelta::Lines(single(turn)));
        let (px, py, zoom) = pan_zoom(&view);
        for (x, y) in [(0.0f32, 0.0f32), (100.5, -3.25), (8191.9, 4000.1), (-1e6, 1e-6), (1e30, -1e38)] {
            let shown = point(px + x * zoom, py + y * zoom);
            let back = pair(view.canvas_of_local(shown));
            let slack = |pan: f32, at: f32| ((pan as f64).abs() + (at as f64).abs() * zoom as f64 + 1.0) / 2097152.0;
            if back.0.is_finite() {
                assert!((back.0 as f64 - x as f64).abs() * zoom as f64 <= slack(px, x));
            }
            if back.1.is_finite() {
                assert!((back.1 as f64 - y as f64).abs() * zoom as f64 <= slack(py, y));
            }
            assert!(x > 1e20 || back.0.is_finite());
        }
    }
}
