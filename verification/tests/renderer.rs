//! What is planned for a frame.

use matter::binary32::single::Single;
use matter::canvas::geometry::Point;
use matter::canvas::renderer::{word_bytes, ByteOrder, CanvasRenderInput, CanvasRenderer, FramePlan};
use matter::layer::{any_layer, Layer};

fn single(x: f32) -> Single {
    Single { bits: x.to_bits() }
}

fn point(x: f32, y: f32) -> Point {
    Point { x: single(x), y: single(y) }
}

fn raster(id: &str, visible: bool) -> Layer {
    Layer::Raster { id: String::from(id), name: String::from("r"), visible }
}

fn vector(id: &str, visible: bool) -> Layer {
    Layer::Vector { id: String::from(id), name: String::from("v"), visible }
}

fn input(viewport: Point) -> CanvasRenderInput {
    CanvasRenderInput {
        pan_offset: point(1.5, -2.5),
        zoom: single(0.75),
        canvas_size: point(64.0, 32.0),
        viewport_size: viewport,
        cursor_screen_pos: None,
        brush_radius: single(3.0),
        brush_color: [single(0.0); 4],
    }
}

fn frame(renderer: &mut CanvasRenderer, layers: &Vec<Layer>, w: u32, h: u32) -> FramePlan {
    renderer.render_frame(640, 480, &input(point(320.0, 240.0)), layers, w, h)
}

fn floats(words: &Vec<u32>) -> Vec<f32> {
    words.iter().map(|w| f32::from_bits(*w)).collect()
}

fn created(plan: &FramePlan) -> Vec<(String, bool)> {
    plan.sync.iter().map(|s| (s.id.clone(), s.create)).collect()
}

fn drawn(plan: &FramePlan) -> Vec<String> {
    plan.draws.iter().map(|d| d.id.clone()).collect()
}

#[test]
fn the_first_frame_makes_everything() {
    let mut renderer = CanvasRenderer::new();
    let layers = vec![raster("a", true), vector("b", false), raster("c", true)];
    let plan = frame(&mut renderer, &layers, 64, 32);
    assert!(plan.create_state);
    assert_eq!(
        created(&plan),
        vec![(String::from("a"), true), (String::from("b"), true), (String::from("c"), true)],
    );
    assert_eq!(plan.dropped.len(), 0);
    assert_eq!(drawn(&plan), vec!["a", "c"]);
}

#[test]
fn a_steady_frame_makes_nothing() {
    let mut renderer = CanvasRenderer::new();
    let layers = vec![raster("a", true), vector("b", false)];
    frame(&mut renderer, &layers, 64, 32);
    let plan = frame(&mut renderer, &layers, 64, 32);
    assert!(!plan.create_state);
    assert_eq!(created(&plan), vec![(String::from("a"), false), (String::from("b"), false)]);
    assert_eq!(plan.dropped.len(), 0);
    assert_eq!(drawn(&plan), vec!["a"]);
}

#[test]
fn a_canvas_of_another_size_takes_new_textures() {
    let mut renderer = CanvasRenderer::new();
    let layers = vec![raster("a", true)];
    frame(&mut renderer, &layers, 64, 32);
    assert_eq!(created(&frame(&mut renderer, &layers, 64, 33)), vec![(String::from("a"), true)]);
    assert_eq!(created(&frame(&mut renderer, &layers, 65, 33)), vec![(String::from("a"), true)]);
    assert_eq!(created(&frame(&mut renderer, &layers, 65, 33)), vec![(String::from("a"), false)]);
}

#[test]
fn layers_that_are_gone_are_dropped_once() {
    let mut renderer = CanvasRenderer::new();
    frame(&mut renderer, &vec![raster("a", true), raster("b", true), raster("c", true)], 8, 8);
    let plan = frame(&mut renderer, &vec![raster("b", true), raster("d", true)], 8, 8);
    let mut dropped = plan.dropped.clone();
    dropped.sort();
    assert_eq!(dropped, vec!["a", "c"]);
    assert_eq!(created(&plan), vec![(String::from("b"), false), (String::from("d"), true)]);
    let plan = frame(&mut renderer, &vec![raster("b", true), raster("d", true)], 8, 8);
    assert_eq!(plan.dropped.len(), 0);
    // A layer that comes back takes a texture again.
    assert_eq!(created(&frame(&mut renderer, &vec![raster("a", true)], 8, 8)), vec![(String::from("a"), true)]);
}

#[test]
fn layers_that_share_an_id_share_a_texture() {
    let mut renderer = CanvasRenderer::new();
    let plan = frame(&mut renderer, &vec![raster("a", true), vector("a", true)], 8, 8);
    assert_eq!(created(&plan), vec![(String::from("a"), true), (String::from("a"), false)]);
    assert_eq!(drawn(&plan), vec!["a", "a"]);
}

#[test]
fn no_layers() {
    let mut renderer = CanvasRenderer::new();
    let plan = frame(&mut renderer, &vec![], 8, 8);
    assert!(plan.create_state);
    assert_eq!(plan.sync.len() + plan.dropped.len() + plan.draws.len(), 0);
}

#[test]
fn uniforms_for_the_size_of_the_element() {
    let mut renderer = CanvasRenderer::new();
    let plan = frame(&mut renderer, &vec![], 8, 8);
    assert_eq!(floats(&plan.grid), vec![1.5, -2.5, 0.75, 0.0, 320.0, 240.0, 64.0, 32.0]);
    assert_eq!(floats(&plan.tile), vec![1.5, -2.5, 0.75, 0.0, 320.0, 240.0, 0.0, 0.0]);
}

#[test]
fn uniforms_before_the_first_layout() {
    for size in [point(0.0, 0.0), point(10.0, 0.0), point(-1.0, 10.0), point(f32::NAN, 5.0)] {
        let mut renderer = CanvasRenderer::new();
        let plan = renderer.render_frame(640, 480, &input(size), &vec![], 8, 8);
        assert_eq!(floats(&plan.grid), vec![1.5, -2.5, 0.75, 0.0, 640.0, 480.0, 64.0, 32.0]);
        assert_eq!(floats(&plan.tile), vec![1.5, -2.5, 0.75, 0.0, 640.0, 480.0, 0.0, 0.0]);
    }
}

#[test]
fn two_triangles_cover_the_canvas() {
    let mut renderer = CanvasRenderer::new();
    let plan = frame(&mut renderer, &vec![raster("a", true)], 64, 32);
    assert_eq!(
        floats(&plan.draws[0].quad),
        vec![
            0.0, 0.0, 0.0, 0.0, 64.0, 0.0, 1.0, 0.0, 0.0, 32.0, 0.0, 1.0, 64.0, 0.0, 1.0, 0.0, 64.0, 32.0, 1.0, 1.0,
            0.0, 32.0, 0.0, 1.0,
        ],
    );
}

#[test]
fn textures_can_be_synced_without_a_frame() {
    let mut renderer = CanvasRenderer::new();
    let (sync, dropped) = renderer.sync_layers(&vec![raster("a", false)], 8, 8);
    assert!(sync[0].create);
    assert_eq!(dropped.len(), 0);
    // The pipelines are still to be made.
    assert!(frame(&mut renderer, &vec![raster("a", false)], 8, 8).create_state);
}

#[test]
fn layers_are_found_by_id() {
    let layers = vec![raster("a", false), vector("b", true)];
    assert!(any_layer(&layers, &String::from("b")));
    assert!(!any_layer(&layers, &String::from("c")));
    assert_eq!(layers[1].id(), "b");
    assert_eq!(layers[1].name(), "v");
    assert!(layers[1].visible());
    assert!(!layers[0].visible());
}

#[test]
fn words_as_bytes() {
    assert_eq!(word_bytes(&vec![], ByteOrder::Little), vec![]);
    assert_eq!(word_bytes(&vec![0x0102_0304], ByteOrder::Little), vec![4, 3, 2, 1]);
    assert_eq!(word_bytes(&vec![0x0102_0304], ByteOrder::Big), vec![1, 2, 3, 4]);
    let words: Vec<u32> = [1.0f32, -0.75, f32::MAX, f32::NAN, 0.1].iter().map(|x| x.to_bits()).collect();
    let little: Vec<u8> = words.iter().flat_map(|w| w.to_le_bytes()).collect();
    let big: Vec<u8> = words.iter().flat_map(|w| w.to_be_bytes()).collect();
    let native: Vec<u8> = words.iter().flat_map(|w| w.to_ne_bytes()).collect();
    assert_eq!(word_bytes(&words, ByteOrder::Little), little);
    assert_eq!(word_bytes(&words, ByteOrder::Big), big);
    assert!(native == little || native == big);
    // A word is found again in its bytes.
    for (i, word) in words.iter().enumerate() {
        assert_eq!(u32::from_le_bytes([little[4 * i], little[4 * i + 1], little[4 * i + 2], little[4 * i + 3]]), *word);
    }
}

#[test]
fn the_bytes_of_a_quad_are_those_of_its_corners() {
    let mut renderer = CanvasRenderer::new();
    let plan = frame(&mut renderer, &vec![raster("a", true)], 64, 32);
    let quad = &plan.draws[0].quad;
    // Six corners of four words.
    let all = word_bytes(quad, ByteOrder::Little);
    assert_eq!(all.len(), 96);
    let mut corners: Vec<u8> = vec![];
    for corner in quad.chunks(4) {
        let bytes = word_bytes(&corner.to_vec(), ByteOrder::Little);
        assert_eq!(bytes.len(), 16);
        corners.extend(bytes);
    }
    assert_eq!(all, corners);
}
