//! The constants that are given as bit patterns.

use matter::canvas::blend;
use matter::canvas::stamping;
use matter::canvas::stroke;
use matter::canvas::viewport;
use matter::panels::properties;
use matter::ui::color_panel;

#[test]
fn constants_of_the_blend() {
    assert_eq!(blend::ZERO, 0.0f32.to_bits());
    assert_eq!(blend::ONE, 1.0f32.to_bits());
    assert_eq!(blend::FULL, 255.0f32.to_bits());
}

#[test]
fn constants_of_the_stamps() {
    assert_eq!(stamping::ZERO, 0.0f32.to_bits());
    assert_eq!(stamping::LEAST_DIRECTION, 0.0001f32.to_bits());
    assert_eq!(stamping::STEP_MARGIN, 0.001f32.to_bits());
    assert_eq!(stamping::LEAST_SEGMENT, 0.01f32.to_bits());
    assert_eq!(stamping::LEAST_TREND, 0.1f32.to_bits());
    assert_eq!(stamping::LEAST_STEP_SHARE, 0.15f32.to_bits());
    assert_eq!(stamping::DIRECTION_GAIN, 0.20f32.to_bits());
    assert_eq!(stamping::LEAST_STEP, 0.25f32.to_bits());
    assert_eq!(stamping::SPEED_GAIN, 0.35f32.to_bits());
    assert_eq!(stamping::LEAST_FLOW, 0.35f32.to_bits());
    assert_eq!(stamping::LEAST_AXIS, 0.45f32.to_bits());
    assert_eq!(stamping::AXIS_GAIN, 0.55f32.to_bits());
    assert_eq!(stamping::MOST_STEP_SHARE, 0.70f32.to_bits());
    assert_eq!(stamping::FLOW_GAIN, 0.8f32.to_bits());
    assert_eq!(stamping::ONE, 1.0f32.to_bits());
    assert_eq!(stamping::SPACING_GAIN, 1.10f32.to_bits());
    assert_eq!(stamping::MOST_SPACING, 2.6f32.to_bits());
    assert_eq!(stamping::SMALL_BRUSH, 24.0f32.to_bits());
    assert_eq!(stamping::BRUSH_RANGE, 96.0f32.to_bits());
    assert_eq!(stamping::DIR_WINDOW, 12);
}

#[test]
fn constants_of_the_stroke() {
    assert_eq!(stroke::LEAST_FLOW, 0.01f32.to_bits());
    assert_eq!(stroke::LEAST_SPACING, 0.05f32.to_bits());
    assert_eq!(stroke::PLAIN_SPACING, 0.20f32.to_bits());
    assert_eq!(stroke::MOST_SPACING, 0.75f32.to_bits());
    assert_eq!(stroke::LEAST_FOLLOW, 0.20f32.to_bits());
    assert_eq!(stroke::FOLLOW_GAIN, 0.25f32.to_bits());
    assert_eq!(stroke::MOST_FOLLOW_GAIN, 0.40f32.to_bits());
    assert_eq!(stroke::MOST_FOLLOW, 0.60f32.to_bits());
    assert_eq!(stroke::HALF, 0.5f32.to_bits());
}

#[test]
fn constants_of_the_view() {
    assert_eq!(viewport::ZOOM_MIN, 0.05f32.to_bits());
    assert_eq!(viewport::ZOOM_MAX, 32.0f32.to_bits());
    assert_eq!(viewport::ZOOM_IN, 1.1f32.to_bits());
    assert_eq!(viewport::ZOOM_OUT, 0.9f32.to_bits());
    assert_eq!(viewport::LINE_PIXELS, 32.0f32.to_bits());
    assert_eq!(viewport::FIRST_PAN, 32.0f32.to_bits());
    assert_eq!(viewport::LEAST_RING, 2.0f32.to_bits());
    assert_eq!(viewport::CROSS_ARM, 4.0f32.to_bits());
}

#[test]
fn constants_of_the_panels() {
    assert_eq!(properties::PERCENT, 100.0f32.to_bits());
    assert_eq!(color_panel::FULL, 255.0f32.to_bits());
}
