//! The canvas: pixels, tiles, strokes, the viewport and the frames drawn of it.

pub mod accuracy;
pub mod blend;
pub mod carry_laws;
pub mod composite;
pub mod direction_laws;
pub mod formula_laws;
pub mod frame_laws;
pub mod geometry;
pub mod pan_laws;
pub mod pixel_laws;
pub mod renderer;
pub mod same_direction;
pub mod segment_laws;
pub mod speed_laws;
pub mod stamping;
pub mod stroke;
pub mod stroke_laws;
pub mod tiles;
pub mod turn_laws;
pub mod view_laws;
pub mod viewport;
