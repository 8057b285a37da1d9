//! The canvas of a raster painting program: binary32 arithmetic, brush strokes,
//! tile compositing, frame planning and the panels around the canvas.

pub mod binary32;
pub mod canvas;
pub mod layer;
pub mod panels;
pub mod text;
pub mod ui;
