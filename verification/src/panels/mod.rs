//! What the panels at the sides of the canvas show.

pub mod identity;
pub mod layers;
pub mod properties;
