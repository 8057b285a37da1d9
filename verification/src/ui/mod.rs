//! What the toolbar and the small panels show.

pub mod color_panel;
pub mod icon;
pub mod layer_panel;
pub mod toolbar;
