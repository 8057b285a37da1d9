//! The panel with the names of the layers.

use crate::layer::Layer;
use vstd::prelude::*;

verus! {

/// The colour of the name of a layer that is to be seen.
pub const SHOWN_COLOR: u32 = 0xcccccc;

/// The colour of the name of a layer that is hidden.
pub const HIDDEN_COLOR: u32 = 0x666666;

/// What the panel shows of a layer.
pub struct LayerEntry {
    pub name: String,
    pub text_color: u32,
    /// The sign behind the name.
    pub glyph: &'static str,
}

impl LayerEntry {
    /// Whether this is what the panel shows of the layer given.
    pub open spec fn shows(self, layer: Layer) -> bool {
        &&& self.name@ == layer.name_text()
        &&& self.text_color == if layer.is_shown() {
            SHOWN_COLOR
        } else {
            HIDDEN_COLOR
        }
        &&& self.glyph@ == if layer.is_shown() {
            "👁"@
        } else {
            "🚫"@
        }
    }
}

/// What the panel shows of each layer, in the order of the layers.
pub fn render_layer_panel(layers: Vec<Layer>) -> (r: Vec<LayerEntry>)
    ensures
        r.len() == layers.len(),
        forall|i: int| 0 <= i < layers.len() ==> (#[trigger] r[i]).shows(layers[i]),
{
    let mut entries: Vec<LayerEntry> = Vec::new();
    let mut i: usize = 0;
    while i < layers.len()
        invariant
            i <= layers.len(),
            entries.len() == i,
            forall|k: int| 0 <= k < i ==> (#[trigger] entries[k]).shows(layers[k]),
        decreases layers.len() - i,
    {
        let visible: bool = layers[i].visible();
        entries.push(
            LayerEntry {
                name: layers[i].name().clone(),
                text_color: if visible {
                    SHOWN_COLOR
                } else {
                    HIDDEN_COLOR
                },
                glyph: if visible {
                    "👁"
                } else {
                    "🚫"
                },
            },
        );
        i = i + 1;
    }
    entries
}

/// A layer that is to be seen is told from a hidden one by its colour and by its sign, and
/// its name is shown as it is.
pub proof fn law_entry_tells_visibility(entry: LayerEntry, layer: Layer)
    requires
        entry.shows(layer),
    ensures
        entry.name@ == layer.name_text(),
        layer.is_shown() ==> entry.text_color == 0xcccccc && entry.glyph@ == "👁"@,
        !layer.is_shown() ==> entry.text_color == 0x666666 && entry.glyph@ == "🚫"@,
{
}

} // verus!
