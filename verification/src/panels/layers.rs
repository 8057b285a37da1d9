//! The panel that lists the layers of a document.

use crate::layer::Layer;
use crate::text;
use crate::ui::icon::IconName;
use vstd::prelude::*;

verus! {

/// How thick a text is written.
#[derive(Clone, Copy, Debug, PartialEq, Eq, Structural)]
pub enum FontWeight {
    Normal,
    Semibold,
}

/// What a row is filled with.
#[derive(Clone, Copy, Debug, PartialEq, Eq, Structural)]
pub enum RowFill {
    /// The background colour of the theme.
    Background,
    /// The accent colour of the theme, mostly transparent.
    Accent,
}

/// The row of one layer.
pub struct LayerRow {
    /// The layer that the row and its buttons act on.
    pub layer_id: String,
    pub name: String,
    pub weight: FontWeight,
    pub fill: RowFill,
    /// Whether the left edge is drawn in the accent colour.
    pub accent_edge: bool,
    /// The button that hides or shows the layer.
    pub visibility_button: String,
    pub visibility_icon: IconName,
    /// The button that deletes the layer.
    pub delete_button: String,
    pub delete_icon: IconName,
}

impl LayerRow {
    /// Whether this is the row of the layer given, at place `idx` in the list.
    pub open spec fn shows(self, layer: Layer, idx: nat, is_active: bool) -> bool {
        &&& self.layer_id@ == layer.id_text()
        &&& self.name@ == layer.name_text()
        &&& self.weight == if is_active {
            FontWeight::Semibold
        } else {
            FontWeight::Normal
        }
        &&& self.fill == if is_active {
            RowFill::Accent
        } else {
            RowFill::Background
        }
        &&& self.accent_edge == is_active
        &&& self.visibility_button@ == "layer-vis-"@ + text::decimal(idx)
        &&& self.visibility_icon == if layer.is_shown() {
            IconName::Eye
        } else {
            IconName::EyeOff
        }
        &&& self.delete_button@ == "layer-del-"@ + text::decimal(idx)
        &&& self.delete_icon == IconName::Trash
    }
}

/// Whether a layer is the active one.
pub open spec fn is_active(layer: Layer, active: Option<&String>) -> bool {
    match active {
        Some(id) => id@ == layer.id_text(),
        None => false,
    }
}

/// What the panel shows.
pub struct LayersPanel {
    /// How many layers there are: a new one is numbered by it.
    pub layer_count: usize,
    /// A row for each layer, in the order of the layers.
    pub rows: Vec<LayerRow>,
}

/// The row of a layer at place `idx` in the list.
pub fn render_layer_item(layer: &Layer, idx: usize, is_active: bool) -> (r: LayerRow)
    ensures
        r.shows(*layer, idx as nat, is_active),
{
    let mut visibility_button: String = "layer-vis-".to_owned();
    text::push_decimal(&mut visibility_button, idx as u128);
    let mut delete_button: String = "layer-del-".to_owned();
    text::push_decimal(&mut delete_button, idx as u128);
    LayerRow {
        layer_id: layer.id().clone(),
        name: layer.name().clone(),
        weight: if is_active {
            FontWeight::Semibold
        } else {
            FontWeight::Normal
        },
        fill: if is_active {
            RowFill::Accent
        } else {
            RowFill::Background
        },
        accent_edge: is_active,
        visibility_button,
        visibility_icon: if layer.visible() {
            IconName::Eye
        } else {
            IconName::EyeOff
        },
        delete_button,
        delete_icon: IconName::Trash,
    }
}

/// The panel of the layers given, one of which may be the active one.
pub fn render_layers_panel(layers: &Vec<Layer>, active: Option<&String>) -> (r: LayersPanel)
    ensures
        r.layer_count == layers.len(),
        r.rows.len() == layers.len(),
        forall|i: int|
            0 <= i < layers.len() ==> (#[trigger] r.rows[i]).shows(
                layers[i],
                i as nat,
                is_active(layers[i], active),
            ),
{
    let mut rows: Vec<LayerRow> = Vec::new();
    let mut idx: usize = 0;
    while idx < layers.len()
        invariant
            idx <= layers.len(),
            rows.len() == idx,
            forall|i: int|
                0 <= i < idx ==> (#[trigger] rows[i]).shows(
                    layers[i],
                    i as nat,
                    is_active(layers[i], active),
                ),
        decreases layers.len() - idx,
    {
        let layer: &Layer = &layers[idx];
        let active_row: bool = match active {
            Some(id) => *id == *layer.id(),
            None => false,
        };
        rows.push(render_layer_item(layer, idx, active_row));
        idx = idx + 1;
    }
    LayersPanel { layer_count: layers.len(), rows }
}

/// Where no two layers share an id, at most one row is marked as active.
pub proof fn law_one_active_row(layers: Seq<Layer>, active: Option<&String>, i: int, j: int)
    requires
        forall|m: int, n: int|
            0 <= m < n < layers.len() ==> (#[trigger] layers[m]).id_text() != (
            #[trigger] layers[n]).id_text(),
        0 <= i < layers.len(),
        0 <= j < layers.len(),
        is_active(layers[i], active),
        is_active(layers[j], active),
    ensures
        i == j,
{
}

/// The row of a layer names the layer, is marked if and only if the layer is the active one, and
/// tells by its icon whether the layer is to be seen. Its buttons are numbered by its place.
pub proof fn law_row_tells_the_layer(row: LayerRow, layer: Layer, idx: nat, active: bool)
    requires
        row.shows(layer, idx, active),
    ensures
        row.layer_id@ == layer.id_text(),
        row.name@ == layer.name_text(),
        row.weight is Semibold <==> active,
        row.fill is Accent <==> active,
        row.accent_edge <==> active,
        row.visibility_icon is Eye <==> layer.is_shown(),
        row.visibility_icon is EyeOff <==> !layer.is_shown(),
        row.delete_icon is Trash,
        row.visibility_button@ == "layer-vis-"@ + text::decimal(idx),
        row.delete_button@ == "layer-del-"@ + text::decimal(idx),
{
}

/// A layer is the active one if and only if its id is the one given; without one none is.
pub proof fn law_active_by_id(layer: Layer, id: &String)
    ensures
        is_active(layer, Some(id)) <==> layer.id_text() == id@,
        !is_active(layer, None),
{
}

} // verus!
