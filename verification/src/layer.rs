//! The layers of a document, as far as the canvas and the panels look at them.

use vstd::prelude::*;

verus! {

/// A layer.
pub enum Layer {
    Raster { id: String, name: String, visible: bool },
    Vector { id: String, name: String, visible: bool },
}

impl Layer {
    /// What tells the layer from the others.
    pub open spec fn id_text(self) -> Seq<char> {
        match self {
            Layer::Raster { id, .. } => id@,
            Layer::Vector { id, .. } => id@,
        }
    }

    /// What the layer is called.
    pub open spec fn name_text(self) -> Seq<char> {
        match self {
            Layer::Raster { name, .. } => name@,
            Layer::Vector { name, .. } => name@,
        }
    }

    /// Whether the layer is to be seen.
    pub open spec fn is_shown(self) -> bool {
        match self {
            Layer::Raster { visible, .. } => visible,
            Layer::Vector { visible, .. } => visible,
        }
    }

    /// What tells the layer from the others.
    pub fn id(&self) -> (r: &String)
        ensures
            r@ == self.id_text(),
    {
        match self {
            Layer::Raster { id, .. } => id,
            Layer::Vector { id, .. } => id,
        }
    }

    /// What the layer is called.
    pub fn name(&self) -> (r: &String)
        ensures
            r@ == self.name_text(),
    {
        match self {
            Layer::Raster { name, .. } => name,
            Layer::Vector { name, .. } => name,
        }
    }

    /// Whether the layer is to be seen.
    pub fn visible(&self) -> (r: bool)
        ensures
            r == self.is_shown(),
    {
        match self {
            Layer::Raster { visible, .. } => *visible,
            Layer::Vector { visible, .. } => *visible,
        }
    }
}

/// Whether one of the layers has the id given.
pub open spec fn has_layer(layers: Seq<Layer>, id: Seq<char>) -> bool {
    exists|i: int| 0 <= i < layers.len() && (#[trigger] layers[i]).id_text() == id
}

/// Whether one of the layers has the id given.
pub fn any_layer(layers: &Vec<Layer>, id: &String) -> (r: bool)
    ensures
        r == has_layer(layers@, id@),
{
    let mut i: usize = 0;
    while i < layers.len()
        invariant
            i <= layers.len(),
            forall|k: int| 0 <= k < i ==> (#[trigger] layers[k]).id_text() != id@,
        decreases layers.len() - i,
    {
        if *layers[i].id() == *id {
            assert(layers@[i as int].id_text() == id@);
            return true;
        }
        i = i + 1;
    }
    false
}

/// A layer of either kind says of itself what it was made with.
pub proof fn law_layer_parts(id: String, name: String, visible: bool)
    ensures
        (Layer::Raster { id, name, visible }).id_text() == id@,
        (Layer::Raster { id, name, visible }).name_text() == name@,
        (Layer::Raster { id, name, visible }).is_shown() == visible,
        (Layer::Vector { id, name, visible }).id_text() == id@,
        (Layer::Vector { id, name, visible }).name_text() == name@,
        (Layer::Vector { id, name, visible }).is_shown() == visible,
{
}

/// A layer is found by its id wherever it stands, and by no other.
pub proof fn law_layer_found_by_id(layers: Seq<Layer>, more: Seq<Layer>, layer: Layer, id: Seq<char>)
    ensures
        has_layer(layers.push(layer) + more, layer.id_text()),
        has_layer(layers + more, id) <==> (has_layer(layers, id) || has_layer(more, id)),
        has_layer(seq![layer], id) <==> layer.id_text() == id,
        !has_layer(Seq::<Layer>::empty(), id),
{
    let all = layers.push(layer) + more;
    assert(all[layers.len() as int] == layer);
    let both = layers + more;
    if has_layer(layers, id) {
        let i = choose|i: int| 0 <= i < layers.len() && (#[trigger] layers[i]).id_text() == id;
        assert(both[i].id_text() == id);
    }
    if has_layer(more, id) {
        let i = choose|i: int| 0 <= i < more.len() && (#[trigger] more[i]).id_text() == id;
        assert(both[layers.len() + i].id_text() == id);
    }
    if has_layer(both, id) {
        let i = choose|i: int| 0 <= i < both.len() && (#[trigger] both[i]).id_text() == id;
        if i < layers.len() {
            assert(layers[i].id_text() == id);
        } else {
            assert(more[i - layers.len()].id_text() == id);
        }
    }
    if layer.id_text() == id {
        assert(seq![layer][0].id_text() == id);
    }
}

} // verus!
