//! What is drawn in a frame.
//!
//! The grid is drawn first, then one quad for each visible layer, textured with the
//! layer put together from its tiles. The renderer keeps one texture for each layer
//! of the document, all of the size of the canvas.

use super::geometry::{Place, Point};
use super::stamping;
use crate::binary32::num::Num;
use crate::binary32::single::Single;
use crate::layer;
use crate::layer::Layer;
use vstd::prelude::*;

verus! {

/// What a frame is drawn of.
pub struct CanvasRenderInput {
    /// Where the corner of the canvas is, in local coordinates.
    pub pan_offset: Point,
    pub zoom: Single,
    pub canvas_size: Point,
    /// The size of the element, zero before the first layout.
    pub viewport_size: Point,
    /// The pointer, in local coordinates.
    pub cursor_screen_pos: Option<Point>,
    pub brush_radius: Single,
    pub brush_color: [Single; 4],
}

impl CanvasRenderInput {
    /// The size that the frame is drawn for: that of the element, or that of the
    /// surface before the first layout.
    pub open spec fn view_size(self, width: u32, height: u32) -> Place {
        let zero = Single::value(stamping::ZERO);
        if zero.below(self.viewport_size.x@) && zero.below(self.viewport_size.y@) {
            self.viewport_size@
        } else {
            Place { x: Num::of_nat(width as nat), y: Num::of_nat(height as nat) }
        }
    }
}

/// A texture that holds a layer.
struct LayerTexture {
    id: String,
    width: u32,
    height: u32,
}

/// What is to be done for a layer before it is drawn.
pub struct LayerSync {
    pub id: String,
    /// Whether a texture is to be made first.
    pub create: bool,
}

/// A layer to be drawn.
pub struct LayerDraw {
    pub id: String,
    /// Two triangles of four words for each corner: its place on the canvas, and its
    /// place on the texture.
    pub quad: Vec<u32>,
}

/// What is to be done for a frame.
pub struct FramePlan {
    /// Whether the pipelines are to be made first.
    pub create_state: bool,
    /// The uniforms of the grid, as words in memory order.
    pub grid: Vec<u32>,
    /// The uniforms of the layers, as words in memory order.
    pub tile: Vec<u32>,
    /// What is to be done for each layer, in the order of the layers.
    pub sync: Vec<LayerSync>,
    /// The layers whose textures are no longer needed.
    pub dropped: Vec<String>,
    /// The layers to be drawn, from the bottom.
    pub draws: Vec<LayerDraw>,
}

/// Whether words in memory order stand for the numbers given.
pub open spec fn words_mean(words: Seq<u32>, nums: Seq<Num>) -> bool {
    &&& words.len() == nums.len()
    &&& forall|i: int| 0 <= i < nums.len() ==> Single::value(#[trigger] words[i]) == nums[i]
}

/// The order in which a machine keeps the bytes of a word.
#[derive(Clone, Copy, Debug, PartialEq, Eq, Structural)]
pub enum ByteOrder {
    /// The lowest byte first.
    Little,
    /// The highest byte first.
    Big,
}

/// The byte at place `k` of a word, the lowest one being at place zero.
pub open spec fn low_byte(word: u32, k: int) -> u8 {
    if k == 0 {
        (word % 0x100) as u8
    } else if k == 1 {
        (word / 0x100 % 0x100) as u8
    } else if k == 2 {
        (word / 0x1_0000 % 0x100) as u8
    } else {
        (word / 0x100_0000) as u8
    }
}

/// The byte at place `k` of a word in memory.
pub open spec fn memory_byte(word: u32, order: ByteOrder, k: int) -> u8 {
    match order {
        ByteOrder::Little => low_byte(word, k),
        ByteOrder::Big => low_byte(word, 3 - k),
    }
}

/// The bytes of words in memory, one word after the other.
pub open spec fn memory_bytes(words: Seq<u32>, order: ByteOrder) -> Seq<u8> {
    Seq::new(4 * words.len(), |i: int| memory_byte(words[i / 4], order, i % 4))
}

/// The bytes of words in memory order, one word after the other.
pub fn word_bytes(words: &Vec<u32>, order: ByteOrder) -> (r: Vec<u8>)
    ensures
        r@ == memory_bytes(words@, order),
{
    let mut r: Vec<u8> = Vec::new();
    for n in 0..words.len()
        invariant
            r@.len() == 4 * n,
            forall|i: int| 0 <= i < r@.len() ==> #[trigger] r@[i] == memory_byte(
                words@[i / 4],
                order,
                i % 4,
            ),
    {
        let word: u32 = words[n];
        let b0: u8 = (word % 0x100) as u8;
        let b1: u8 = (word / 0x100 % 0x100) as u8;
        let b2: u8 = (word / 0x1_0000 % 0x100) as u8;
        let b3: u8 = (word / 0x100_0000) as u8;
        match order {
            ByteOrder::Little => {
                r.push(b0);
                r.push(b1);
                r.push(b2);
                r.push(b3);
            },
            ByteOrder::Big => {
                r.push(b3);
                r.push(b2);
                r.push(b1);
                r.push(b0);
            },
        }
    }
    r
}

/// The bytes of words that follow on others follow on the bytes of those.
pub proof fn law_bytes_follow(words: Seq<u32>, more: Seq<u32>, order: ByteOrder)
    ensures
        memory_bytes(words + more, order) == memory_bytes(words, order) + memory_bytes(
            more,
            order,
        ),
{
    let all = memory_bytes(words + more, order);
    let parts = memory_bytes(words, order) + memory_bytes(more, order);
    assert forall|i: int| 0 <= i < all.len() implies all[i] == parts[i] by {
        if i >= 4 * words.len() {
            let j = i - 4 * words.len();
            assert(i / 4 == words.len() + j / 4 && i % 4 == j % 4);
        }
    }
    assert(all =~= parts);
}

/// The bytes of values that lie one after the other, each of them made of words, are the
/// bytes of the values in order. Where each is of `k` words they are `4 * k` for each.
pub proof fn law_bytes_of_values(values: Seq<Seq<u32>>, k: nat, order: ByteOrder)
    ensures
        memory_bytes(values.flatten(), order) == values.map_values(
            |value: Seq<u32>| memory_bytes(value, order),
        ).flatten(),
        (forall|i: int| 0 <= i < values.len() ==> (#[trigger] values[i]).len() == k)
            ==> memory_bytes(values.flatten(), order).len() == values.len() * (4 * k),
    decreases values.len(),
{
    let each = |value: Seq<u32>| memory_bytes(value, order);
    if values.len() == 0 {
        assert(memory_bytes(values.flatten(), order) =~= values.map_values(each).flatten());
    } else {
        let rest = values.drop_first();
        law_bytes_of_values(rest, k, order);
        law_bytes_follow(values.first(), rest.flatten(), order);
        assert(values.map_values(each).drop_first() =~= rest.map_values(each));
        assert(values.map_values(each).first() == each(values.first()));
        if forall|i: int| 0 <= i < values.len() ==> (#[trigger] values[i]).len() == k {
            assert forall|i: int| 0 <= i < rest.len() implies (#[trigger] rest[i]).len() == k by {
                assert(rest[i] == values[i + 1]);
            }
            assert(values.len() * (4 * k) == rest.len() * (4 * k) + 4 * k) by (nonlinear_arith)
                requires
                    values.len() == rest.len() + 1,
            ;
        }
    }
}

/// Nothing of a word is lost in its bytes.
#[verifier::rlimit(40)]
pub proof fn law_bytes_make_word(word: u32)
    ensures
        word == low_byte(word, 0) + 0x100 * low_byte(word, 1) + 0x1_0000 * low_byte(word, 2)
            + 0x100_0000 * low_byte(word, 3),
{
    let a = word as int / 0x100;
    let b = word as int / 0x1_0000;
    let c = word as int / 0x100_0000;
    assert(a / 0x100 == b);
    assert(b / 0x100 == c);
    assert(word == 0x100 * a + word as int % 0x100);
    assert(a == 0x100 * b + a % 0x100);
    assert(b == 0x100 * c + b % 0x100);
    assert(low_byte(word, 0) == word as int % 0x100);
    assert(low_byte(word, 1) == a % 0x100);
    assert(low_byte(word, 2) == b % 0x100);
    assert(low_byte(word, 3) == c);
}

/// The uniforms of the grid: pan, zoom, a gap, the size of the view, the size of the
/// canvas.
pub open spec fn grid_uniforms(input: CanvasRenderInput, view: Place) -> Seq<Num> {
    seq![
        input.pan_offset.x@,
        input.pan_offset.y@,
        input.zoom@,
        Single::value(stamping::ZERO),
        view.x,
        view.y,
        input.canvas_size.x@,
        input.canvas_size.y@,
    ]
}

/// The uniforms of the layers: pan, zoom, a gap, the size of the view, a gap.
pub open spec fn tile_uniforms(input: CanvasRenderInput, view: Place) -> Seq<Num> {
    let gap = Single::value(stamping::ZERO);
    seq![
        input.pan_offset.x@,
        input.pan_offset.y@,
        input.zoom@,
        gap,
        view.x,
        view.y,
        gap,
        gap,
    ]
}

/// A corner of a quad: its place on the canvas, then its place on the texture.
pub open spec fn corner(x: Num, y: Num, u: Num, v: Num) -> Seq<Num> {
    seq![x, y, u, v]
}

/// Two triangles that cover a canvas of the size given.
pub open spec fn canvas_quad(width: u32, height: u32) -> Seq<Num> {
    let zero = Single::value(stamping::ZERO);
    let one = Single::value(stamping::ONE);
    let w = Num::of_nat(width as nat);
    let h = Num::of_nat(height as nat);
    corner(zero, zero, zero, zero) + corner(w, zero, one, zero) + corner(zero, h, zero, one)
        + corner(w, zero, one, zero) + corner(w, h, one, one) + corner(zero, h, zero, one)
}

/// The layers that are to be seen, in order.
pub open spec fn shown_layers(layers: Seq<Layer>) -> Seq<Layer> {
    layers.filter(|layer: Layer| layer.is_shown())
}

/// The textures of the layers.
pub struct CanvasRenderer {
    ready: bool,
    textures: Vec<LayerTexture>,
}

impl CanvasRenderer {
    /// Whether the pipelines have been made.
    pub closed spec fn is_ready(self) -> bool {
        self.ready
    }

    /// Whether texture `i` is that of the layer.
    closed spec fn holds_at(self, i: int, id: Seq<char>) -> bool {
        0 <= i < self.textures.len() && self.textures[i].id@ == id
    }

    /// The size of the texture of a layer, if it has one.
    pub closed spec fn texture_of(self, id: Seq<char>) -> Option<(u32, u32)> {
        if exists|i: int| self.holds_at(i, id) {
            let i = choose|i: int| self.holds_at(i, id);
            Some((self.textures[i].width, self.textures[i].height))
        } else {
            None
        }
    }

    /// Whether the textures are in line with the layers: each layer has one of the size
    /// of the canvas, and there are no others.
    pub open spec fn in_line(self, layers: Seq<Layer>, width: u32, height: u32) -> bool {
        forall|id: Seq<char>| #[trigger]
            self.texture_of(id) == if layer::has_layer(layers, id) {
                Some((width, height))
            } else {
                None
            }
    }

    /// No layer has two textures.
    pub closed spec fn wf(self) -> bool {
        forall|i: int, j: int|
            0 <= i < j < self.textures.len() ==> (#[trigger] self.textures[i]).id@ != (
            #[trigger] self.textures[j]).id@
    }

    /// A texture that is held is that of its layer.
    proof fn lemma_at(self, i: int)
        requires
            self.wf(),
            0 <= i < self.textures.len(),
        ensures
            self.texture_of(self.textures[i].id@) == Some(
                (self.textures[i].width, self.textures[i].height),
            ),
    {
        let id = self.textures[i].id@;
        assert(self.holds_at(i, id));
        let k = choose|k: int| self.holds_at(k, id);
        assert(self.holds_at(k, id));
        if k < i {
            assert(self.textures[k].id@ != self.textures[i].id@);
        } else if i < k {
            assert(self.textures[i].id@ != self.textures[k].id@);
        }
    }

    /// A renderer that has made nothing yet.
    pub fn new() -> (r: CanvasRenderer)
        ensures
            r.wf(),
            !r.is_ready(),
            forall|id: Seq<char>| #[trigger] r.texture_of(id) is None,
    {
        CanvasRenderer { ready: false, textures: Vec::new() }
    }

    /// The index of the texture of a layer, or the number of textures where it has
    /// none.
    fn find(&self, id: &String) -> (r: usize)
        requires
            self.wf(),
        ensures
            r <= self.textures.len(),
            r < self.textures.len() ==> {
                &&& self.textures[r as int].id@ == id@
                &&& self.texture_of(id@) == Some(
                    (self.textures[r as int].width, self.textures[r as int].height),
                )
            },
            r == self.textures.len() ==> self.texture_of(id@) is None,
            r == self.textures.len() ==> forall|i: int|
                0 <= i < self.textures.len() ==> (#[trigger] self.textures[i]).id@ != id@,
    {
        let mut i: usize = 0;
        while i < self.textures.len()
            invariant
                self.wf(),
                i <= self.textures.len(),
                forall|k: int| 0 <= k < i ==> (#[trigger] self.textures[k]).id@ != id@,
            decreases self.textures.len() - i,
        {
            if self.textures[i].id == *id {
                proof {
                    self.lemma_at(i as int);
                }
                return i;
            }
            i = i + 1;
        }
        proof {
            assert forall|k: int| !self.holds_at(k, id@) by {
                if 0 <= k < self.textures.len() {
                    assert(self.textures[k].id@ != id@);
                }
            }
        }
        i
    }

    /// A layer that has a texture has it at some index.
    proof fn lemma_somewhere(self, id: Seq<char>) -> (i: int)
        requires
            self.wf(),
            self.texture_of(id) is Some,
        ensures
            0 <= i < self.textures.len(),
            self.textures[i].id@ == id,
            self.texture_of(id) == Some((self.textures[i].width, self.textures[i].height)),
    {
        let i = choose|i: int| self.holds_at(i, id);
        assert(self.holds_at(i, id));
        self.lemma_at(i);
        i
    }

    /// Gives a layer a texture of the size given, in place of the one that it has.
    fn put(&mut self, id: &String, width: u32, height: u32)
        requires
            old(self).wf(),
        ensures
            final(self).wf(),
            final(self).is_ready() == old(self).is_ready(),
            forall|x: Seq<char>| #[trigger]
                final(self).texture_of(x) == if x == id@ {
                    Some((width, height))
                } else {
                    old(self).texture_of(x)
                },
    {
        let ghost before = *self;
        let found: usize = self.find(id);
        let texture = LayerTexture { id: id.clone(), width, height };
        if found < self.textures.len() {
            self.textures.set(found, texture);
        } else {
            self.textures.push(texture);
        }
        proof {
            assert forall|k: int| 0 <= k < before.textures.len() implies (
            #[trigger] self.textures[k]).id@ == before.textures[k].id@ by {}
            assert(self.wf()) by {
                assert forall|i: int, j: int| 0 <= i < j < self.textures.len() implies (
                #[trigger] self.textures[i]).id@ != (#[trigger] self.textures[j]).id@ by {
                    assert(self.textures[i].id@ == before.textures[i].id@);
                    if j < before.textures.len() {
                        assert(self.textures[j].id@ == before.textures[j].id@);
                    }
                }
            }
            self.lemma_at(found as int);
            assert forall|x: Seq<char>| #[trigger] self.texture_of(x) == if x == id@ {
                Some((width, height))
            } else {
                before.texture_of(x)
            } by {
                if x != id@ {
                    if self.texture_of(x) is Some {
                        let i = self.lemma_somewhere(x);
                        assert(i != found);
                        assert(self.textures[i] == before.textures[i]);
                        before.lemma_at(i);
                    }
                    if before.texture_of(x) is Some {
                        let i = before.lemma_somewhere(x);
                        assert(i != found);
                        assert(self.textures[i] == before.textures[i]);
                        self.lemma_at(i);
                    }
                }
            }
        }
    }

    /// Drops the textures of the layers that are gone, and says which.
    fn retain(&mut self, layers: &Vec<Layer>) -> (dropped: Vec<String>)
        requires
            old(self).wf(),
        ensures
            final(self).wf(),
            final(self).is_ready() == old(self).is_ready(),
            forall|x: Seq<char>| #[trigger]
                final(self).texture_of(x) == if layer::has_layer(layers@, x) {
                    old(self).texture_of(x)
                } else {
                    None
                },
            gone(dropped@, *old(self), layers@),
    {
        let ghost before = *self;
        let mut kept: Vec<LayerTexture> = Vec::new();
        let mut dropped: Vec<String> = Vec::new();
        let mut i: usize = 0;
        // Where each texture seen so far has gone.
        let ghost mut kept_at: Seq<int> = Seq::empty();
        let ghost mut dropped_at: Seq<int> = Seq::empty();
        while i < self.textures.len()
            invariant
                *self == before,
                before.wf(),
                i <= self.textures.len(),
                kept_at.len() == kept.len(),
                dropped_at.len() == dropped.len(),
                forall|k: int|
                    0 <= k < kept.len() ==> {
                        &&& 0 <= #[trigger] kept_at[k] < i
                        &&& kept[k].id@ == before.textures[kept_at[k]].id@
                        &&& kept[k].width == before.textures[kept_at[k]].width
                        &&& kept[k].height == before.textures[kept_at[k]].height
                        &&& layer::has_layer(layers@, kept[k].id@)
                    },
                forall|k: int, l: int|
                    0 <= k < l < kept.len() ==> #[trigger] kept_at[k] < #[trigger] kept_at[l],
                forall|k: int|
                    0 <= k < dropped.len() ==> {
                        &&& 0 <= #[trigger] dropped_at[k] < i
                        &&& dropped[k]@ == before.textures[dropped_at[k]].id@
                        &&& !layer::has_layer(layers@, dropped[k]@)
                    },
                forall|k: int, l: int|
                    0 <= k < l < dropped.len() ==> #[trigger] dropped_at[k]
                        < #[trigger] dropped_at[l],
                forall|k: int|
                    0 <= k < i ==> if layer::has_layer(
                        layers@,
                        (#[trigger] before.textures[k]).id@,
                    ) {
                        kept_at.contains(k)
                    } else {
                        dropped_at.contains(k)
                    },
            decreases self.textures.len() - i,
        {
            let ghost kept_before = kept_at;
            let ghost dropped_before = dropped_at;
            if layer::any_layer(layers, &self.textures[i].id) {
                kept.push(
                    LayerTexture {
                        id: self.textures[i].id.clone(),
                        width: self.textures[i].width,
                        height: self.textures[i].height,
                    },
                );
                proof {
                    kept_at = kept_at.push(i as int);
                    assert(kept_at[kept_at.len() - 1] == i);
                }
            } else {
                dropped.push(self.textures[i].id.clone());
                proof {
                    dropped_at = dropped_at.push(i as int);
                    assert(dropped_at[dropped_at.len() - 1] == i);
                }
            }
            proof {
                assert forall|k: int| 0 <= k < i + 1 implies if layer::has_layer(
                    layers@,
                    (#[trigger] before.textures[k]).id@,
                ) {
                    kept_at.contains(k)
                } else {
                    dropped_at.contains(k)
                } by {
                    if k < i {
                        if layer::has_layer(layers@, before.textures[k].id@) {
                            let n = choose|n: int|
                                0 <= n < kept_before.len() && kept_before[n] == k;
                            assert(kept_at[n] == k);
                        } else {
                            let n = choose|n: int|
                                0 <= n < dropped_before.len() && dropped_before[n] == k;
                            assert(dropped_at[n] == k);
                        }
                    }
                }
            }
            i = i + 1;
        }
        self.textures = kept;
        proof {
            assert(self.wf()) by {
                assert forall|k: int, l: int| 0 <= k < l < self.textures.len() implies (
                #[trigger] self.textures[k]).id@ != (#[trigger] self.textures[l]).id@ by {
                    assert(kept_at[k] < kept_at[l]);
                    assert(before.textures[kept_at[k]].id@ != before.textures[kept_at[l]].id@);
                }
            }
            assert forall|x: Seq<char>| #[trigger]
                self.texture_of(x) == if layer::has_layer(layers@, x) {
                    before.texture_of(x)
                } else {
                    None
                } by {
                if self.texture_of(x) is Some {
                    let k = self.lemma_somewhere(x);
                    assert(0 <= kept_at[k] < i);
                    before.lemma_at(kept_at[k]);
                }
                if before.texture_of(x) is Some && layer::has_layer(layers@, x) {
                    let k = before.lemma_somewhere(x);
                    assert(kept_at.contains(k));
                    let n = choose|n: int| 0 <= n < kept_at.len() && kept_at[n] == k;
                    assert(kept_at[n] == k);
                    self.lemma_at(n);
                }
            }
            assert(gone(dropped@, before, layers@)) by {
                assert forall|k: int, l: int| 0 <= k < l < dropped.len() implies (
                #[trigger] dropped[k])@ != (#[trigger] dropped[l])@ by {
                    assert(dropped_at[k] < dropped_at[l]);
                    assert(before.textures[dropped_at[k]].id@
                        != before.textures[dropped_at[l]].id@);
                }
                assert forall|k: int| 0 <= k < dropped.len() implies before.texture_of(
                    (#[trigger] dropped[k])@,
                ) is Some && !layer::has_layer(layers@, dropped[k]@) by {
                    assert(0 <= dropped_at[k] < i);
                    before.lemma_at(dropped_at[k]);
                }
                assert forall|x: Seq<char>| (#[trigger] before.texture_of(x)) is Some
                    && !layer::has_layer(layers@, x) implies exists|k: int|
                    0 <= k < dropped.len() && (#[trigger] dropped[k])@ == x by {
                    let k = before.lemma_somewhere(x);
                    assert(dropped_at.contains(k));
                    let n = choose|n: int| 0 <= n < dropped_at.len() && dropped_at[n] == k;
                    assert(dropped_at[n] == k);
                    assert(dropped[n]@ == x);
                }
            }
        }
        dropped
    }

    /// Whether a texture is to be made for layer `i`: it has none of the size of the
    /// canvas, and no layer before it has the same id.
    pub open spec fn needs_texture(
        self,
        layers: Seq<Layer>,
        i: int,
        width: u32,
        height: u32,
    ) -> bool {
        &&& self.texture_of(layers[i].id_text()) != Some((width, height))
        &&& !layer::has_layer(layers.take(i), layers[i].id_text())
    }

    /// Brings the textures in line with the layers: says for which layers a texture is
    /// to be made, and which layers are gone.
    pub fn sync_layers(&mut self, layers: &Vec<Layer>, canvas_w: u32, canvas_h: u32) -> (r: (
        Vec<LayerSync>,
        Vec<String>,
    ))
        requires
            old(self).wf(),
        ensures
            final(self).wf(),
            final(self).is_ready() == old(self).is_ready(),
            final(self).in_line(layers@, canvas_w, canvas_h),
            synced(r.0@, *old(self), layers@, canvas_w, canvas_h),
            gone(r.1@, *old(self), layers@),
    {
        let ghost before = *self;
        let mut sync: Vec<LayerSync> = Vec::new();
        let mut i: usize = 0;
        while i < layers.len()
            invariant
                self.wf(),
                self.is_ready() == before.is_ready(),
                i <= layers.len(),
                sync.len() == i,
                forall|x: Seq<char>| #[trigger]
                    self.texture_of(x) == if layer::has_layer(layers@.take(i as int), x) {
                        Some((canvas_w, canvas_h))
                    } else {
                        before.texture_of(x)
                    },
                forall|k: int|
                    0 <= k < i ==> {
                        &&& (#[trigger] sync[k]).id@ == layers[k].id_text()
                        &&& sync[k].create == before.needs_texture(
                            layers@,
                            k,
                            canvas_w,
                            canvas_h,
                        )
                    },
            decreases layers.len() - i,
        {
            let id: &String = layers[i].id();
            let found: usize = self.find(id);
            let create: bool = found >= self.textures.len() || self.textures[found].width
                != canvas_w || self.textures[found].height != canvas_h;
            proof {
                assert(self.texture_of(id@) == if layer::has_layer(
                    layers@.take(i as int),
                    id@,
                ) {
                    Some((canvas_w, canvas_h))
                } else {
                    before.texture_of(id@)
                });
                assert(create == before.needs_texture(layers@, i as int, canvas_w, canvas_h));
            }
            if create {
                self.put(id, canvas_w, canvas_h);
            }
            sync.push(LayerSync { id: id.clone(), create });
            proof {
                lemma_has_layer_next(layers@, i as int);
            }
            i = i + 1;
        }
        proof {
            assert(layers@.take(layers.len() as int) =~= layers@);
        }
        let ghost middle = *self;
        let dropped = self.retain(layers);
        proof {
            assert(gone(dropped@, before, layers@)) by {
                assert forall|k: int| 0 <= k < dropped.len() implies before.texture_of(
                    (#[trigger] dropped[k])@,
                ) is Some && !layer::has_layer(layers@, dropped[k]@) by {
                    assert(middle.texture_of(dropped[k]@) is Some);
                }
                assert forall|x: Seq<char>| (#[trigger] before.texture_of(x)) is Some
                    && !layer::has_layer(layers@, x) implies exists|k: int|
                    0 <= k < dropped.len() && (#[trigger] dropped[k])@ == x by {
                    assert(middle.texture_of(x) is Some);
                }
            }
        }
        (sync, dropped)
    }
}

/// Taking one more layer into account.
proof fn lemma_has_layer_next(layers: Seq<Layer>, i: int)
    requires
        0 <= i < layers.len(),
    ensures
        forall|x: Seq<char>| #[trigger]
            layer::has_layer(layers.take(i + 1), x) == (layer::has_layer(layers.take(i), x) || x
                == layers[i].id_text()),
{
    let some = layers.take(i);
    let more = layers.take(i + 1);
    assert forall|x: Seq<char>| #[trigger]
        layer::has_layer(more, x) == (layer::has_layer(some, x) || x == layers[i].id_text()) by {
        if layer::has_layer(more, x) {
            let k = choose|k: int| 0 <= k < more.len() && (#[trigger] more[k]).id_text() == x;
            if k < i {
                assert(some[k].id_text() == x);
            }
        }
        if layer::has_layer(some, x) {
            let k = choose|k: int| 0 <= k < some.len() && (#[trigger] some[k]).id_text() == x;
            assert(more[k].id_text() == x);
        }
        if x == layers[i].id_text() {
            assert(more[i].id_text() == x);
        }
    }
}

/// Whether a list says what is to be done for each layer.
pub open spec fn synced(
    sync: Seq<LayerSync>,
    before: CanvasRenderer,
    layers: Seq<Layer>,
    width: u32,
    height: u32,
) -> bool {
    &&& sync.len() == layers.len()
    &&& forall|k: int|
        0 <= k < layers.len() ==> {
            &&& (#[trigger] sync[k]).id@ == layers[k].id_text()
            &&& sync[k].create == before.needs_texture(layers, k, width, height)
        }
}

/// Whether a list names the layers that had a texture and are gone, each once.
pub open spec fn gone(dropped: Seq<String>, before: CanvasRenderer, layers: Seq<Layer>) -> bool {
    &&& forall|k: int, l: int|
        0 <= k < l < dropped.len() ==> (#[trigger] dropped[k])@ != (#[trigger] dropped[l])@
    &&& forall|k: int|
        0 <= k < dropped.len() ==> before.texture_of((#[trigger] dropped[k])@) is Some
            && !layer::has_layer(layers, dropped[k]@)
    &&& forall|x: Seq<char>|
        (#[trigger] before.texture_of(x)) is Some && !layer::has_layer(layers, x) ==> exists|k: int|
            0 <= k < dropped.len() && (#[trigger] dropped[k])@ == x
}

/// Whether a list draws the visible layers in order, each over the whole canvas.
pub open spec fn drawn_layers(
    draws: Seq<LayerDraw>,
    layers: Seq<Layer>,
    width: u32,
    height: u32,
) -> bool {
    &&& draws.len() == shown_layers(layers).len()
    &&& forall|k: int|
        0 <= k < draws.len() ==> {
            &&& (#[trigger] draws[k]).id@ == shown_layers(layers)[k].id_text()
            &&& words_mean(draws[k].quad@, canvas_quad(width, height))
        }
}

/// Two triangles that cover a canvas of the size given.
fn make_quad(width: u32, height: u32) -> (r: Vec<u32>)
    ensures
        words_mean(r@, canvas_quad(width, height)),
{
    let zero: u32 = stamping::ZERO;
    let one: u32 = stamping::ONE;
    let w: u32 = Single::from_u32(width).bits;
    let h: u32 = Single::from_u32(height).bits;
    let r: Vec<u32> = vec![
        zero, zero, zero, zero,
        w, zero, one, zero,
        zero, h, zero, one,
        w, zero, one, zero,
        w, h, one, one,
        zero, h, zero, one,
    ];
    r
}

impl CanvasRenderInput {
    /// The size that the frame is drawn for.
    fn view_for(&self, width: u32, height: u32) -> (r: Point)
        ensures
            r@ == self.view_size(width, height),
    {
        let zero: Single = Single { bits: stamping::ZERO };
        if zero.lt(self.viewport_size.x) && zero.lt(self.viewport_size.y) {
            self.viewport_size
        } else {
            Point { x: Single::from_u32(width), y: Single::from_u32(height) }
        }
    }

    /// The uniforms of the grid.
    fn grid_words(&self, view: Point) -> (r: Vec<u32>)
        ensures
            words_mean(r@, grid_uniforms(*self, view@)),
    {
        vec![
            self.pan_offset.x.bits,
            self.pan_offset.y.bits,
            self.zoom.bits,
            stamping::ZERO,
            view.x.bits,
            view.y.bits,
            self.canvas_size.x.bits,
            self.canvas_size.y.bits,
        ]
    }

    /// The uniforms of the layers.
    fn tile_words(&self, view: Point) -> (r: Vec<u32>)
        ensures
            words_mean(r@, tile_uniforms(*self, view@)),
    {
        vec![
            self.pan_offset.x.bits,
            self.pan_offset.y.bits,
            self.zoom.bits,
            stamping::ZERO,
            view.x.bits,
            view.y.bits,
            stamping::ZERO,
            stamping::ZERO,
        ]
    }
}

/// The visible layers, each to be drawn over the whole canvas.
fn draw_layers(layers: &Vec<Layer>, width: u32, height: u32) -> (r: Vec<LayerDraw>)
    ensures
        drawn_layers(r@, layers@, width, height),
{
    let mut draws: Vec<LayerDraw> = Vec::new();
    let mut i: usize = 0;
    let ghost seen = |layer: Layer| layer.is_shown();
    proof {
        reveal(Seq::filter);
        assert(layers@.take(0).filter(seen).len() == 0);
    }
    while i < layers.len()
        invariant
            i <= layers.len(),
            seen == (|layer: Layer| layer.is_shown()),
            drawn_layers(draws@, layers@.take(i as int), width, height),
        decreases layers.len() - i,
    {
        proof {
            reveal(Seq::filter);
            let more = layers@.take(i + 1);
            assert(more.drop_last() =~= layers@.take(i as int));
            assert(more.last() == layers[i as int]);
            assert(shown_layers(more) == if layers[i as int].is_shown() {
                shown_layers(layers@.take(i as int)).push(layers[i as int])
            } else {
                shown_layers(layers@.take(i as int))
            });
        }
        if layers[i].visible() {
            draws.push(LayerDraw { id: layers[i].id().clone(), quad: make_quad(width, height) });
        }
        i = i + 1;
    }
    proof {
        assert(layers@.take(layers.len() as int) =~= layers@);
    }
    draws
}

impl CanvasRenderer {
    /// Plans a frame: the pipelines are made once, the textures are brought in line
    /// with the layers, and the visible layers are drawn over the grid.
    pub fn render_frame(
        &mut self,
        width: u32,
        height: u32,
        input: &CanvasRenderInput,
        layers: &Vec<Layer>,
        canvas_w: u32,
        canvas_h: u32,
    ) -> (r: FramePlan)
        requires
            old(self).wf(),
        ensures
            final(self).wf(),
            final(self).is_ready(),
            final(self).in_line(layers@, canvas_w, canvas_h),
            r.create_state == !old(self).is_ready(),
            words_mean(r.grid@, grid_uniforms(*input, input.view_size(width, height))),
            words_mean(r.tile@, tile_uniforms(*input, input.view_size(width, height))),
            synced(r.sync@, *old(self), layers@, canvas_w, canvas_h),
            gone(r.dropped@, *old(self), layers@),
            drawn_layers(r.draws@, layers@, canvas_w, canvas_h),
    {
        let create_state: bool = !self.ready;
        let view: Point = input.view_for(width, height);
        let synced = self.sync_layers(layers, canvas_w, canvas_h);
        let ghost textures = *self;
        self.ready = true;
        proof {
            assert forall|x: Seq<char>| #[trigger]
                self.texture_of(x) == textures.texture_of(x) by {
                assert forall|i: int| self.holds_at(i, x) == #[trigger] textures.holds_at(
                    i,
                    x,
                ) by {}
                if self.texture_of(x) is Some {
                    let i = choose|i: int| self.holds_at(i, x);
                    assert(textures.holds_at(i, x));
                    self.lemma_at(i);
                    textures.lemma_at(i);
                }
                if textures.texture_of(x) is Some {
                    let i = textures.lemma_somewhere(x);
                    assert(self.holds_at(i, x));
                    self.lemma_at(i);
                }
            }
        }
        FramePlan {
            create_state,
            grid: input.grid_words(view),
            tile: input.tile_words(view),
            sync: synced.0,
            dropped: synced.1,
            draws: draw_layers(layers, canvas_w, canvas_h),
        }
    }
}

/// A layer that is to be seen is one of the layers.
proof fn lemma_shown_layer(layers: Seq<Layer>, k: int)
    requires
        0 <= k < shown_layers(layers).len(),
    ensures
        layer::has_layer(layers, shown_layers(layers)[k].id_text()),
    decreases layers.len(),
{
    reveal(Seq::filter);
    let id = shown_layers(layers)[k].id_text();
    let rest = layers.drop_last();
    if k < shown_layers(rest).len() {
        lemma_shown_layer(rest, k);
        let i = choose|i: int| 0 <= i < rest.len() && (#[trigger] rest[i]).id_text() == id;
        assert(layers[i].id_text() == id);
    } else {
        assert(layers[layers.len() - 1].id_text() == id);
    }
}

/// Every layer that a frame draws has a texture of the size of the canvas by then.
pub proof fn law_drawn_has_texture(
    after: CanvasRenderer,
    draws: Seq<LayerDraw>,
    layers: Seq<Layer>,
    width: u32,
    height: u32,
    k: int,
)
    requires
        after.in_line(layers, width, height),
        drawn_layers(draws, layers, width, height),
        0 <= k < draws.len(),
    ensures
        after.texture_of(draws[k].id@) == Some((width, height)),
{
    lemma_shown_layer(layers, k);
    assert(draws[k].id@ == shown_layers(layers)[k].id_text());
}

/// A frame of the same layers at the same size makes no texture and drops none.
pub proof fn law_steady_frame(
    before: CanvasRenderer,
    sync: Seq<LayerSync>,
    dropped: Seq<String>,
    layers: Seq<Layer>,
    width: u32,
    height: u32,
)
    requires
        before.in_line(layers, width, height),
        synced(sync, before, layers, width, height),
        gone(dropped, before, layers),
    ensures
        forall|k: int| 0 <= k < sync.len() ==> !(#[trigger] sync[k]).create,
        dropped.len() == 0,
{
    assert forall|k: int| 0 <= k < sync.len() implies !(#[trigger] sync[k]).create by {
        assert(layer::has_layer(layers, layers[k].id_text())) by {
            assert(layers[k].id_text() == layers[k].id_text());
        }
        assert(before.texture_of(layers[k].id_text()) == Some((width, height)));
    }
    if dropped.len() > 0 {
        assert(before.texture_of(dropped[0]@) is Some);
    }
}

} // verus!
