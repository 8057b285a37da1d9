//! What holds of every frame.

use super::geometry::Place;
use super::renderer;
use super::renderer::{CanvasRenderInput, CanvasRenderer, LayerDraw, LayerSync};
use super::stamping;
use crate::binary32::error;
use crate::binary32::num::Num;
use crate::binary32::rounding;
use crate::binary32::single;
use crate::binary32::single::Single;
use crate::layer;
use crate::layer::Layer;
use vstd::arithmetic::power2;
use vstd::prelude::*;

verus! {

/// What the grid is told of the view, the layers are told too: the pan, the zoom and the size,
/// as the frame has them.
pub proof fn law_layers_move_with_the_grid(input: CanvasRenderInput, view: Place)
    ensures
        ({
            let grid = renderer::grid_uniforms(input, view);
            let tile = renderer::tile_uniforms(input, view);
            &&& tile[0] == grid[0] && grid[0] == input.pan_offset.x@
            &&& tile[1] == grid[1] && grid[1] == input.pan_offset.y@
            &&& tile[2] == grid[2] && grid[2] == input.zoom@
            &&& tile[4] == grid[4] && grid[4] == view.x
            &&& tile[5] == grid[5] && grid[5] == view.y
        }),
{
}

/// Grid and layers are drawn with the same pan, at the same zoom and for the same view: those
/// of the frame, whatever they are. The grid alone is told the size of the canvas, and the
/// gaps hold nothing.
#[verifier::rlimit(40)]
pub proof fn law_uniforms_carry_the_view(
    input: CanvasRenderInput,
    view: Place,
    grid: Seq<u32>,
    tile: Seq<u32>,
)
    requires
        renderer::words_mean(grid, renderer::grid_uniforms(input, view)),
        renderer::words_mean(tile, renderer::tile_uniforms(input, view)),
    ensures
        grid.len() == 8,
        tile.len() == 8,
        Single::value(grid[0]) == input.pan_offset.x@ && Single::value(tile[0])
            == input.pan_offset.x@,
        Single::value(grid[1]) == input.pan_offset.y@ && Single::value(tile[1])
            == input.pan_offset.y@,
        Single::value(grid[2]) == input.zoom@ && Single::value(tile[2]) == input.zoom@,
        Single::value(grid[4]) == view.x && Single::value(tile[4]) == view.x,
        Single::value(grid[5]) == view.y && Single::value(tile[5]) == view.y,
        Single::value(grid[6]) == input.canvas_size.x@,
        Single::value(grid[7]) == input.canvas_size.y@,
        Single::value(grid[3]) == Num::zero(),
        Single::value(tile[3]) == Num::zero(),
        Single::value(tile[6]) == Num::zero(),
        Single::value(tile[7]) == Num::zero(),
{
    assert(single::magnitude(0) == 0);
    let g = renderer::grid_uniforms(input, view);
    let t = renderer::tile_uniforms(input, view);
    assert(forall|i: int| 0 <= i < g.len() ==> Single::value(#[trigger] grid[i]) == g[i]);
    assert(forall|i: int| 0 <= i < t.len() ==> Single::value(#[trigger] tile[i]) == t[i]);
}

/// A frame is drawn for the whole element once it has been laid out, and for the whole
/// surface before.
pub proof fn law_frame_fills_the_view(input: CanvasRenderInput, width: u32, height: u32)
    ensures
        input.viewport_size.x@.place() > 0 && input.viewport_size.y@.place() > 0
            ==> input.view_size(width, height) == input.viewport_size@,
        input.viewport_size.x@.place() <= 0 || input.viewport_size.y@.place() <= 0
            ==> input.view_size(width, height) == (Place {
            x: Num::of_nat(width as nat),
            y: Num::of_nat(height as nat),
        }),
        width < 0x100_0000 && input.viewport_size.x@.place() <= 0 ==> error::amount(
            input.view_size(width, height).x,
        ) == width as real,
        height < 0x100_0000 && input.viewport_size.x@.place() <= 0 ==> error::amount(
            input.view_size(width, height).y,
        ) == height as real,
{
    assert(single::magnitude(0) == 0);
    if width < 0x100_0000 {
        error::lemma_of_nat(width as nat);
    }
    if height < 0x100_0000 {
        error::lemma_of_nat(height as nat);
    }
}

/// One as a number.
proof fn lemma_one()
    ensures
        Single::value(stamping::ONE) == (Num::Finite {
            negative: false,
            units: Num::one_units(),
        }),
        error::amount(Single::value(stamping::ONE)) == 1 as real,
        Single::value(stamping::ZERO) == Num::zero(),
        error::amount(Num::zero()) == 0 as real,
{
    power2::lemma2_to64();
    rounding::lemma_pow2_split(149, 23, 126);
    error::lemma_whole_value(stamping::ONE, 1, 0x80_0000, 126);
    assert(single::magnitude(0) == 0);
    error::lemma_amount(Num::zero());
}

/// A layer is drawn over the whole canvas: its six corners are corners of the canvas, each
/// takes its texture from the same corner of the texture, and they make two triangles, one of
/// them at the upper left corner, the other at the lower right one, that meet in a diagonal.
pub proof fn law_quad_covers_the_canvas(width: u32, height: u32, i: int)
    requires
        0 <= i < 6,
        width < 0x100_0000,
        height < 0x100_0000,
    ensures
        ({
            let quad = renderer::canvas_quad(width, height);
            let x = error::amount(quad[4 * i]);
            let y = error::amount(quad[4 * i + 1]);
            let u = error::amount(quad[4 * i + 2]);
            let v = error::amount(quad[4 * i + 3]);
            &&& quad.len() == 24
            &&& u == 0 as real && x == 0 as real || u == 1 as real && x == width as real
            &&& v == 0 as real && y == 0 as real || v == 1 as real && y == height as real
            &&& u == (if i == 1 || i == 3 || i == 4 {
                1 as real
            } else {
                0 as real
            })
            &&& v == (if i == 2 || i == 4 || i == 5 {
                1 as real
            } else {
                0 as real
            })
        }),
{
    lemma_one();
    error::lemma_of_nat(width as nat);
    error::lemma_of_nat(height as nat);
    let zero = Single::value(stamping::ZERO);
    let one = Single::value(stamping::ONE);
    let w = Num::of_nat(width as nat);
    let h = Num::of_nat(height as nat);
    let quad = renderer::canvas_quad(width, height);
    assert(quad =~= seq![
        zero, zero, zero, zero,
        w, zero, one, zero,
        zero, h, zero, one,
        w, zero, one, zero,
        w, h, one, one,
        zero, h, zero, one,
    ]);
}

/// Where a visible layer is among those that are drawn: behind the visible layers before it.
proof fn lemma_shown_place(layers: Seq<Layer>, i: int) -> (k: int)
    requires
        0 <= i < layers.len(),
        layers[i].is_shown(),
    ensures
        k == renderer::shown_layers(layers.take(i)).len(),
        0 <= k < renderer::shown_layers(layers).len(),
        renderer::shown_layers(layers)[k] == layers[i],
        renderer::shown_layers(layers).len() <= layers.len(),
    decreases layers.len(),
{
    reveal(Seq::filter);
    let rest = layers.drop_last();
    lemma_shown_len(layers);
    let k = renderer::shown_layers(layers.take(i)).len() as int;
    if i == layers.len() - 1 {
        assert(layers.take(i) =~= rest);
    } else {
        assert(rest.take(i) =~= layers.take(i));
        let j = lemma_shown_place(rest, i);
        assert(j == k);
    }
    k
}

/// No more layers are drawn than there are.
proof fn lemma_shown_len(layers: Seq<Layer>)
    ensures
        renderer::shown_layers(layers).len() <= layers.len(),
    decreases layers.len(),
{
    reveal(Seq::filter);
    if layers.len() > 0 {
        lemma_shown_len(layers.drop_last());
    }
}

/// No layer before another is drawn behind it.
proof fn lemma_shown_order(layers: Seq<Layer>, i: int, j: int)
    requires
        0 <= i <= j <= layers.len(),
    ensures
        renderer::shown_layers(layers.take(i)).len() <= renderer::shown_layers(
            layers.take(j),
        ).len(),
        i < j && layers[i].is_shown() ==> renderer::shown_layers(layers.take(i)).len()
            < renderer::shown_layers(layers.take(j)).len(),
    decreases j - i,
{
    reveal(Seq::filter);
    if i < j {
        let some = layers.take(j);
        assert(some.drop_last() =~= layers.take(j - 1));
        assert(some.last() == layers[j - 1]);
        lemma_shown_order(layers, i, j - 1);
        if i == j - 1 && layers[i].is_shown() {
            assert(renderer::shown_layers(some).len() == renderer::shown_layers(
                layers.take(i),
            ).len() + 1);
        }
    }
}

/// Every layer whose visibility is on is drawn, and the layers are drawn in their order.
pub proof fn law_visible_layers_are_drawn(
    draws: Seq<LayerDraw>,
    layers: Seq<Layer>,
    width: u32,
    height: u32,
    i: int,
    j: int,
)
    requires
        renderer::drawn_layers(draws, layers, width, height),
        0 <= i < j < layers.len(),
        layers[i].is_shown(),
        layers[j].is_shown(),
    ensures
        exists|k: int, l: int|
            0 <= k < l < draws.len() && (#[trigger] draws[k]).id@ == layers[i].id_text() && (
            #[trigger] draws[l]).id@ == layers[j].id_text(),
{
    let k = lemma_shown_place(layers, i);
    let l = lemma_shown_place(layers, j);
    lemma_shown_order(layers, i, j);
    assert(draws[k].id@ == renderer::shown_layers(layers)[k].id_text());
    assert(draws[l].id@ == renderer::shown_layers(layers)[l].id_text());
}

/// Each layer that is drawn is one whose visibility is on, and a layer by itself is drawn if
/// that is on.
pub proof fn law_hidden_layers_are_not_drawn(
    draws: Seq<LayerDraw>,
    layers: Seq<Layer>,
    width: u32,
    height: u32,
)
    requires
        renderer::drawn_layers(draws, layers, width, height),
    ensures
        forall|k: int|
            0 <= k < draws.len() ==> exists|i: int|
                0 <= i < layers.len() && (#[trigger] layers[i]).is_shown() && layers[i].id_text()
                    == (#[trigger] draws[k]).id@,
        forall|i: int|
            0 <= i < layers.len() && (#[trigger] layers[i]).is_shown() ==> exists|k: int|
                0 <= k < draws.len() && (#[trigger] draws[k]).id@ == layers[i].id_text(),
        (forall|i: int| 0 <= i < layers.len() ==> (#[trigger] layers[i]).is_shown()) ==> draws.len()
            == layers.len(),
        (forall|i: int| 0 <= i < layers.len() ==> !(#[trigger] layers[i]).is_shown())
            ==> draws.len() == 0,
{
    let seen = |layer: Layer| layer.is_shown();
    assert forall|k: int| 0 <= k < draws.len() implies exists|i: int|
        0 <= i < layers.len() && (#[trigger] layers[i]).is_shown() && layers[i].id_text() == (
        #[trigger] draws[k]).id@ by {
        assert(draws[k].id@ == renderer::shown_layers(layers)[k].id_text());
        let i = lemma_drawn_from(layers, k);
        assert(layers[i].is_shown() && layers[i].id_text() == draws[k].id@);
    }
    assert forall|i: int| 0 <= i < layers.len() && (#[trigger] layers[i]).is_shown() implies exists|
        k: int,
    | 0 <= k < draws.len() && (#[trigger] draws[k]).id@ == layers[i].id_text() by {
        let k = lemma_shown_place(layers, i);
        assert(draws[k].id@ == renderer::shown_layers(layers)[k].id_text());
    }
    if forall|i: int| 0 <= i < layers.len() ==> (#[trigger] layers[i]).is_shown() {
        lemma_all_shown(layers);
    }
    if draws.len() > 0 {
        let i = lemma_drawn_from(layers, 0);
        assert(layers[i].is_shown());
    }
}

/// Where a layer that is drawn comes from.
proof fn lemma_drawn_from(layers: Seq<Layer>, k: int) -> (i: int)
    requires
        0 <= k < renderer::shown_layers(layers).len(),
    ensures
        0 <= i < layers.len(),
        layers[i].is_shown(),
        renderer::shown_layers(layers)[k] == layers[i],
    decreases layers.len(),
{
    reveal(Seq::filter);
    let rest = layers.drop_last();
    if k < renderer::shown_layers(rest).len() {
        lemma_drawn_from(rest, k)
    } else {
        layers.len() - 1
    }
}

/// Where all layers are visible all are drawn.
proof fn lemma_all_shown(layers: Seq<Layer>)
    requires
        forall|i: int| 0 <= i < layers.len() ==> (#[trigger] layers[i]).is_shown(),
    ensures
        renderer::shown_layers(layers).len() == layers.len(),
    decreases layers.len(),
{
    reveal(Seq::filter);
    if layers.len() > 0 {
        let rest = layers.drop_last();
        assert forall|i: int| 0 <= i < rest.len() implies (#[trigger] rest[i]).is_shown() by {
            assert(rest[i] == layers[i]);
        }
        lemma_all_shown(rest);
        assert(layers.last() == layers[layers.len() - 1]);
    }
}

/// A texture is made for a layer that has none, or none of the size of the canvas, once for
/// each id; and the pixels of every layer are taken anew.
pub proof fn law_texture_made_when_missing(
    sync: Seq<LayerSync>,
    before: CanvasRenderer,
    layers: Seq<Layer>,
    width: u32,
    height: u32,
    k: int,
)
    requires
        renderer::synced(sync, before, layers, width, height),
        0 <= k < layers.len(),
        forall|m: int, n: int|
            0 <= m < n < layers.len() ==> (#[trigger] layers[m]).id_text() != (
            #[trigger] layers[n]).id_text(),
    ensures
        sync.len() == layers.len(),
        sync[k].id@ == layers[k].id_text(),
        before.texture_of(layers[k].id_text()) is None ==> sync[k].create,
        before.texture_of(layers[k].id_text()) matches Some(size) ==> (sync[k].create <==> (size.0
            != width || size.1 != height)),
{
    assert(sync[k].create == before.needs_texture(layers, k, width, height));
    let some = layers.take(k);
    if layer::has_layer(some, layers[k].id_text()) {
        let i = choose|i: int|
            0 <= i < some.len() && (#[trigger] some[i]).id_text() == layers[k].id_text();
        assert(layers[i].id_text() == layers[k].id_text());
    }
}

/// After a frame each layer has a texture of the size of the canvas, and nothing else has
/// one.
pub proof fn law_textures_follow_layers(
    after: CanvasRenderer,
    layers: Seq<Layer>,
    width: u32,
    height: u32,
    id: Seq<char>,
)
    requires
        after.in_line(layers, width, height),
    ensures
        forall|i: int|
            0 <= i < layers.len() ==> after.texture_of((#[trigger] layers[i]).id_text()) == Some(
                (width, height),
            ),
        (forall|i: int| 0 <= i < layers.len() ==> (#[trigger] layers[i]).id_text() != id)
            ==> after.texture_of(id) is None,
{
    assert forall|i: int| 0 <= i < layers.len() implies after.texture_of(
        (#[trigger] layers[i]).id_text(),
    ) == Some((width, height)) by {
        assert(layer::has_layer(layers, layers[i].id_text()));
    }
    assert(after.texture_of(id) is Some ==> layer::has_layer(layers, id));
}

/// Each word is made of the four bytes at its place in memory: the lowest of them comes first
/// or last, as the order says.
pub proof fn law_bytes_in_memory_order(words: Seq<u32>, n: int)
    requires
        0 <= n < words.len(),
    ensures
        ({
            let little = renderer::memory_bytes(words, renderer::ByteOrder::Little);
            let big = renderer::memory_bytes(words, renderer::ByteOrder::Big);
            &&& little.len() == 4 * words.len()
            &&& big.len() == 4 * words.len()
            &&& words[n] == little[4 * n] + 0x100 * little[4 * n + 1] + 0x1_0000 * little[4 * n + 2]
                + 0x100_0000 * little[4 * n + 3]
            &&& words[n] == big[4 * n + 3] + 0x100 * big[4 * n + 2] + 0x1_0000 * big[4 * n + 1]
                + 0x100_0000 * big[4 * n]
        }),
{
    let word = words[n];
    renderer::law_bytes_make_word(word);
    assert((4 * n) / 4 == n && (4 * n + 1) / 4 == n && (4 * n + 2) / 4 == n && (4 * n + 3) / 4
        == n);
    assert((4 * n) % 4 == 0 && (4 * n + 1) % 4 == 1 && (4 * n + 2) % 4 == 2 && (4 * n + 3) % 4
        == 3);
}

/// Every layer that is drawn is drawn over the whole canvas, with its whole texture.
pub proof fn law_layers_are_drawn_whole(
    draws: Seq<LayerDraw>,
    layers: Seq<Layer>,
    width: u32,
    height: u32,
    k: int,
    i: int,
)
    requires
        renderer::drawn_layers(draws, layers, width, height),
        0 <= k < draws.len(),
        0 <= i < 6,
        width < 0x100_0000,
        height < 0x100_0000,
    ensures
        ({
            let quad = draws[k].quad@;
            let x = error::amount(Single::value(quad[4 * i]));
            let y = error::amount(Single::value(quad[4 * i + 1]));
            let u = error::amount(Single::value(quad[4 * i + 2]));
            let v = error::amount(Single::value(quad[4 * i + 3]));
            &&& quad.len() == 24
            &&& u == 0 as real && x == 0 as real || u == 1 as real && x == width as real
            &&& v == 0 as real && y == 0 as real || v == 1 as real && y == height as real
        }),
{
    law_quad_covers_the_canvas(width, height, i);
    let quad = draws[k].quad@;
    let nums = renderer::canvas_quad(width, height);
    assert(renderer::words_mean(quad, nums));
    assert(Single::value(quad[4 * i]) == nums[4 * i]);
    assert(Single::value(quad[4 * i + 1]) == nums[4 * i + 1]);
    assert(Single::value(quad[4 * i + 2]) == nums[4 * i + 2]);
    assert(Single::value(quad[4 * i + 3]) == nums[4 * i + 3]);
}

/// The textures that are dropped are those of the layers that are gone: all of them, each once,
/// and no other.
pub proof fn law_textures_of_gone_layers(
    dropped: Seq<String>,
    before: CanvasRenderer,
    layers: Seq<Layer>,
    id: Seq<char>,
)
    requires
        renderer::gone(dropped, before, layers),
    ensures
        (exists|k: int| 0 <= k < dropped.len() && (#[trigger] dropped[k])@ == id) <==> (
        before.texture_of(id) is Some && forall|i: int|
            0 <= i < layers.len() ==> (#[trigger] layers[i]).id_text() != id),
        forall|k: int, l: int|
            0 <= k < l < dropped.len() ==> (#[trigger] dropped[k])@ != (#[trigger] dropped[l])@,
{
    if exists|k: int| 0 <= k < dropped.len() && (#[trigger] dropped[k])@ == id {
        let k = choose|k: int| 0 <= k < dropped.len() && (#[trigger] dropped[k])@ == id;
        assert(before.texture_of(dropped[k]@) is Some && !layer::has_layer(layers, dropped[k]@));
    }
    if before.texture_of(id) is Some && (forall|i: int|
        0 <= i < layers.len() ==> (#[trigger] layers[i]).id_text() != id) {
        assert(!layer::has_layer(layers, id));
    }
}

/// Of layers with the same id only the first has a texture made.
pub proof fn law_texture_made_once(
    sync: Seq<LayerSync>,
    before: CanvasRenderer,
    layers: Seq<Layer>,
    width: u32,
    height: u32,
    m: int,
    k: int,
)
    requires
        renderer::synced(sync, before, layers, width, height),
        0 <= m < k < layers.len(),
        layers[m].id_text() == layers[k].id_text(),
    ensures
        !sync[k].create,
        sync[k].id@ == layers[k].id_text(),
{
    assert(sync[k].create == before.needs_texture(layers, k, width, height));
    assert(layers.take(k)[m].id_text() == layers[k].id_text());
}

} // verus!
