//! A layer put together from its tiles.
//!
//! The tiles of a layer lie row by row from the top, each 256 pixels wide and high.
//! Those at the right and lower edges may reach beyond the canvas.

use super::stroke::{ActiveStroke, Stroke};
use super::tiles::TILE_SIZE;
use vstd::arithmetic::div_mod;
use vstd::arithmetic::mul;
use vstd::prelude::*;

verus! {

/// The number of tiles that it takes to cover a side of the canvas.
pub open spec fn tiles_across(side: nat) -> nat {
    (side + 255) / 256
}

/// Where a byte of a layer is found: the tile, and the byte of the tile.
pub struct Spot {
    pub tx: int,
    pub ty: int,
    /// The row within the tile.
    pub row: int,
    /// The byte within that row.
    pub byte: int,
}

/// Where byte `b` of a layer is found.
pub open spec fn spot(width: nat, b: int) -> Spot {
    let x = (b / 4) % (width as int);
    let y = (b / 4) / (width as int);
    Spot { tx: x / 256, ty: y / 256, row: y % 256, byte: (x % 256) * 4 + b % 4 }
}

/// The bytes of a row of a tile that lie on the canvas.
pub open spec fn row_bytes(width: nat, tx: int) -> int {
    if width - tx * 256 < 256 {
        (width - tx * 256) * 4
    } else {
        1024
    }
}

/// The byte of a layer at a spot of a tile. A row of which the tile does not hold
/// all that lies on the canvas is blank.
pub open spec fn layer_byte(tile: Seq<u8>, width: nat, at: Spot) -> u8 {
    if at.row * 1024 + row_bytes(width, at.tx) <= tile.len() {
        tile[at.row * 1024 + at.byte]
    } else {
        0
    }
}

/// A tile of a layer as it is to be seen: as the stroke under the pointer shows it,
/// or else as it is stored.
pub open spec fn seen_tile(
    live: Option<Stroke>,
    layer_id: Seq<char>,
    stored: Seq<Vec<u8>>,
    width: nat,
    tx: int,
    ty: int,
) -> Seq<u8> {
    match live {
        Some(stroke) => if stroke.shows(layer_id, tx as u32, ty as u32) {
            stroke.tiles[(tx as u32, ty as u32)].current
        } else {
            stored[ty * tiles_across(width) + tx]@
        },
        None => stored[ty * tiles_across(width) + tx]@,
    }
}

/// A layer put together from its tiles.
pub open spec fn layer_pixels(
    live: Option<Stroke>,
    layer_id: Seq<char>,
    stored: Seq<Vec<u8>>,
    width: nat,
    height: nat,
) -> Seq<u8> {
    Seq::new(
        width * height * 4,
        |b: int|
            {
                let at = spot(width, b);
                layer_byte(
                    seen_tile(live, layer_id, stored, width, at.tx, at.ty),
                    width,
                    at,
                )
            },
    )
}

/// The stroke under the pointer, as values.
pub open spec fn live_stroke(live: Option<&ActiveStroke>) -> Option<Stroke> {
    match live {
        Some(stroke) => Some(stroke@),
        None => None,
    }
}

/// The number of tiles that it takes to cover a side of the canvas.
pub fn tile_count(side: u32) -> (r: u32)
    ensures
        r == tiles_across(side as nat),
        r <= 0x100_0000,
{
    let whole: u32 = side / TILE_SIZE;
    if side % TILE_SIZE == 0 {
        whole
    } else {
        whole + 1
    }
}

/// Where the bytes of a row are found.
proof fn lemma_spot(width: nat, y: nat, tx: nat, j: nat)
    requires
        j < row_bytes(width, tx as int),
        tx < tiles_across(width),
    ensures
        spot(width, (y * width * 4 + tx * 1024 + j) as int) == (Spot {
            tx: tx as int,
            ty: (y / 256) as int,
            row: (y % 256) as int,
            byte: j as int,
        }),
{
    let b = y * width * 4 + tx * 1024 + j;
    let x = (tx * 256 + j / 4) as int;
    assert(x < width);
    let c = (y * width) as int;
    assert(b == 4 * (c + x) + j % 4);
    assert(b / 4 == c + x);
    assert(b % 4 == j % 4);
    mul::lemma_mul_is_commutative(y as int, width as int);
    div_mod::lemma_fundamental_div_mod_converse(c + x, width as int, y as int, x);
    assert(x / 256 == tx);
    assert(x % 256 == j / 4);
}

/// Puts a layer together from its tiles, those of the stroke under the pointer
/// going before those that are stored. A tile that is not stored is given empty.
pub fn composite_layer(
    canvas_w: u32,
    canvas_h: u32,
    layer_id: &String,
    live: Option<&ActiveStroke>,
    stored: &Vec<Vec<u8>>,
) -> (r: Vec<u8>)
    requires
        canvas_w * canvas_h * 4 <= u32::MAX,
        stored.len() == tiles_across(canvas_w as nat) * tiles_across(canvas_h as nat),
        live matches Some(stroke) ==> stroke.wf(),
    ensures
        r@ == layer_pixels(
            live_stroke(live),
            layer_id@,
            stored@,
            canvas_w as nat,
            canvas_h as nat,
        ),
{
    let ghost target = layer_pixels(
        live_stroke(live),
        layer_id@,
        stored@,
        canvas_w as nat,
        canvas_h as nat,
    );
    let ghost width = canvas_w as nat;
    let tiles_x: u32 = tile_count(canvas_w);
    let mut out: Vec<u8> = Vec::new();
    let mut y: u32 = 0;
    proof {
        mul::lemma_mul_basics(width as int);
    }
    while y < canvas_h
        invariant
            y <= canvas_h,
            tiles_x == tiles_across(width),
            width == canvas_w,
            canvas_w * canvas_h * 4 <= u32::MAX,
            stored.len() == tiles_across(width) * tiles_across(canvas_h as nat),
            live matches Some(stroke) ==> stroke.wf(),
            target == layer_pixels(live_stroke(live), layer_id@, stored@, width, canvas_h as nat),
            out.len() == y * width * 4,
            forall|b: int| 0 <= b < out.len() ==> #[trigger] out[b] == target[b],
        decreases canvas_h - y,
    {
        let ty: u32 = y / TILE_SIZE;
        let row: u32 = y % TILE_SIZE;
        let mut tx: u32 = 0;
        while tx < tiles_x
            invariant
                y < canvas_h,
                ty == y / 256,
                row == y % 256,
                tx <= tiles_x,
                tiles_x == tiles_across(width),
                width == canvas_w,
                canvas_w * canvas_h * 4 <= u32::MAX,
                stored.len() == tiles_across(width) * tiles_across(canvas_h as nat),
                live matches Some(stroke) ==> stroke.wf(),
                target == layer_pixels(
                    live_stroke(live),
                    layer_id@,
                    stored@,
                    width,
                    canvas_h as nat,
                ),
                out.len() == y * width * 4 + if tx < tiles_x {
                    tx * 1024
                } else {
                    (width * 4) as int
                },
                forall|b: int| 0 <= b < out.len() ==> #[trigger] out[b] == target[b],
            decreases tiles_x - tx,
        {
            proof {
                lemma_tile_index(width, canvas_h as nat, tx as nat, ty as nat);
                lemma_row_end(width, canvas_h as nat, y as nat);
            }
            let index: usize = ty as usize * tiles_x as usize + tx as usize;
            let tile: &Vec<u8> = pick_tile(live, layer_id, tx, ty, &stored[index]);
            let left: u32 = canvas_w - tx * TILE_SIZE;
            let bytes: usize = if left < TILE_SIZE {
                left as usize * 4
            } else {
                1024
            };
            let start: usize = row as usize * 1024;
            let len: usize = tile.len();
            let whole: bool = start <= len && bytes <= len - start;
            let ghost at = (y * width * 4 + tx * 1024) as int;
            let mut j: usize = 0;
            while j < bytes
                invariant
                    j <= bytes,
                    bytes == row_bytes(width, tx as int),
                    start == row * 1024,
                    ty == y / 256,
                    row == y % 256,
                    tx < tiles_x,
                    y < canvas_h,
                    tiles_x == tiles_across(width),
                    width == canvas_w,
                    whole == (start + bytes <= tile.len()),
                    tile@ == seen_tile(
                        live_stroke(live),
                        layer_id@,
                        stored@,
                        width,
                        tx as int,
                        ty as int,
                    ),
                    target == layer_pixels(
                        live_stroke(live),
                        layer_id@,
                        stored@,
                        width,
                        canvas_h as nat,
                    ),
                    at == y * width * 4 + tx * 1024,
                    at + bytes <= target.len(),
                    out.len() == at + j,
                    forall|b: int| 0 <= b < out.len() ==> #[trigger] out[b] == target[b],
                decreases bytes - j,
            {
                proof {
                    lemma_spot(width, y as nat, tx as nat, j as nat);
                }
                let byte: u8 = if whole {
                    tile[start + j]
                } else {
                    0
                };
                out.push(byte);
                j = j + 1;
            }
            tx = tx + 1;
        }
        proof {
            assert((y + 1) * width * 4 == y * width * 4 + width * 4) by (nonlinear_arith);
        }
        y = y + 1;
    }
    proof {
        mul::lemma_mul_is_commutative(width as int, canvas_h as int);
        assert(out@ =~= target);
    }
    out
}

/// The tile of a layer that is to be seen.
pub fn pick_tile<'a>(
    live: Option<&'a ActiveStroke>,
    layer_id: &String,
    tx: u32,
    ty: u32,
    stored: &'a Vec<u8>,
) -> (r: &'a Vec<u8>)
    requires
        live matches Some(stroke) ==> stroke.wf(),
    ensures
        r@ == match live_stroke(live) {
            Some(stroke) => if stroke.shows(layer_id@, tx, ty) {
                stroke.tiles[(tx, ty)].current
            } else {
                stored@
            },
            None => stored@,
        },
{
    match live {
        Some(stroke) => match stroke.live_tile(layer_id, tx, ty) {
            Some(tile) => tile,
            None => stored,
        },
        None => stored,
    }
}

/// A tile of the canvas is in the list of tiles.
proof fn lemma_tile_index(width: nat, height: nat, tx: nat, ty: nat)
    requires
        tx < tiles_across(width),
        ty * 256 < height,
    ensures
        0 <= ty * tiles_across(width) + tx < tiles_across(width) * tiles_across(height),
        ty * tiles_across(width) >= 0,
{
    let across = tiles_across(width) as int;
    let down = tiles_across(height) as int;
    assert(ty < down);
    assert(ty * across + tx < across * down && ty * across >= 0) by (nonlinear_arith)
        requires
            0 <= tx < across,
            0 <= ty < down,
    ;
}

/// A row of the canvas ends within it.
proof fn lemma_row_end(width: nat, height: nat, y: nat)
    requires
        y < height,
    ensures
        y * width * 4 + width * 4 <= width * height * 4,
        y * width * 4 >= 0,
{
    assert(y * width * 4 + width * 4 <= width * height * 4 && y * width * 4 >= 0)
        by (nonlinear_arith)
        requires
            0 <= y < height,
            width >= 0,
    ;
}

/// A stroke shows on its own layer only: the others are put together as if there were
/// none.
pub proof fn law_other_layers(
    stroke: Stroke,
    layer_id: Seq<char>,
    stored: Seq<Vec<u8>>,
    width: nat,
    height: nat,
)
    requires
        stroke.layer_id != layer_id,
    ensures
        layer_pixels(Some(stroke), layer_id, stored, width, height) == layer_pixels(
            None,
            layer_id,
            stored,
            width,
            height,
        ),
{
    assert(layer_pixels(Some(stroke), layer_id, stored, width, height) =~= layer_pixels(
        None,
        layer_id,
        stored,
        width,
        height,
    ));
}

/// A tile that the stroke has touched is seen as the stroke shows it, whatever is
/// stored of it; the rest of its layer is seen as it is stored.
pub proof fn law_live_before_stored(
    stroke: Stroke,
    stored: Seq<Vec<u8>>,
    width: nat,
    tx: u32,
    ty: u32,
)
    ensures
        seen_tile(Some(stroke), stroke.layer_id, stored, width, tx as int, ty as int)
            == if stroke.tiles.dom().contains((tx, ty)) {
            stroke.tiles[(tx, ty)].current
        } else {
            seen_tile(None, stroke.layer_id, stored, width, tx as int, ty as int)
        },
{
}

/// Where a pixel of the canvas is found.
proof fn lemma_pixel(width: nat, height: nat, x: nat, y: nat, c: nat)
    requires
        x < width,
        y < height,
        c < 4,
    ensures
        0 <= (y * width + x) * 4 + c < width * height * 4,
        spot(width, ((y * width + x) * 4 + c) as int) == (Spot {
            tx: x as int / 256,
            ty: y as int / 256,
            row: y as int % 256,
            byte: (x as int % 256) * 4 + c,
        }),
{
    let w = width as int;
    let n = y * w + x;
    let b = n * 4 + c;
    assert(0 <= n < w * height) by (nonlinear_arith)
        requires
            n == y * w + x,
            0 <= x < w,
            0 <= y < height,
    ;
    assert(b / 4 == n && b % 4 == c);
    div_mod::lemma_fundamental_div_mod_converse(n, w, y as int, x as int);
}

/// A layer is as large as the canvas, and every pixel of it, in all its four bytes, is the
/// pixel of the tile that lies there, as it is stored: the tiles are 256 pixels wide and
/// high, and lie row by row. A row of which the tile does not hold all that lies on the
/// canvas is transparent.
pub proof fn law_layer_shows_stored_pixels(
    layer_id: Seq<char>,
    stored: Seq<Vec<u8>>,
    width: nat,
    height: nat,
    x: nat,
    y: nat,
    c: nat,
)
    requires
        x < width,
        y < height,
        c < 4,
    ensures
        ({
            let layer = layer_pixels(None, layer_id, stored, width, height);
            let tile = stored[(y as int / 256) * ((width + 255) / 256) + x as int / 256]@;
            let byte = layer[((y * width + x) * 4 + c) as int];
            let left = width - (x as int / 256) * 256;
            let across = if left < 256 {
                left
            } else {
                256
            };
            &&& layer.len() == width * height * 4
            &&& 0 <= (y * width + x) * 4 + c < layer.len()
            &&& (y as int % 256) * 1024 + across * 4 <= tile.len() ==> byte == tile[((y as int
                % 256) * 256 + x as int % 256) * 4 + c]
            &&& (y as int % 256) * 1024 + across * 4 > tile.len() ==> byte == 0
            &&& tile.len() == 256 * 256 * 4 ==> byte == tile[((y as int % 256) * 256 + x as int
                % 256) * 4 + c]
        }),
{
    lemma_pixel(width, height, x, y, c);
}

/// Where the stroke under the pointer has touched a tile of its layer, every pixel is the one
/// that the stroke shows; everywhere else the layer is as it is stored.
pub proof fn law_layer_shows_live_pixels(
    stroke: Stroke,
    layer_id: Seq<char>,
    stored: Seq<Vec<u8>>,
    width: nat,
    height: nat,
    x: u32,
    y: u32,
    c: nat,
)
    requires
        x < width,
        y < height,
        c < 4,
    ensures
        ({
            let layer = layer_pixels(Some(stroke), layer_id, stored, width, height);
            let plain = layer_pixels(None, layer_id, stored, width, height);
            let tile = stroke.tiles[(x / 256, y / 256)].current;
            let at = (y * width + x) * 4 + c;
            let touched = stroke.layer_id == layer_id && stroke.tiles.dom().contains(
                (x / 256, y / 256),
            );
            let left = width - (x as int / 256) * 256;
            let across = if left < 256 {
                left
            } else {
                256
            };
            let held = (y as int % 256) * 1024 + across * 4 <= tile.len();
            &&& layer.len() == plain.len()
            &&& touched && tile.len() == 256 * 256 * 4 ==> held
            &&& touched && held ==> layer[at] == tile[((y as int % 256) * 256 + x as int % 256) * 4
                + c]
            &&& touched && !held ==> layer[at] == 0
            &&& !touched ==> layer[at] == plain[at]
        }),
{
    lemma_pixel(width, height, x as nat, y as nat, c);
}

/// Taking a tile into the stroke under the pointer changes nothing that is seen: what was
/// stored of it is shown as before.
pub proof fn law_taking_a_tile_in_is_not_seen(
    stroke: Stroke,
    stored: Seq<Vec<u8>>,
    width: nat,
    height: nat,
    tx: u32,
    ty: u32,
)
    requires
        !stroke.tiles.dom().contains((tx, ty)),
        width <= u32::MAX,
        height <= u32::MAX,
    ensures
        ({
            let raw = stored[ty * ((width + 255) / 256) as int + tx]@;
            layer_pixels(
                Some(stroke.with_tile(tx, ty, raw)),
                stroke.layer_id,
                stored,
                width,
                height,
            ) == layer_pixels(Some(stroke), stroke.layer_id, stored, width, height)
        }),
{
    let raw = stored[ty * ((width + 255) / 256) as int + tx]@;
    let next = stroke.with_tile(tx, ty, raw);
    let a = layer_pixels(Some(next), stroke.layer_id, stored, width, height);
    let b = layer_pixels(Some(stroke), stroke.layer_id, stored, width, height);
    assert forall|i: int| 0 <= i < a.len() implies a[i] == b[i] by {
        let at = spot(width, i);
        if at.tx as u32 == tx && at.ty as u32 == ty {
            lemma_spot_on_canvas(width, height, i);
            assert(at.tx == tx && at.ty == ty);
        }
    }
    assert(a =~= b);
}

/// Every byte of a layer is found in a tile of the canvas.
proof fn lemma_spot_on_canvas(width: nat, height: nat, b: int)
    requires
        0 <= b < width * height * 4,
        width <= u32::MAX,
        height <= u32::MAX,
    ensures
        ({
            let at = spot(width, b);
            &&& 0 <= at.tx * 256 < width
            &&& 0 <= at.ty * 256 < height
            &&& 0 <= at.row < 256
            &&& 0 <= at.byte < row_bytes(width, at.tx)
        }),
{
    let w = width as int;
    let n = b / 4;
    assert(width > 0) by (nonlinear_arith)
        requires
            0 < width * height,
    ;
    div_mod::lemma_fundamental_div_mod(n, w);
    div_mod::lemma_mod_bound(n, w);
    mul::lemma_mul_is_commutative(w, height as int);
    div_mod::lemma_multiply_divide_lt(n, w, height as int);
    div_mod::lemma_div_pos_is_pos(n, w);
}

/// The stroke under the pointer counts whenever there is one.
pub proof fn law_live_stroke_counts(stroke: &ActiveStroke)
    ensures
        live_stroke(Some(stroke)) == Some(stroke@),
        live_stroke(None) is None,
{
}

} // verus!
