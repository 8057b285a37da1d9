//! Layers put together from tiles.

use matter::binary32::single::Single;
use matter::canvas::composite::{composite_layer, tile_count};
use matter::canvas::geometry::Point;
use matter::canvas::stroke::{ActiveStroke, ActiveTool, Brush};
use matter::canvas::tiles::TILE_BYTES;

fn single(x: f32) -> Single {
    Single { bits: x.to_bits() }
}

fn stroke_on(layer: &str) -> ActiveStroke {
    let at = Point { x: single(0.0), y: single(0.0) };
    let brush = Brush {
        tool: ActiveTool::Paint,
        foreground: [0, 0, 0, 255],
        size: single(4.0),
        opacity: single(1.0),
        spacing: None,
    };
    ActiveStroke::begin(at, at, String::from(layer), &brush)
}

/// A tile whose pixel at (x, y) is told by its place.
fn marked(salt: u8) -> Vec<u8> {
    let mut tile = vec![0u8; TILE_BYTES];
    for y in 0..256usize {
        for x in 0..256usize {
            let at = (y * 256 + x) * 4;
            tile[at] = x as u8;
            tile[at + 1] = y as u8;
            tile[at + 2] = salt;
            tile[at + 3] = 255;
        }
    }
    tile
}

#[test]
fn how_many_tiles_cover_a_side() {
    assert_eq!(tile_count(0), 0);
    assert_eq!(tile_count(1), 1);
    assert_eq!(tile_count(256), 1);
    assert_eq!(tile_count(257), 2);
    assert_eq!(tile_count(u32::MAX), 0x100_0000);
}

#[test]
fn a_layer_of_four_tiles() {
    let stored = vec![marked(1), marked(2), marked(3), marked(4)];
    let id = String::from("a");
    let (w, h) = (300usize, 260usize);
    let pixels = composite_layer(w as u32, h as u32, &id, None, &stored);
    assert_eq!(pixels.len(), w * h * 4);
    for y in 0..h {
        for x in 0..w {
            let at = (y * w + x) * 4;
            let salt = 1 + (x / 256) as u8 + 2 * (y / 256) as u8;
            assert_eq!(&pixels[at..at + 4], &[(x % 256) as u8, (y % 256) as u8, salt, 255]);
        }
    }
}

#[test]
fn tiles_that_are_not_stored_are_blank() {
    let stored = vec![vec![], marked(9)];
    let pixels = composite_layer(257, 1, &String::from("a"), None, &stored);
    assert!(pixels[0..1024].iter().all(|b| *b == 0));
    assert_eq!(&pixels[1024..1028], &[0, 0, 9, 255]);
}

#[test]
fn rows_that_a_tile_does_not_hold_are_blank() {
    // Two rows and a half of a canvas that is ten pixels wide.
    let mut tile = marked(5);
    tile.truncate(1024 * 2 + 20);
    let pixels = composite_layer(10, 4, &String::from("a"), None, &vec![tile]);
    assert_eq!(pixels[40 + 1], 1);
    assert_eq!(pixels[36 + 2], 5);
    assert!(pixels[80..].iter().all(|b| *b == 0));
    // A row counts as held where it holds what lies on the canvas.
    let mut tile = marked(5);
    tile.truncate(1024 * 2 + 40);
    let pixels = composite_layer(10, 4, &String::from("a"), None, &vec![tile]);
    assert_eq!(pixels[80 + 1], 2);
    assert!(pixels[120..].iter().all(|b| *b == 0));
}

#[test]
fn an_empty_canvas() {
    assert_eq!(composite_layer(0, 7, &String::from("a"), None, &vec![]).len(), 0);
    assert_eq!(composite_layer(7, 0, &String::from("a"), None, &vec![]).len(), 0);
}

#[test]
fn the_stroke_goes_before_what_is_stored() {
    let mut stroke = stroke_on("a");
    stroke.ensure_tile(1, 0, marked(7));
    let stored = vec![marked(1), marked(2)];
    let own = composite_layer(300, 2, &String::from("a"), Some(&stroke), &stored);
    assert_eq!(own[2], 1);
    assert_eq!(own[256 * 4 + 2], 7);
    // On other layers nothing of it is seen.
    let other = composite_layer(300, 2, &String::from("b"), Some(&stroke), &stored);
    assert_eq!(other, composite_layer(300, 2, &String::from("b"), None, &stored));
    assert_eq!(other[256 * 4 + 2], 2);
}
