//! The tiles of a stroke.

use matter::canvas::tiles::{StrokeTiles, TILE_BYTES};

#[test]
fn no_tile_at_first() {
    let tiles = StrokeTiles::new(false);
    assert!(tiles.is_empty());
    assert!(!tiles.contains(0, 0));
    assert!(tiles.wet_tile(0, 0).is_none());
    assert!(tiles.current_tile(0, 0).is_none());
    assert_eq!(tiles.into_tiles().len(), 0);
}

#[test]
fn a_tile_that_was_never_stored_is_blank() {
    let mut tiles = StrokeTiles::new(false);
    tiles.ensure_tile(3, 4, vec![]);
    assert!(tiles.contains(3, 4));
    assert!(!tiles.contains(4, 3));
    assert_eq!(tiles.current_tile(3, 4).unwrap().len(), TILE_BYTES);
    assert!(tiles.current_tile(3, 4).unwrap().iter().all(|b| *b == 0));
    assert!(tiles.wet_tile(3, 4).unwrap().iter().all(|b| *b == 0));
}

#[test]
fn only_the_first_load_counts() {
    let mut tiles = StrokeTiles::new(false);
    tiles.ensure_tile(0, 0, vec![7; TILE_BYTES]);
    tiles.ensure_tile(0, 0, vec![9; TILE_BYTES]);
    let all = tiles.into_tiles();
    assert_eq!(all.len(), 1);
    assert_eq!(all[0].before[0], 7);
}

#[test]
fn only_the_last_wet_buffer_counts() {
    let mut tiles = StrokeTiles::new(false);
    tiles.ensure_tile(0, 0, vec![100; TILE_BYTES]);
    let mut wet = vec![0u8; TILE_BYTES];
    wet[0] = 255;
    wet[3] = 255;
    tiles.recomposite_tile(0, 0, wet.clone());
    assert_eq!(&tiles.current_tile(0, 0).unwrap()[0..8], &[255, 0, 0, 255, 100, 100, 100, 100]);
    // Composited again from the tile that was found, not from what is shown.
    wet[0] = 0;
    wet[3] = 0;
    wet[5] = 200;
    wet[7] = 255;
    tiles.recomposite_tile(0, 0, wet);
    assert_eq!(&tiles.current_tile(0, 0).unwrap()[0..8], &[100, 100, 100, 100, 0, 200, 0, 255]);
    let all = tiles.into_tiles();
    assert!(all[0].before.iter().all(|b| *b == 100));
}

#[test]
fn an_eraser_takes_alpha_away() {
    let mut tiles = StrokeTiles::new(true);
    tiles.ensure_tile(1, 1, vec![200; TILE_BYTES]);
    let mut wet = vec![0u8; TILE_BYTES];
    wet[3] = 255;
    wet[7] = 51;
    tiles.recomposite_tile(1, 1, wet);
    let shown = tiles.current_tile(1, 1).unwrap();
    assert_eq!(&shown[0..12], &[200, 200, 200, 0, 200, 200, 200, 160, 200, 200, 200, 200]);
}

#[test]
fn a_tile_that_is_not_held_is_not_composited() {
    let mut tiles = StrokeTiles::new(false);
    assert!(tiles.accepts(5, 5, &vec![]));
    tiles.recomposite_tile(5, 5, vec![]);
    assert!(tiles.is_empty());
}

#[test]
fn a_wet_buffer_must_fit() {
    let mut tiles = StrokeTiles::new(false);
    tiles.ensure_tile(0, 0, vec![]);
    assert!(tiles.accepts(0, 0, &vec![0; TILE_BYTES]));
    assert!(!tiles.accepts(0, 0, &vec![0; TILE_BYTES - 1]));
}

#[test]
fn every_tile_is_listed_once() {
    let mut tiles = StrokeTiles::new(false);
    for tx in 0..3u32 {
        for ty in 0..2u32 {
            tiles.ensure_tile(tx, ty, vec![(tx * 2 + ty + 1) as u8; 16]);
            tiles.ensure_tile(tx, ty, vec![0; 16]);
        }
    }
    let all = tiles.into_tiles();
    assert_eq!(all.len(), 6);
    for tile in &all {
        assert_eq!(tile.before, vec![(tile.tx * 2 + tile.ty + 1) as u8; 16]);
        assert_eq!(tile.current, tile.before);
        assert_eq!(all.iter().filter(|t| t.tx == tile.tx && t.ty == tile.ty).count(), 1);
    }
}
