//! The tiles that a stroke touches.
//!
//! Of each tile a stroke keeps the pixels that it found, the paint that it has put
//! down so far, and the two composited. The pixels that it found never change, so
//! the composited tile is always made anew from them.

use super::blend;
use vstd::prelude::*;

verus! {

/// The side of a tile in pixels.
pub const TILE_SIZE: u32 = 256;

/// The bytes of a tile.
pub const TILE_BYTES: usize = 262144;

/// The buffers of one tile, as values.
pub struct TileBuffers {
    /// The tile before the stroke.
    pub before: Seq<u8>,
    /// The paint put down by the stroke.
    pub wet: Seq<u8>,
    /// The tile as it is shown.
    pub current: Seq<u8>,
}

/// One tile of a stroke.
pub struct StrokeTile {
    pub tx: u32,
    pub ty: u32,
    /// The tile before the stroke.
    pub before: Vec<u8>,
    /// The paint put down by the stroke.
    pub wet: Vec<u8>,
    /// The tile as it is shown.
    pub current: Vec<u8>,
}

impl View for StrokeTile {
    type V = TileBuffers;

    open spec fn view(&self) -> TileBuffers {
        TileBuffers { before: self.before@, wet: self.wet@, current: self.current@ }
    }
}

impl StrokeTile {
    /// Where the tile stands.
    pub open spec fn key(self) -> (u32, u32) {
        (self.tx, self.ty)
    }
}

/// A tile without paint.
pub open spec fn blank_tile() -> Seq<u8> {
    Seq::new(TILE_BYTES as nat, |j: int| 0u8)
}

/// What a stroke takes a tile to be, given the bytes that were stored of it: a
/// tile that was never stored is blank.
pub open spec fn base_of(raw: Seq<u8>) -> Seq<u8> {
    if raw.len() == 0 {
        blank_tile()
    } else {
        raw
    }
}

/// A tile as a stroke finds it.
pub open spec fn fresh_tile(raw: Seq<u8>) -> TileBuffers {
    TileBuffers { before: base_of(raw), wet: blank_tile(), current: base_of(raw) }
}

/// A tile with another wet buffer.
pub open spec fn stamped_tile(tile: TileBuffers, wet: Seq<u8>, eraser: bool) -> TileBuffers {
    TileBuffers {
        before: tile.before,
        wet,
        current: blend::composited(tile.before, wet, eraser),
    }
}

/// The tiles of a stroke, each at most once.
pub struct StrokeTiles {
    eraser: bool,
    tiles: Vec<StrokeTile>,
}

impl StrokeTiles {
    /// Whether the stroke erases.
    pub closed spec fn erases(self) -> bool {
        self.eraser
    }

    /// The tiles by where they stand.
    pub closed spec fn map(self) -> Map<(u32, u32), TileBuffers> {
        Map::new(
            |key: (u32, u32)| exists|i: int| self.stands_at(i, key),
            |key: (u32, u32)| self.tiles[choose|i: int| self.stands_at(i, key)]@,
        )
    }

    /// Whether tile `i` stands at `key`.
    closed spec fn stands_at(self, i: int, key: (u32, u32)) -> bool {
        0 <= i < self.tiles.len() && self.tiles[i].key() == key
    }

    /// No tile is held twice, and each is shown as its paint composited with the
    /// tile that the stroke found.
    pub closed spec fn wf(self) -> bool {
        &&& forall|i: int, j: int|
            0 <= i < j < self.tiles.len() ==> #[trigger] self.tiles[i].key()
                != #[trigger] self.tiles[j].key()
        &&& forall|i: int|
            0 <= i < self.tiles.len() ==> {
                let tile = (#[trigger] self.tiles[i])@;
                tile.current == blend::composited(tile.before, tile.wet, self.eraser)
            }
    }

    /// A tile that is held is in the map.
    proof fn lemma_at(self, i: int)
        requires
            self.wf(),
            0 <= i < self.tiles.len(),
        ensures
            self.map().dom().contains(self.tiles[i].key()),
            self.map()[self.tiles[i].key()] == self.tiles[i]@,
    {
        let key = self.tiles[i].key();
        assert(self.stands_at(i, key));
        let k = choose|k: int| self.stands_at(k, key);
        assert(self.stands_at(k, key));
        if k < i {
            assert(self.tiles[k].key() != self.tiles[i].key());
        } else if i < k {
            assert(self.tiles[i].key() != self.tiles[k].key());
        }
    }

    /// No tiles.
    pub fn new(eraser: bool) -> (r: StrokeTiles)
        ensures
            r.wf(),
            r.erases() == eraser,
            r.map() == Map::<(u32, u32), TileBuffers>::empty(),
    {
        let r = StrokeTiles { eraser, tiles: Vec::new() };
        assert(r.map() =~= Map::<(u32, u32), TileBuffers>::empty());
        r
    }

    /// The index of the tile that stands at the place given, or the number of tiles
    /// where there is none.
    fn find(&self, tx: u32, ty: u32) -> (r: usize)
        requires
            self.wf(),
        ensures
            r <= self.tiles.len(),
            r < self.tiles.len() ==> {
                &&& self.tiles[r as int].key() == (tx, ty)
                &&& self.map().dom().contains((tx, ty))
                &&& self.map()[(tx, ty)] == self.tiles[r as int]@
            },
            r == self.tiles.len() ==> {
                &&& forall|i: int|
                    0 <= i < self.tiles.len() ==> (#[trigger] self.tiles[i]).key() != (tx, ty)
                &&& !self.map().dom().contains((tx, ty))
            },
    {
        let mut i: usize = 0;
        while i < self.tiles.len()
            invariant
                self.wf(),
                i <= self.tiles.len(),
                forall|k: int| 0 <= k < i ==> (#[trigger] self.tiles[k]).key() != (tx, ty),
            decreases self.tiles.len() - i,
        {
            if self.tiles[i].tx == tx && self.tiles[i].ty == ty {
                proof {
                    self.lemma_at(i as int);
                }
                return i;
            }
            i = i + 1;
        }
        proof {
            assert forall|k: int| !self.stands_at(k, (tx, ty)) by {
                if 0 <= k < self.tiles.len() {
                    assert(self.tiles[k].key() != (tx, ty));
                }
            }
        }
        i
    }

    /// Whether the stroke holds the tile.
    pub fn contains(&self, tx: u32, ty: u32) -> (r: bool)
        requires
            self.wf(),
        ensures
            r == self.map().dom().contains((tx, ty)),
    {
        self.find(tx, ty) < self.tiles.len()
    }

    /// Takes a tile into the stroke, with the bytes that were stored of it. A tile
    /// that the stroke holds already stays as it is.
    pub fn ensure_tile(&mut self, tx: u32, ty: u32, raw: Vec<u8>)
        requires
            old(self).wf(),
        ensures
            final(self).wf(),
            final(self).erases() == old(self).erases(),
            final(self).map() == if old(self).map().dom().contains((tx, ty)) {
                old(self).map()
            } else {
                old(self).map().insert((tx, ty), fresh_tile(raw@))
            },
    {
        let found: usize = self.find(tx, ty);
        if found < self.tiles.len() {
            return;
        }
        let base: Vec<u8> = if raw.len() == 0 {
            blank()
        } else {
            raw
        };
        let ghost bytes = base@;
        let current: Vec<u8> = copy(&base);
        let tile = StrokeTile { tx, ty, before: base, wet: blank(), current };
        let ghost before = *self;
        self.tiles.push(tile);
        proof {
            lemma_blank(bytes, self.eraser);
            assert(self.tiles@ == before.tiles@.push(tile));
            assert(self.wf()) by {
                assert forall|i: int, j: int| 0 <= i < j < self.tiles.len() implies (
                #[trigger] self.tiles[i]).key() != (#[trigger] self.tiles[j]).key() by {
                    assert(self.tiles[i] == before.tiles[i]);
                    if j < before.tiles.len() {
                        assert(self.tiles[j] == before.tiles[j]);
                    }
                }
                assert forall|i: int| 0 <= i < self.tiles.len() implies ({
                    let tile = (#[trigger] self.tiles[i])@;
                    tile.current == blend::composited(tile.before, tile.wet, self.eraser)
                }) by {
                    if i < before.tiles.len() {
                        assert(self.tiles[i] == before.tiles[i]);
                    }
                }
            }
            self.lemma_same_but(before, (tx, ty));
            self.lemma_at(before.tiles.len() as int);
            lemma_insert(self.map(), before.map(), (tx, ty));
        }
    }

    /// Whether two strokes hold the same at `key`.
    closed spec fn agrees_at(self, other: StrokeTiles, key: (u32, u32)) -> bool {
        &&& self.map().dom().contains(key) == other.map().dom().contains(key)
        &&& self.map().dom().contains(key) ==> self.map()[key] == other.map()[key]
    }

    /// Tiles that stand elsewhere than `key` are in both maps where they are in
    /// both lists.
    proof fn lemma_same_but(self, other: StrokeTiles, key: (u32, u32))
        requires
            self.wf(),
            other.wf(),
            other.tiles.len() <= self.tiles.len(),
            forall|i: int|
                0 <= i < self.tiles.len() && (#[trigger] self.tiles[i]).key() != key ==> i
                    < other.tiles.len() && self.tiles[i] == other.tiles[i],
            forall|i: int|
                0 <= i < other.tiles.len() && (#[trigger] other.tiles[i]).key() != key
                    ==> self.tiles[i] == other.tiles[i],
        ensures
            self.map().remove(key) == other.map().remove(key),
    {
        assert forall|k: (u32, u32)| k != key implies #[trigger] self.agrees_at(other, k) by {
            if self.map().dom().contains(k) {
                let i = choose|i: int| self.stands_at(i, k);
                assert(self.stands_at(i, k));
                assert(self.tiles[i].key() == k);
                self.lemma_at(i);
                assert(other.tiles[i].key() == k);
                other.lemma_at(i);
            }
            if other.map().dom().contains(k) {
                let i = choose|i: int| other.stands_at(i, k);
                assert(other.stands_at(i, k));
                assert(other.tiles[i].key() == k);
                other.lemma_at(i);
                assert(self.tiles[i].key() == k);
                self.lemma_at(i);
            }
        }
        assert forall|k: (u32, u32)| #[trigger]
            self.map().remove(key).dom().contains(k) == other.map().remove(key).dom().contains(
                k,
            ) by {
            assert(k != key ==> self.agrees_at(other, k));
        }
        assert forall|k: (u32, u32)| #[trigger]
            self.map().remove(key).dom().contains(k) implies self.map().remove(key)[k]
            == other.map().remove(key)[k] by {
            assert(self.agrees_at(other, k));
        }
        assert(self.map().remove(key) =~= other.map().remove(key));
    }

    /// The wet buffer of a tile.
    pub fn wet_tile(&self, tx: u32, ty: u32) -> (r: Option<&Vec<u8>>)
        requires
            self.wf(),
        ensures
            match r {
                Some(wet) => self.map().dom().contains((tx, ty)) && wet@ == self.map()[(
                    tx,
                    ty,
                )].wet,
                None => !self.map().dom().contains((tx, ty)),
            },
    {
        let found: usize = self.find(tx, ty);
        if found < self.tiles.len() {
            Some(&self.tiles[found].wet)
        } else {
            None
        }
    }

    /// The tile as it is shown.
    pub fn current_tile(&self, tx: u32, ty: u32) -> (r: Option<&Vec<u8>>)
        requires
            self.wf(),
        ensures
            match r {
                Some(current) => self.map().dom().contains((tx, ty)) && current@ == self.map()[(
                    tx,
                    ty,
                )].current,
                None => !self.map().dom().contains((tx, ty)),
            },
    {
        let found: usize = self.find(tx, ty);
        if found < self.tiles.len() {
            Some(&self.tiles[found].current)
        } else {
            None
        }
    }

    /// Whether a wet buffer may be put on a tile: it must fit the pixels there.
    pub fn accepts(&self, tx: u32, ty: u32, wet: &Vec<u8>) -> (r: bool)
        requires
            self.wf(),
        ensures
            r == (self.map().dom().contains((tx, ty)) ==> blend::fits(
                self.map()[(tx, ty)].before,
                wet@,
            )),
    {
        let found: usize = self.find(tx, ty);
        found >= self.tiles.len() || blend::buffers_fit(&self.tiles[found].before, wet)
    }

    /// Puts a wet buffer on a tile and composites the tile anew from the pixels that
    /// the stroke found there. Nothing happens where the stroke does not hold the
    /// tile.
    pub fn recomposite_tile(&mut self, tx: u32, ty: u32, wet: Vec<u8>)
        requires
            old(self).wf(),
            old(self).map().dom().contains((tx, ty)) ==> blend::fits(
                old(self).map()[(tx, ty)].before,
                wet@,
            ),
        ensures
            final(self).wf(),
            final(self).erases() == old(self).erases(),
            final(self).map() == if old(self).map().dom().contains((tx, ty)) {
                old(self).map().insert(
                    (tx, ty),
                    stamped_tile(old(self).map()[(tx, ty)], wet@, old(self).erases()),
                )
            } else {
                old(self).map()
            },
    {
        let found: usize = self.find(tx, ty);
        if found >= self.tiles.len() {
            return;
        }
        let ghost before = *self;
        let ghost bytes = wet@;
        let mut current: Vec<u8> = copy(&self.tiles[found].before);
        if self.eraser {
            blend::apply_wet_erase_over_current(&mut current, &wet);
        } else {
            blend::apply_wet_over_current(&mut current, &wet);
        }
        let tile = StrokeTile { tx, ty, before: copy(&self.tiles[found].before), wet, current };
        self.tiles.set(found, tile);
        proof {
            assert(self.tiles@ == before.tiles@.update(found as int, tile));
            assert(self.wf()) by {
                assert forall|i: int, j: int| 0 <= i < j < self.tiles.len() implies (
                #[trigger] self.tiles[i]).key() != (#[trigger] self.tiles[j]).key() by {
                    assert(self.tiles[i].key() == before.tiles[i].key());
                    assert(self.tiles[j].key() == before.tiles[j].key());
                }
                assert forall|i: int| 0 <= i < self.tiles.len() implies ({
                    let tile = (#[trigger] self.tiles[i])@;
                    tile.current == blend::composited(tile.before, tile.wet, self.eraser)
                }) by {
                    if i != found {
                        assert(self.tiles[i] == before.tiles[i]);
                    }
                }
            }
            assert forall|i: int|
                0 <= i < self.tiles.len() && (#[trigger] self.tiles[i]).key() != (
                    tx,
                    ty,
                ) implies self.tiles[i] == before.tiles[i] by {}
            self.lemma_same_but(before, (tx, ty));
            self.lemma_at(found as int);
            lemma_insert(self.map(), before.map(), (tx, ty));
        }
    }

    /// Whether the stroke holds no tile.
    pub fn is_empty(&self) -> (r: bool)
        requires
            self.wf(),
        ensures
            r == (self.map() == Map::<(u32, u32), TileBuffers>::empty()),
    {
        proof {
            if self.tiles.len() == 0 {
                assert(self.map() =~= Map::<(u32, u32), TileBuffers>::empty());
            } else {
                self.lemma_at(0);
            }
        }
        self.tiles.len() == 0
    }

    /// The tiles, each once.
    pub fn into_tiles(self) -> (r: Vec<StrokeTile>)
        requires
            self.wf(),
        ensures
            listing(r@, self.map()),
    {
        proof {
            assert forall|i: int| 0 <= i < self.tiles.len() implies {
                &&& self.map().dom().contains((#[trigger] self.tiles[i]).key())
                &&& self.map()[self.tiles[i].key()] == self.tiles[i]@
            } by {
                self.lemma_at(i);
            }
            assert forall|key: (u32, u32)| #[trigger] self.map().dom().contains(key) implies (exists|
                i: int,
            | 0 <= i < self.tiles.len() && (#[trigger] self.tiles[i]).key() == key) by {
                let i = choose|i: int| self.stands_at(i, key);
                assert(self.stands_at(i, key));
                assert(self.tiles[i].key() == key);
            }
        }
        self.tiles
    }

    /// The wet buffer model: at every moment a tile of a stroke is shown as the paint
    /// of the stroke composited with the tile that the stroke found, and with nothing
    /// else. How the paint was put down leaves no trace.
    pub proof fn law_shown_tile(self, key: (u32, u32))
        requires
            self.wf(),
            self.map().dom().contains(key),
        ensures
            self.map()[key].current == blend::composited(
                self.map()[key].before,
                self.map()[key].wet,
                self.erases(),
            ),
    {
        let i = choose|i: int| self.stands_at(i, key);
        assert(self.stands_at(i, key));
        self.lemma_at(i);
    }
}

/// Maps that agree but at one key differ by what is inserted there.
proof fn lemma_insert(
    map: Map<(u32, u32), TileBuffers>,
    before: Map<(u32, u32), TileBuffers>,
    key: (u32, u32),
)
    requires
        map.dom().contains(key),
        map.remove(key) == before.remove(key),
    ensures
        map == before.insert(key, map[key]),
{
    let inserted = before.insert(key, map[key]);
    assert(map.dom().remove(key) == before.dom().remove(key)) by {
        assert(map.remove(key).dom() == before.remove(key).dom());
    }
    assert forall|k: (u32, u32)| #[trigger] map.dom().contains(k) == inserted.dom().contains(k) by {
        assert(map.dom().remove(key).contains(k) == before.dom().remove(key).contains(k));
    }
    assert forall|k: (u32, u32)| #[trigger] map.dom().contains(k) implies map[k]
        == inserted[k] by {
        if k != key {
            assert(map.remove(key)[k] == map[k]);
            assert(before.remove(key)[k] == before[k]);
        }
    }
    assert(map.dom() =~= inserted.dom());
    assert(map =~= inserted);
}

/// Whether a list holds the tiles of a map, each once.
pub open spec fn listing(tiles: Seq<StrokeTile>, map: Map<(u32, u32), TileBuffers>) -> bool {
    &&& forall|i: int, j: int|
        0 <= i < j < tiles.len() ==> (#[trigger] tiles[i]).key() != (#[trigger] tiles[j]).key()
    &&& forall|i: int|
        0 <= i < tiles.len() ==> {
            &&& map.dom().contains((#[trigger] tiles[i]).key())
            &&& map[tiles[i].key()] == tiles[i]@
        }
    &&& forall|key: (u32, u32)| #[trigger]
        map.dom().contains(key) ==> exists|i: int|
            0 <= i < tiles.len() && (#[trigger] tiles[i]).key() == key
}

/// Paint that is not there changes nothing.
pub proof fn lemma_blank(base: Seq<u8>, eraser: bool)
    ensures
        blend::composited(base, blank_tile(), eraser) == base,
{
    assert(blend::composited(base, blank_tile(), eraser) =~= base);
}

/// What was stored of a tile is what a stroke finds there, byte for byte, and what it shows
/// and would take back to. Only a tile of which nothing was stored is blank: 256 rows of
/// 256 pixels of four bytes, all of them zero. No paint has been put down on it yet.
pub proof fn law_stored_bytes_are_found(raw: Seq<u8>)
    ensures
        raw.len() > 0 ==> fresh_tile(raw).before == raw && fresh_tile(raw).current == raw,
        raw.len() == 0 ==> fresh_tile(raw).before.len() == 256 * 256 * 4,
        raw.len() == 0 ==> forall|j: int|
            0 <= j < 256 * 256 * 4 ==> #[trigger] fresh_tile(raw).before[j] == 0,
        fresh_tile(raw).current == fresh_tile(raw).before,
        fresh_tile(raw).wet.len() == 256 * 256 * 4,
        forall|j: int| 0 <= j < 256 * 256 * 4 ==> #[trigger] fresh_tile(raw).wet[j] == 0,
{
}

/// A wet buffer that is put on a tile is kept as it is, and so are the pixels that the stroke
/// found; of the pixels shown there are as many as were found.
pub proof fn law_wet_buffer_is_kept(tile: TileBuffers, wet: Seq<u8>, eraser: bool)
    ensures
        stamped_tile(tile, wet, eraser).wet == wet,
        stamped_tile(tile, wet, eraser).before == tile.before,
        stamped_tile(tile, wet, eraser).current.len() == tile.before.len(),
{
}

/// What is listed of the tiles of a stroke is all of them, each with the pixels from before
/// the stroke and the pixels that it shows, and nothing else.
pub proof fn law_list_is_whole(
    tiles: Seq<StrokeTile>,
    map: Map<(u32, u32), TileBuffers>,
    tx: u32,
    ty: u32,
)
    requires
        listing(tiles, map),
    ensures
        map.dom().contains((tx, ty)) <==> exists|i: int|
            0 <= i < tiles.len() && (#[trigger] tiles[i]).tx == tx && tiles[i].ty == ty,
        forall|i: int|
            0 <= i < tiles.len() && (#[trigger] tiles[i]).tx == tx && tiles[i].ty == ty ==> {
                &&& tiles[i].before@ == map[(tx, ty)].before
                &&& tiles[i].current@ == map[(tx, ty)].current
            },
        forall|i: int, j: int|
            0 <= i < tiles.len() && 0 <= j < tiles.len() && (#[trigger] tiles[i]).tx == (
            #[trigger] tiles[j]).tx && tiles[i].ty == tiles[j].ty ==> i == j,
{
    assert forall|i: int|
        0 <= i < tiles.len() && (#[trigger] tiles[i]).tx == tx && tiles[i].ty == ty implies ({
        &&& map.dom().contains((tx, ty))
        &&& tiles[i].before@ == map[(tx, ty)].before
        &&& tiles[i].current@ == map[(tx, ty)].current
    }) by {
        assert(tiles[i].key() == (tx, ty));
        assert(map[tiles[i].key()] == tiles[i]@);
    }
    if map.dom().contains((tx, ty)) {
        let i = choose|i: int| 0 <= i < tiles.len() && (#[trigger] tiles[i]).key() == (tx, ty);
        assert(tiles[i].tx == tx && tiles[i].ty == ty);
    }
    assert forall|i: int, j: int|
        0 <= i < tiles.len() && 0 <= j < tiles.len() && (#[trigger] tiles[i]).tx == (
        #[trigger] tiles[j]).tx && tiles[i].ty == tiles[j].ty implies i == j by {
        assert(tiles[i].key() == tiles[j].key());
    }
}

/// A tile without paint.
pub(super) fn blank() -> (r: Vec<u8>)
    ensures
        r@ == blank_tile(),
{
    let r: Vec<u8> = vec![0u8; TILE_BYTES];
    assert(r@ =~= blank_tile());
    r
}

/// A copy of a buffer.
pub(super) fn copy(bytes: &Vec<u8>) -> (r: Vec<u8>)
    ensures
        r@ == bytes@,
{
    let r: Vec<u8> = bytes.clone();
    assert(r@ =~= bytes@);
    r
}

/// The buffers of a tile, as values, are its bytes.
pub proof fn law_tile_as_values(tile: StrokeTile)
    ensures
        tile@.before == tile.before@,
        tile@.wet == tile.wet@,
        tile@.current == tile.current@,
        tile.key() == (tile.tx, tile.ty),
{
}

} // verus!
