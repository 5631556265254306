//! Tiles: the squares that a document's pixels are kept and composited in.

use crate::geom::IntRect;
use crate::grid::{lemma_place, lemma_place_inverse, lemma_place_of, place};
use rustc_hash::FxHashMap;
use vstd::prelude::*;

verus! {

/// Pixels along a side of a tile.
pub const TILE_SIZE: i32 = 256;

/// Pixels of a tile.
pub const TILE_PIXELS: usize = 65536;

/// A tile, by its column and row in the grid of all tiles.
#[derive(Debug, Clone, Copy, PartialEq, Eq, Hash, Structural)]
pub struct TileCoord {
    pub tx: i32,
    pub ty: i32,
}

/// The column (or row) of tiles that a pixel's column (or row) falls in.
pub open spec fn tile_index(p: int) -> int {
    p / 256
}

/// The tile that holds a pixel.
pub open spec fn tile_of(x: int, y: int) -> TileCoord {
    TileCoord { tx: tile_index(x) as i32, ty: tile_index(y) as i32 }
}

fn index_of(p: i32) -> (t: i32)
    ensures
        t == tile_index(p as int),
        -0x80_0000 <= t <= 0x7f_ffff,
{
    if p >= 0 {
        p / 256
    } else {
        -((-(p + 1)) / 256) - 1
    }
}

impl TileCoord {
    /// Whether the edges of the tile are pixel coordinates.
    pub open spec fn on_grid(self) -> bool {
        -0x80_0000 <= self.tx < 0x7f_ffff && -0x80_0000 <= self.ty < 0x7f_ffff
    }

    /// The pixels of the tile.
    pub open spec fn area(self) -> IntRect {
        IntRect {
            left: (self.tx * 256) as i32,
            top: (self.ty * 256) as i32,
            right: (self.tx * 256 + 256) as i32,
            bottom: (self.ty * 256 + 256) as i32,
        }
    }

    /// The place of a pixel among those of the tile.
    pub open spec fn local(self, x: int, y: int) -> int {
        place(256, y - self.ty * 256, x - self.tx * 256)
    }

    /// The tile that holds a pixel.
    pub fn containing(x: i32, y: i32) -> (coord: TileCoord)
        ensures
            coord == tile_of(x as int, y as int),
    {
        TileCoord { tx: index_of(x), ty: index_of(y) }
    }

    /// The pixels of the tile.
    pub fn rect(&self) -> (r: IntRect)
        requires
            self.on_grid(),
        ensures
            r == self.area(),
    {
        let (left, top): (i32, i32) = (self.tx * 256, self.ty * 256);
        IntRect { left, top, right: left + 256, bottom: top + 256 }
    }

    /// The tiles that share a pixel with a rectangle, row by row.
    pub fn covering(rect: &IntRect) -> (coords: Vec<TileCoord>)
        requires
            tiles_across(*rect) * tiles_down(*rect) <= usize::MAX,
        ensures
            coords@ == covered(*rect),
    {
        let mut coords: Vec<TileCoord> = Vec::new();
        if rect.is_empty() {
            assert(coords@ =~= covered(*rect));
            return coords;
        }
        let (x0, x1): (i32, i32) = (index_of(rect.left), index_of(rect.right - 1));
        let (y0, y1): (i32, i32) = (index_of(rect.top), index_of(rect.bottom - 1));
        let ghost (across, down) = (tiles_across(*rect), tiles_down(*rect));
        assert(across == x1 - x0 + 1 && down == y1 - y0 + 1);
        let mut ty: i32 = y0;
        while ty <= y1
            invariant
                !rect.empty(),
                -0x80_0000 <= x0 <= x1 <= 0x7f_ffff,
                y0 <= ty <= y1 + 1,
                -0x80_0000 <= y0,
                y1 <= 0x7f_ffff,
                x0 == tile_index(rect.left as int),
                y0 == tile_index(rect.top as int),
                across == x1 - x0 + 1,
                down == y1 - y0 + 1,
                across == tiles_across(*rect),
                down == tiles_down(*rect),
                coords@ == covered(*rect).take(across * (ty - y0)),
                0 <= across * (ty - y0) <= across * down,
                covered(*rect).len() == across * down,
            decreases y1 - ty + 1,
        {
            let mut tx: i32 = x0;
            let ghost row = ty - y0;
            proof {
                assert(across * row + across == across * (row + 1)) by (nonlinear_arith);
                assert(across * (row + 1) <= across * down) by (nonlinear_arith)
                    requires
                        row + 1 <= down,
                        0 <= across,
                ;
            }
            while tx <= x1
                invariant
                    !rect.empty(),
                    -0x80_0000 <= x0 <= tx <= x1 + 1,
                    x1 <= 0x7f_ffff,
                    y0 <= ty <= y1 <= 0x7f_ffff,
                    -0x80_0000 <= y0,
                    x0 == tile_index(rect.left as int),
                    y0 == tile_index(rect.top as int),
                    across == x1 - x0 + 1,
                    across == tiles_across(*rect),
                    down == tiles_down(*rect),
                    row == ty - y0,
                    covered(*rect).len() == across * down,
                    0 <= across * row,
                    across * row + across <= across * down,
                    coords@ == covered(*rect).take(across * row + (tx - x0)),
                decreases x1 - tx + 1,
            {
                let coord = TileCoord { tx, ty };
                proof {
                    let at = across * row + (tx - x0);
                    lemma_place_inverse(across, row, tx - x0);
                    assert(place(across, row, tx - x0) == at) by (nonlinear_arith)
                        requires
                            place(across, row, tx - x0) == row * across + (tx - x0),
                            at == across * row + (tx - x0),
                    ;
                    assert(covered(*rect)[at] == coord);
                    assert(covered(*rect).take(at + 1) =~= covered(*rect).take(at).push(coord));
                }
                coords.push(coord);
                tx = tx + 1;
            }
            ty = ty + 1;
        }
        assert(covered(*rect).take(across * down) =~= covered(*rect));
        coords
    }
}

/// How many columns of tiles a rectangle meets.
pub open spec fn tiles_across(rect: IntRect) -> int {
    if rect.empty() {
        0
    } else {
        tile_index(rect.right - 1) - tile_index(rect.left as int) + 1
    }
}

/// How many rows of tiles a rectangle meets.
pub open spec fn tiles_down(rect: IntRect) -> int {
    if rect.empty() {
        0
    } else {
        tile_index(rect.bottom - 1) - tile_index(rect.top as int) + 1
    }
}

/// The tiles that a rectangle meets, row by row.
pub open spec fn covered(rect: IntRect) -> Seq<TileCoord> {
    let across = tiles_across(rect);
    Seq::new(
        (across * tiles_down(rect)) as nat,
        |i: int|
            TileCoord {
                tx: (tile_index(rect.left as int) + i % across) as i32,
                ty: (tile_index(rect.top as int) + i / across) as i32,
            },
    )
}

/// Where the tile of a pixel stands among those that a rectangle meets.
pub open spec fn tile_rank(rect: IntRect, x: int, y: int) -> int {
    place(
        tiles_across(rect),
        tile_index(y) - tile_index(rect.top as int),
        tile_index(x) - tile_index(rect.left as int),
    )
}

/// Every pixel of a rectangle lies in one of the tiles that the rectangle
/// meets, at its own place.
pub proof fn law_every_pixel_has_its_tile(rect: IntRect, x: int, y: int)
    requires
        rect.holds(x, y),
    ensures
        0 <= tile_rank(rect, x, y) < covered(rect).len(),
        covered(rect)[tile_rank(rect, x, y)] == tile_of(x, y),
        0 <= tile_of(x, y).local(x, y) < TILE_PIXELS,
{
    let (across, down) = (tiles_across(rect), tiles_down(rect));
    let (col, row) = (
        tile_index(x) - tile_index(rect.left as int),
        tile_index(y) - tile_index(rect.top as int),
    );
    lemma_place(across, down, row, col);
    lemma_place_inverse(across, row, col);
    lemma_place(256, 256, y - tile_index(y) * 256, x - tile_index(x) * 256);
}

/// The tiles that a rectangle meets are listed once each, from the top row
/// down and in a row from left to right.
pub proof fn law_covering_goes_row_by_row(rect: IntRect, i: int, j: int)
    requires
        0 <= i < j < covered(rect).len(),
    ensures
        covered(rect)[i].ty < covered(rect)[j].ty || covered(rect)[i].ty == covered(rect)[j].ty
            && covered(rect)[i].tx < covered(rect)[j].tx,
{
    let (across, down) = (tiles_across(rect), tiles_down(rect));
    assert(across > 0 && down > 0) by (nonlinear_arith)
        requires
            across * down > 0,
            across >= 0,
            down >= 0,
    ;
    lemma_place_of(across, down, i);
    lemma_place_of(across, down, j);
    if i / across > j / across {
        assert((i / across) * across >= (j / across + 1) * across) by (nonlinear_arith)
            requires
                i / across >= j / across + 1,
                across > 0,
        ;
        assert((j / across + 1) * across == (j / across) * across + across) by (nonlinear_arith);
    }
}

/// A rectangle meets exactly the tiles that it shares a pixel with.
pub proof fn law_covering_is_exact(rect: IntRect, coord: TileCoord)
    requires
        coord.on_grid(),
    ensures
        covered(rect).contains(coord) <==> !coord.area().overlap(rect).empty(),
{
    let (across, down) = (tiles_across(rect), tiles_down(rect));
    let area = coord.area();
    let shared = area.overlap(rect);
    if covered(rect).contains(coord) {
        let i = covered(rect).index_of(coord);
        assert(across > 0) by (nonlinear_arith)
            requires
                0 <= i < across * down,
                0 <= across,
                0 <= down,
        ;
        lemma_place_of(across, down, i);
    }
    if !shared.empty() {
        let (x, y) = (shared.left as int, shared.top as int);
        assert(rect.holds(x, y) && area.holds(x, y));
        law_every_pixel_has_its_tile(rect, x, y);
        assert(tile_of(x, y) == coord);
    }
}

/// No tile is met twice.
pub proof fn law_covering_does_not_repeat(rect: IntRect, i: int, j: int)
    requires
        0 <= i < covered(rect).len(),
        0 <= j < covered(rect).len(),
        covered(rect)[i] == covered(rect)[j],
    ensures
        i == j,
{
    let (across, down) = (tiles_across(rect), tiles_down(rect));
    assert(across > 0) by (nonlinear_arith)
        requires
            0 <= i < across * down,
            0 <= across,
            0 <= down,
    ;
    lemma_place_of(across, down, i);
    lemma_place_of(across, down, j);
}

/// Two different tiles share no pixel.
pub proof fn law_tiles_are_apart(a: TileCoord, b: TileCoord, x: int, y: int)
    requires
        a.on_grid(),
        b.on_grid(),
        a.area().holds(x, y),
        b.area().holds(x, y),
    ensures
        a == b,
{
}

// ------------------------------------------------------ tiles in a map

/// The hasher of `rustc_hash`'s maps.
#[verifier::external_type_specification]
#[verifier::external_body]
pub struct ExFxBuildHasher(rustc_hash::FxBuildHasher);

/// `HashMap::get` of an `FxHashMap`: the value under a key, and none
/// exactly when there is no such key.
#[verifier::external_body]
fn fetch<V>(map: &FxHashMap<(i32, i32), V>, key: (i32, i32)) -> (r: Option<&V>)
    ensures
        match r {
            Some(value) => map@.contains_key(key) && *value == map@[key],
            None => !map@.contains_key(key),
        },
{
    map.get(&key)
}

/// `HashMap::insert` of an `FxHashMap`: the key holds the value
/// afterwards, and every other key what it held.
#[verifier::external_body]
fn store<V>(map: &mut FxHashMap<(i32, i32), V>, key: (i32, i32), value: V)
    ensures
        final(map)@ == old(map)@.insert(key, value),
{
    map.insert(key, value);
}

/// `HashMap::remove` of an `FxHashMap`: the key is gone afterwards, and
/// every other key holds what it held.
#[verifier::external_body]
fn discard<V>(map: &mut FxHashMap<(i32, i32), V>, key: (i32, i32))
    ensures
        final(map)@ == old(map)@.remove(key),
{
    map.remove(&key);
}

/// A sample of a pixel: an integer, or the bits of a float.
pub trait Sample: Copy {
    /// Whether the sample is zero.
    spec fn is_none(self) -> bool;

    /// Whether the sample is zero.
    fn is_zero(self) -> (r: bool)
        ensures
            r == self.is_none(),
    ;
}

impl Sample for u8 {
    open spec fn is_none(self) -> bool {
        self == 0
    }

    fn is_zero(self) -> (r: bool) {
        self == 0
    }
}

impl Sample for u16 {
    open spec fn is_none(self) -> bool {
        self == 0
    }

    fn is_zero(self) -> (r: bool) {
        self == 0
    }
}

impl Sample for u32 {
    /// The sign of a float's zero does not count.
    open spec fn is_none(self) -> bool {
        self == 0 || self == 0x8000_0000
    }

    fn is_zero(self) -> (r: bool) {
        self == 0 || self == 0x8000_0000
    }
}

/// Whether no pixel of a tile shows: the fourth sample of each is zero.
pub open spec fn transparent<T: Sample>(tile: Seq<[T; 4]>) -> bool {
    forall|i: int| 0 <= i < tile.len() ==> (#[trigger] tile[i])[3].is_none()
}

/// Whether no pixel of a tile shows.
pub fn is_transparent<T: Sample>(tile: &[[T; 4]]) -> (r: bool)
    ensures
        r == transparent(tile@),
{
    let mut i: usize = 0;
    while i < tile.len()
        invariant
            i <= tile@.len(),
            forall|k: int| 0 <= k < i ==> (#[trigger] tile@[k])[3].is_none(),
        decreases tile@.len() - i,
    {
        if !tile[i][3].is_zero() {
            assert(!tile@[i as int][3].is_none());
            return false;
        }
        i = i + 1;
    }
    true
}

/// The tiles of a map of which some pixel shows.
pub open spec fn shown<T: Sample>(tiles: Map<(i32, i32), Vec<[T; 4]>>) -> Map<
    (i32, i32),
    Vec<[T; 4]>,
> {
    Map::new(
        |key: (i32, i32)| tiles.contains_key(key) && !transparent(tiles[key]@),
        |key: (i32, i32)| tiles[key],
    )
}

/// `HashMap::retain` of an `FxHashMap`, for the tiles of which some pixel
/// shows: those stay as they are, and no other does.
#[verifier::external_body]
fn retain_shown<T: Sample>(map: &mut FxHashMap<(i32, i32), Vec<[T; 4]>>)
    ensures
        final(map)@ == shown(old(map)@),
{
    map.retain(|_, tile| !is_transparent(tile));
}

/// Tiles by their coordinates.
pub struct TileGrid<V> {
    tiles: FxHashMap<(i32, i32), V>,
}

impl<V> View for TileGrid<V> {
    type V = Map<(i32, i32), V>;

    closed spec fn view(&self) -> Map<(i32, i32), V> {
        self.tiles@
    }
}

impl TileCoord {
    /// The coordinates as a key.
    pub open spec fn key(self) -> (i32, i32) {
        (self.tx, self.ty)
    }
}

/// A map without the keys of some tiles.
pub open spec fn without<V>(map: Map<(i32, i32), V>, coords: Seq<TileCoord>) -> Map<(i32, i32), V> {
    Map::new(
        |key: (i32, i32)|
            map.contains_key(key) && !coords.contains(TileCoord { tx: key.0, ty: key.1 }),
        |key: (i32, i32)| map[key],
    )
}

impl<T: Sample> TileGrid<Vec<[T; 4]>> {
    /// Takes the tiles away of which no pixel shows.
    pub fn prune_blank(&mut self)
        ensures
            final(self)@ == shown(old(self)@),
    {
        retain_shown(&mut self.tiles)
    }
}

impl<V> TileGrid<V> {
    /// No tiles.
    pub fn new() -> (grid: TileGrid<V>)
        ensures
            grid@ == Map::<(i32, i32), V>::empty(),
    {
        TileGrid { tiles: FxHashMap::default() }
    }

    /// The tile at a coordinate.
    pub fn get(&self, coord: TileCoord) -> (r: Option<&V>)
        ensures
            match r {
                Some(value) => self@.contains_key(coord.key()) && *value == self@[coord.key()],
                None => !self@.contains_key(coord.key()),
            },
    {
        fetch(&self.tiles, (coord.tx, coord.ty))
    }

    /// Puts a tile at a coordinate.
    pub fn insert(&mut self, coord: TileCoord, value: V)
        ensures
            final(self)@ == old(self)@.insert(coord.key(), value),
    {
        store(&mut self.tiles, (coord.tx, coord.ty), value)
    }

    /// Takes a tile away.
    pub fn remove(&mut self, coord: TileCoord)
        ensures
            final(self)@ == old(self)@.remove(coord.key()),
    {
        discard(&mut self.tiles, (coord.tx, coord.ty))
    }

    /// Takes every tile away.
    pub fn clear(&mut self)
        ensures
            final(self)@ == Map::<(i32, i32), V>::empty(),
    {
        self.tiles.clear()
    }

    /// Takes the tiles of a list away.
    pub fn remove_all(&mut self, coords: &[TileCoord])
        ensures
            final(self)@ == without(old(self)@, coords@),
    {
        let ghost start = self@;
        let mut i: usize = 0;
        assert(self@ =~= without(start, coords@.take(0)));
        while i < coords.len()
            invariant
                i <= coords@.len(),
                self@ == without(start, coords@.take(i as int)),
            decreases coords@.len() - i,
        {
            let coord = coords[i];
            self.remove(coord);
            proof {
                let (a, b) = (coords@.take(i as int), coords@.take(i + 1));
                assert(b =~= a.push(coord));
                assert forall|c: TileCoord| b.contains(c) <==> a.contains(c) || c == coord by {
                    if b.contains(c) {
                        let k = b.index_of(c);
                        assert(k < i ==> a[k] == c);
                    }
                    if a.contains(c) {
                        assert(b[a.index_of(c)] == c);
                    }
                    assert(b[i as int] == coord);
                }
                assert(self@ =~= without(start, b));
            }
            i = i + 1;
        }
        assert(coords@.take(coords@.len() as int) =~= coords@);
    }
}

impl<V> Default for TileGrid<V> {
    fn default() -> (grid: TileGrid<V>)
        ensures
            grid@ == Map::<(i32, i32), V>::empty(),
    {
        TileGrid::new()
    }
}

} // verus!
