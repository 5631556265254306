//! Planar channel data into tiles.

use crate::geom::IntRect;
use crate::grid::{lemma_place, lemma_place_inverse, place};
use crate::tile::{
    covered, law_covering_does_not_repeat, law_every_pixel_has_its_tile, shown, tile_of,
    tiles_across, tiles_down, Sample, TileCoord, TileGrid, TILE_PIXELS,
};
use vstd::prelude::*;

verus! {

/// Planar channels for one rectangle. A missing colour plane reads as
/// zero; a missing alpha plane as fully opaque.
pub struct ColorPlanes<T> {
    pub r: Option<Vec<T>>,
    pub g: Option<Vec<T>>,
    pub b: Option<Vec<T>>,
    pub a: Option<Vec<T>>,
}

impl<T> Default for ColorPlanes<T> {
    fn default() -> (planes: ColorPlanes<T>)
        ensures
            planes.r is None && planes.g is None && planes.b is None && planes.a is None,
    {
        ColorPlanes { r: None, g: None, b: None, a: None }
    }
}

/// Sample `i` of a plane, or what stands for one that is not there.
pub open spec fn plane_value<T>(plane: Option<Vec<T>>, i: int, other: T) -> T {
    match plane {
        Some(values) => if i < values@.len() {
            values@[i]
        } else {
            other
        },
        None => other,
    }
}

fn read_plane<T: Copy>(plane: &Option<Vec<T>>, i: usize, other: T) -> (v: T)
    ensures
        v == plane_value(*plane, i as int, other),
{
    match plane {
        Some(values) => if i < values.len() {
            values[i]
        } else {
            other
        },
        None => other,
    }
}

impl<T: Copy> ColorPlanes<T> {
    /// Whether no plane is there.
    pub fn is_empty(&self) -> (r: bool)
        ensures
            r == (self.r is None && self.g is None && self.b is None && self.a is None),
    {
        self.r.is_none() && self.g.is_none() && self.b.is_none() && self.a.is_none()
    }

    /// The four samples of pixel `i`.
    pub fn pixel(&self, i: usize, zero: T, one: T) -> (p: [T; 4])
        ensures
            p@ == seq![
                plane_value(self.r, i as int, zero),
                plane_value(self.g, i as int, zero),
                plane_value(self.b, i as int, zero),
                plane_value(self.a, i as int, one),
            ],
    {
        let p: [T; 4] = [
            read_plane(&self.r, i, zero),
            read_plane(&self.g, i, zero),
            read_plane(&self.b, i, zero),
            read_plane(&self.a, i, one),
        ];
        assert(p@ =~= seq![
            plane_value(self.r, i as int, zero),
            plane_value(self.g, i as int, zero),
            plane_value(self.b, i as int, zero),
            plane_value(self.a, i as int, one),
        ]);
        p
    }
}

/// The pixel of a tile at a place: its column and row in the document.
pub open spec fn pixel_at(coord: TileCoord, i: int) -> (int, int) {
    (coord.tx * 256 + i % 256, coord.ty * 256 + i / 256)
}

/// What a rectangle's data, stored row by row, holds for a pixel of it;
/// `beyond` where the data ends early.
pub open spec fn source_value<P>(rect: IntRect, src: Seq<P>, beyond: P, x: int, y: int) -> P {
    let at = place(rect.right - rect.left, y - rect.top, x - rect.left);
    if at < src.len() {
        src[at]
    } else {
        beyond
    }
}

/// A tile with the pixels it shares with a rectangle written.
pub open spec fn written<P>(
    tile: Seq<P>,
    coord: TileCoord,
    rect: IntRect,
    src: Seq<P>,
    beyond: P,
) -> Seq<P> {
    Seq::new(
        tile.len(),
        |i: int|
            {
                let (x, y) = pixel_at(coord, i);
                if rect.holds(x, y) {
                    source_value(rect, src, beyond, x, y)
                } else {
                    tile[i]
                }
            },
    )
}

/// A tile as it was, or a blank one.
pub open spec fn tile_before<P>(tiles: Map<(i32, i32), Vec<P>>, coord: TileCoord, blank: P) -> Seq<
    P,
> {
    if tiles.contains_key(coord.key()) {
        tiles[coord.key()]@
    } else {
        Seq::new(TILE_PIXELS as nat, |i: int| blank)
    }
}

/// Whether every tile is whole.
pub open spec fn whole_tiles<P>(tiles: Map<(i32, i32), Vec<P>>) -> bool {
    forall|key: (i32, i32)| #[trigger]
        tiles.contains_key(key) ==> tiles[key]@.len() == TILE_PIXELS
}

/// Whether tiles are what filling the first `n` of `coords` makes of
/// others.
pub open spec fn filled<P>(
    before: Map<(i32, i32), Vec<P>>,
    after: Map<(i32, i32), Vec<P>>,
    coords: Seq<TileCoord>,
    rect: IntRect,
    src: Seq<P>,
    beyond: P,
    blank: P,
) -> bool {
    &&& forall|key: (i32, i32)|
        #![trigger after.contains_key(key)]
        after.contains_key(key) <==> before.contains_key(key) || coords.contains(
            TileCoord { tx: key.0, ty: key.1 },
        )
    &&& forall|key: (i32, i32)|
        #![trigger after[key]]
        after.contains_key(key) ==> if coords.contains(TileCoord { tx: key.0, ty: key.1 }) {
            after[key]@ == written(
                tile_before(before, TileCoord { tx: key.0, ty: key.1 }, blank),
                TileCoord { tx: key.0, ty: key.1 },
                rect,
                src,
                beyond,
            )
        } else {
            after[key] == before[key]
        }
}

fn blank_tile<P: Copy>(blank: P) -> (tile: Vec<P>)
    ensures
        tile@ == Seq::new(TILE_PIXELS as nat, |i: int| blank),
{
    let mut tile: Vec<P> = Vec::new();
    let mut i: usize = 0;
    while i < TILE_PIXELS
        invariant
            i <= TILE_PIXELS,
            tile@ == Seq::new(i as nat, |k: int| blank),
        decreases TILE_PIXELS - i,
    {
        tile.push(blank);
        i = i + 1;
        assert(tile@ =~= Seq::new(i as nat, |k: int| blank));
    }
    tile
}

fn copied<P: Copy>(tile: &Vec<P>) -> (copy: Vec<P>)
    ensures
        copy@ == tile@,
{
    let mut copy: Vec<P> = Vec::new();
    let mut i: usize = 0;
    while i < tile.len()
        invariant
            i <= tile@.len(),
            copy@ == tile@.take(i as int),
        decreases tile@.len() - i,
    {
        copy.push(tile[i]);
        i = i + 1;
        assert(copy@ =~= tile@.take(i as int));
    }
    assert(tile@.take(tile@.len() as int) =~= tile@);
    copy
}

fn write_tile<P: Copy>(tile: Vec<P>, coord: TileCoord, rect: IntRect, src: &[P], beyond: P) -> (out:
    Vec<P>)
    requires
        tile@.len() == TILE_PIXELS,
        rect.right - rect.left <= i32::MAX,
        rect.bottom - rect.top <= i32::MAX,
    ensures
        out@ == written(tile@, coord, rect, src@, beyond),
{
    assert(src@.len() == src.len());
    let ghost goal = written(tile@, coord, rect, src@, beyond);
    let mut out: Vec<P> = Vec::new();
    let mut i: usize = 0;
    while i < TILE_PIXELS
        invariant
            src@.len() == src.len(),
            tile@.len() == TILE_PIXELS,
            rect.right - rect.left <= i32::MAX,
            rect.bottom - rect.top <= i32::MAX,
            i <= TILE_PIXELS,
            goal == written(tile@, coord, rect, src@, beyond),
            out@ == goal.take(i as int),
        decreases TILE_PIXELS - i,
    {
        let x: i64 = coord.tx as i64 * 256 + (i % 256) as i64;
        let y: i64 = coord.ty as i64 * 256 + (i / 256) as i64;
        assert((x as int, y as int) == pixel_at(coord, i as int));
        let inside: bool = rect.left as i64 <= x && x < rect.right as i64 && rect.top as i64 <= y
            && y < rect.bottom as i64;
        let value: P = if inside {
            let w: u64 = (rect.right as i64 - rect.left as i64) as u64;
            let (sx, sy): (u64, u64) = ((x - rect.left as i64) as u64, (y - rect.top as i64) as u64);
            proof {
                lemma_place(w as int, rect.bottom - rect.top, sy as int, sx as int);
                assert(w * (rect.bottom - rect.top) <= 0x7fff_ffff * 0x7fff_ffff)
                    by (nonlinear_arith)
                    requires
                        0 <= w <= 0x7fff_ffff,
                        0 <= rect.bottom - rect.top <= 0x7fff_ffff,
                ;
            }
            let at: u64 = sy * w + sx;
            if at < src.len() as u64 {
                src[at as usize]
            } else {
                beyond
            }
        } else {
            tile[i]
        };
        out.push(value);
        i = i + 1;
        assert(out@ =~= goal.take(i as int));
    }
    assert(goal.take(TILE_PIXELS as int) =~= goal);
    out
}

/// Writes a rectangle's data, row by row, into tiles; `beyond` stands for
/// data that ends early and `blank` for what a new tile holds.
pub fn fill<P: Copy>(tiles: &mut TileGrid<Vec<P>>, rect: IntRect, src: &[P], beyond: P, blank: P)
    requires
        whole_tiles(old(tiles)@),
        rect.right - rect.left <= i32::MAX,
        rect.bottom - rect.top <= i32::MAX,
        tiles_across(rect) * tiles_down(rect) <= usize::MAX,
    ensures
        whole_tiles(final(tiles)@),
        filled(old(tiles)@, final(tiles)@, covered(rect), rect, src@, beyond, blank),
{
    let ghost before = tiles@;
    let coords = TileCoord::covering(&rect);
    let mut i: usize = 0;
    assert(coords@.take(0) =~= Seq::empty());
    while i < coords.len()
        invariant
            rect.right - rect.left <= i32::MAX,
            rect.bottom - rect.top <= i32::MAX,
            i <= coords@.len(),
            coords@ == covered(rect),
            whole_tiles(before),
            whole_tiles(tiles@),
            filled(before, tiles@, coords@.take(i as int), rect, src@, beyond, blank),
        decreases coords@.len() - i,
    {
        let coord = coords[i];
        let ghost (done, next) = (coords@.take(i as int), coords@.take(i + 1));
        let ghost mid = tiles@;
        proof {
            assert(next =~= done.push(coord));
            assert forall|c: TileCoord| next.contains(c) <==> done.contains(c) || c == coord by {
                if next.contains(c) {
                    let k = next.index_of(c);
                    assert(k < i ==> done[k] == c);
                }
                if done.contains(c) {
                    assert(next[done.index_of(c)] == c);
                }
                assert(next[i as int] == coord);
            }
            if done.contains(coord) {
                law_covering_does_not_repeat(rect, done.index_of(coord), i as int);
            }
            assert(mid.contains_key(coord.key()) == before.contains_key(coord.key()));
        }
        let tile: Vec<P> = match tiles.get(coord) {
            Some(tile) => copied(tile),
            None => blank_tile(blank),
        };
        assert(tile@ == tile_before(before, coord, blank)) by {
            if before.contains_key(coord.key()) {
                assert(mid[coord.key()] == before[coord.key()]);
            }
        }
        let out = write_tile(tile, coord, rect, src, beyond);
        tiles.insert(coord, out);
        assert(whole_tiles(tiles@));
        assert(filled(before, tiles@, next, rect, src@, beyond, blank)) by {
            assert forall|key: (i32, i32)| #[trigger] tiles@.contains_key(key) implies if next.contains(
                TileCoord { tx: key.0, ty: key.1 },
            ) {
                tiles@[key]@ == written(
                    tile_before(before, TileCoord { tx: key.0, ty: key.1 }, blank),
                    TileCoord { tx: key.0, ty: key.1 },
                    rect,
                    src@,
                    beyond,
                )
            } else {
                tiles@[key] == before[key]
            } by {
                if key == coord.key() {
                } else {
                    assert(mid.contains_key(key));
                    assert(tiles@[key] == mid[key]);
                }
            }
            assert forall|key: (i32, i32)| #[trigger]
                tiles@.contains_key(key) <==> before.contains_key(key) || next.contains(
                    TileCoord { tx: key.0, ty: key.1 },
                ) by {
                assert(mid.contains_key(key) || key == coord.key() <==> tiles@.contains_key(key));
            }
        }
        i = i + 1;
    }
    assert(coords@.take(coords@.len() as int) =~= coords@);
}

/// Writes an 8-bit coverage plane into mask tiles; data that ends early
/// and new tiles read as zero.
pub fn fill_mask_tiles(tiles: &mut TileGrid<Vec<u8>>, rect: IntRect, bytes: &[u8])
    requires
        whole_tiles(old(tiles)@),
        rect.right - rect.left <= i32::MAX,
        rect.bottom - rect.top <= i32::MAX,
        tiles_across(rect) * tiles_down(rect) <= usize::MAX,
    ensures
        whole_tiles(final(tiles)@),
        filled(old(tiles)@, final(tiles)@, covered(rect), rect, bytes@, 0u8, 0u8),
{
    fill(tiles, rect, bytes, 0, 0)
}

/// The four samples of pixel `i` of planes.
pub open spec fn pixel_of<T>(planes: ColorPlanes<T>, i: int, zero: T, one: T) -> [T; 4] {
    [
        plane_value(planes.r, i, zero),
        plane_value(planes.g, i, zero),
        plane_value(planes.b, i, zero),
        plane_value(planes.a, i, one),
    ]
}

/// The pixels of a rectangle, row by row.
pub open spec fn pixels_of<T>(planes: ColorPlanes<T>, n: int, zero: T, one: T) -> Seq<[T; 4]> {
    Seq::new(n as nat, |i: int| pixel_of(planes, i, zero, one))
}

/// Writes planar channel data into tiles. Nothing is written where there
/// is no plane. Tiles of which no pixel shows are taken away.
pub fn fill_tiles<T: Sample>(
    tiles: &mut TileGrid<Vec<[T; 4]>>,
    rect: IntRect,
    planes: &ColorPlanes<T>,
    zero: T,
    one: T,
)
    requires
        whole_tiles(old(tiles)@),
        rect.right - rect.left <= i32::MAX,
        rect.bottom - rect.top <= i32::MAX,
        !rect.empty() ==> (rect.right - rect.left) * (rect.bottom - rect.top) <= usize::MAX,
        tiles_across(rect) * tiles_down(rect) <= usize::MAX,
    ensures
        whole_tiles(final(tiles)@),
        if rect.empty() || (planes.r is None && planes.g is None && planes.b is None
            && planes.a is None) {
            final(tiles)@ == old(tiles)@
        } else {
            exists|all: Map<(i32, i32), Vec<[T; 4]>>|
                filled(
                    old(tiles)@,
                    all,
                    covered(rect),
                    rect,
                    pixels_of(
                        *planes,
                        (rect.right - rect.left) * (rect.bottom - rect.top),
                        zero,
                        one,
                    ),
                    [zero, zero, zero, zero],
                    [zero, zero, zero, zero],
                ) && final(tiles)@ == #[trigger] shown(all)
        },
{
    if rect.is_empty() || planes.is_empty() {
        return;
    }
    let (w, h): (usize, usize) = (rect.width() as usize, rect.height() as usize);
    let n: usize = w * h;
    let mut src: Vec<[T; 4]> = Vec::new();
    let mut i: usize = 0;
    while i < n
        invariant
            i <= n,
            src@ == pixels_of(*planes, i as int, zero, one),
        decreases n - i,
    {
        let p = planes.pixel(i, zero, one);
        assert(p =~= pixel_of(*planes, i as int, zero, one));
        src.push(p);
        i = i + 1;
        assert(src@ =~= pixels_of(*planes, i as int, zero, one));
    }
    let clear: [T; 4] = [zero, zero, zero, zero];
    assert(clear =~= [zero, zero, zero, zero]);
    fill(tiles, rect, src.as_slice(), clear, clear);
    let ghost all = tiles@;
    tiles.prune_blank();
    assert(tiles@ == shown(all));
}

/// Filling writes every pixel of the rectangle and no other: a pixel of it
/// holds the data's value afterwards, and a pixel beside it what it held.
pub proof fn law_filling_is_exact<P>(
    before: Map<(i32, i32), Vec<P>>,
    after: Map<(i32, i32), Vec<P>>,
    rect: IntRect,
    src: Seq<P>,
    beyond: P,
    blank: P,
    x: int,
    y: int,
)
    requires
        whole_tiles(before),
        filled(before, after, covered(rect), rect, src, beyond, blank),
        i32::MIN <= x <= i32::MAX,
        i32::MIN <= y <= i32::MAX,
    ensures
        ({
            let coord = tile_of(x, y);
            let at = coord.local(x, y);
            if rect.holds(x, y) {
                after.contains_key(coord.key()) && after[coord.key()]@[at] == source_value(
                    rect,
                    src,
                    beyond,
                    x,
                    y,
                )
            } else {
                before.contains_key(coord.key()) ==> after.contains_key(coord.key())
                    && after[coord.key()]@[at] == before[coord.key()]@[at]
            }
        }),
{
    let coord = tile_of(x, y);
    let at = coord.local(x, y);
    lemma_place(256, 256, y - coord.ty * 256, x - coord.tx * 256);
    lemma_place_inverse(256, y - coord.ty * 256, x - coord.tx * 256);
    assert(pixel_at(coord, at) == (x, y));
    assert(coord == TileCoord { tx: coord.key().0, ty: coord.key().1 });
    if rect.holds(x, y) {
        law_every_pixel_has_its_tile(rect, x, y);
        assert(covered(rect).contains(coord));
        assert(after.contains_key(coord.key()));
    } else if before.contains_key(coord.key()) {
        assert(after.contains_key(coord.key()));
    }
}

/// A rectangle's data is stored row by row from its corner, and a pixel
/// past the end of it is what stands for one.
pub proof fn law_sources_are_stored_row_by_row<P>(
    rect: IntRect,
    src: Seq<P>,
    beyond: P,
    row: int,
    col: int,
)
    requires
        0 <= row < rect.bottom - rect.top,
        0 <= col < rect.right - rect.left,
    ensures
        ({
            let at = row * (rect.right - rect.left) + col;
            let value = source_value(rect, src, beyond, rect.left + col, rect.top + row);
            &&& at < src.len() ==> value == src[at]
            &&& at >= src.len() ==> value == beyond
        }),
{
}

/// A pixel takes its red, green, blue and alpha from the planes of those
/// names, in that order. A missing colour is nothing, and a missing alpha
/// all.
pub proof fn law_pixels_are_taken_from_their_planes<T>(
    planes: ColorPlanes<T>,
    i: int,
    zero: T,
    one: T,
)
    ensures
        ({
            let p = pixel_of(planes, i, zero, one)@;
            &&& planes.r is None ==> p[0] == zero
            &&& planes.g is None ==> p[1] == zero
            &&& planes.b is None ==> p[2] == zero
            &&& planes.a is None ==> p[3] == one
            &&& planes.r matches Some(r) ==> (i < r@.len() ==> p[0] == r@[i])
            &&& planes.g matches Some(g) ==> (i < g@.len() ==> p[1] == g@[i])
            &&& planes.b matches Some(b) ==> (i < b@.len() ==> p[2] == b@[i])
            &&& planes.a matches Some(a) ==> (i < a@.len() ==> p[3] == a@[i])
        }),
{
}

} // verus!
