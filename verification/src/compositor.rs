//! Composited tiles: putting them together into regions, and keeping them
//! until the document changes beneath them.

use crate::geom::IntRect;
use crate::grid::{lemma_place, lemma_place_inverse, lemma_place_of};
use crate::tile::{
    covered, law_covering_is_exact, law_every_pixel_has_its_tile, tile_of, tile_rank, tiles_across, tiles_down, without,
    TileCoord, TileGrid, TILE_PIXELS,
};
use std::sync::Arc;
use vstd::prelude::*;

verus! {

// -------------------------------------------------------------- regions

/// How many pixels wide a rectangle is.
pub open spec fn wide(rect: IntRect) -> int {
    if rect.right > rect.left {
        rect.right - rect.left
    } else {
        0
    }
}

/// How many pixels high a rectangle is.
pub open spec fn high(rect: IntRect) -> int {
    if rect.bottom > rect.top {
        rect.bottom - rect.top
    } else {
        0
    }
}

/// Sample `i` of a region, four a pixel: that of the pixel's own tile.
/// `tiles` holds the tiles that the region meets, row by row.
pub open spec fn region_sample<T>(region: IntRect, tiles: Seq<Vec<T>>, i: int) -> T {
    let p = i / 4;
    let (x, y) = (region.left + p % wide(region), region.top + p / wide(region));
    tiles[tile_rank(region, x, y)]@[tile_of(x, y).local(x, y) * 4 + i % 4]
}

/// The samples of a region.
pub open spec fn region_of<T>(region: IntRect, tiles: Seq<Vec<T>>) -> Seq<T> {
    Seq::new(
        (wide(region) * high(region) * 4) as nat,
        |i: int| region_sample(region, tiles, i),
    )
}

/// Whether the samples of a tile, four a pixel and row by row from its
/// corner, are those of a picture.
pub open spec fn tile_shows<T>(
    tile: Seq<T>,
    coord: TileCoord,
    picture: spec_fn(int, int, int) -> T,
) -> bool {
    forall|x: int, y: int, c: int|
        256 * coord.tx <= x < 256 * coord.tx + 256 && 256 * coord.ty <= y < 256 * coord.ty + 256
            && 0 <= c < 4 ==> #[trigger] picture(x, y, c) == tile[4 * (256 * (y - 256 * coord.ty)
            + (x - 256 * coord.tx)) + c]
}

/// A region shows what its tiles show: where each of the tiles that it
/// meets holds its part of a picture, the region holds the picture, four
/// samples a pixel and row by row from its own corner.
pub proof fn law_a_region_shows_its_tiles<T>(
    region: IntRect,
    tiles: Seq<Vec<T>>,
    picture: spec_fn(int, int, int) -> T,
    x: int,
    y: int,
    c: int,
)
    requires
        region.holds(x, y),
        0 <= c < 4,
        tiles.len() == covered(region).len(),
        forall|k: int|
            0 <= k < tiles.len() ==> tile_shows(
                #[trigger] tiles[k]@,
                covered(region)[k],
                picture,
            ),
    ensures
        region_of(region, tiles).len() == 4 * ((region.right - region.left) * (region.bottom
            - region.top)),
        ({
            let i = 4 * ((y - region.top) * (region.right - region.left) + (x - region.left)) + c;
            0 <= i < region_of(region, tiles).len() && region_of(region, tiles)[i] == picture(
                x,
                y,
                c,
            )
        }),
{
    let (w, h) = (region.right - region.left, region.bottom - region.top);
    let (row, col) = (y - region.top, x - region.left);
    let p = row * w + col;
    lemma_place(w, h, row, col);
    lemma_place_inverse(w, row, col);
    law_every_pixel_has_its_tile(region, x, y);
    let k = tile_rank(region, x, y);
    let coord = tile_of(x, y);
    assert(tile_shows(tiles[k]@, covered(region)[k], picture));
    assert((4 * p + c) / 4 == p && (4 * p + c) % 4 == c);
    let at = picture(x, y, c);
    assert(coord.tx == x / 256 && coord.ty == y / 256);
}

/// Whether `tiles` are whole and as many as a region meets.
pub open spec fn tiles_for<T>(region: IntRect, tiles: Seq<Vec<T>>) -> bool {
    &&& tiles.len() == covered(region).len()
    &&& forall|k: int| 0 <= k < tiles.len() ==> (#[trigger] tiles[k])@.len() == TILE_PIXELS * 4
}

/// Puts the tiles that a region meets, row by row as
/// [`TileCoord::covering`] lists them, together into the region's samples,
/// four a pixel and tightly packed.
pub fn composite_region<T: Copy>(region: IntRect, tiles: &Vec<Vec<T>>) -> (out: Vec<T>)
    requires
        i32::MIN <= region.right - region.left <= i32::MAX,
        i32::MIN <= region.bottom - region.top <= i32::MAX,
        wide(region) * high(region) * 4 <= usize::MAX,
        tiles_for(region, tiles@),
    ensures
        out@ == region_of(region, tiles@),
{
    let (w, h): (usize, usize) = (region.width() as usize, region.height() as usize);
    let ghost goal = region_of(region, tiles@);
    proof {
        assert(0 <= w * h) by (nonlinear_arith)
            requires
                0 <= w,
                0 <= h,
        ;
    }
    let pixels: usize = w * h;
    let mut out: Vec<T> = Vec::new();
    if pixels == 0 {
        assert(out@ =~= goal);
        return out;
    }
    proof {
        assert(w > 0 && h > 0) by (nonlinear_arith)
            requires
                w * h > 0,
                0 <= w,
                0 <= h,
        ;
    }
    let first = TileCoord::containing(region.left, region.top);
    let last = TileCoord::containing(region.right - 1, region.bottom - 1);
    let across: usize = (last.tx - first.tx) as usize + 1;
    assert(across == tiles_across(region));
    let mut p: usize = 0;
    while p < pixels
        invariant
            w == wide(region),
            h == high(region),
            w > 0,
            h > 0,
            !region.empty(),
            pixels == w * h,
            pixels * 4 <= usize::MAX,
            i32::MIN <= region.right - region.left <= i32::MAX,
            i32::MIN <= region.bottom - region.top <= i32::MAX,
            first == tile_of(region.left as int, region.top as int),
            across == tiles_across(region),
            tiles_for(region, tiles@),
            p <= pixels,
            goal == region_of(region, tiles@),
            out@ == goal.take(4 * p),
        decreases pixels - p,
    {
        proof {
            lemma_place_of(w as int, h as int, p as int);
        }
        let (ox, oy): (usize, usize) = (p % w, p / w);
        let (x, y): (i32, i32) = (region.left + ox as i32, region.top + oy as i32);
        proof {
            assert(region.holds(x as int, y as int));
            law_every_pixel_has_its_tile(region, x as int, y as int);
        }
        let coord = TileCoord::containing(x, y);
        let ghost rank = tile_rank(region, x as int, y as int);
        let (col, row): (usize, usize) = (
            (coord.tx - first.tx) as usize,
            (coord.ty - first.ty) as usize,
        );
        assert(rank == row * across + col);
        assert(tiles@.len() == tiles.len());
        assert(0 <= row * across) by (nonlinear_arith)
            requires
                0 <= row,
                0 <= across,
        ;
        let tile = &tiles[row * across + col];
        let (lx, ly): (usize, usize) = (
            (x as i64 - coord.tx as i64 * 256) as usize,
            (y as i64 - coord.ty as i64 * 256) as usize,
        );
        let s: usize = (ly * 256 + lx) * 4;
        out.push(tile[s]);
        out.push(tile[s + 1]);
        out.push(tile[s + 2]);
        out.push(tile[s + 3]);
        proof {
            let q = p as int;
            assert((4 * q) / 4 == q && (4 * q + 1) / 4 == q && (4 * q + 2) / 4 == q && (4 * q + 3)
                / 4 == q);
            assert((4 * q) % 4 == 0 && (4 * q + 1) % 4 == 1 && (4 * q + 2) % 4 == 2 && (4 * q + 3)
                % 4 == 3);
            assert(goal[4 * q] == tile@[s as int]);
            assert(goal[4 * q + 1] == tile@[s + 1]);
            assert(goal[4 * q + 2] == tile@[s + 2]);
            assert(goal[4 * q + 3] == tile@[s + 3]);
            assert(goal.take(4 * (q + 1)) =~= goal.take(4 * q).push(goal[4 * q]).push(
                goal[4 * q + 1],
            ).push(goal[4 * q + 2]).push(goal[4 * q + 3]));
        }
        p = p + 1;
    }
    assert(goal.take(4 * pixels) =~= goal);
    out
}

// -------------------------------------------------------------- buffers

/// Tile buffers that are used again. A composition takes one for every
/// nested layer, and how deep it nests sets how many are kept.
#[derive(Debug)]
pub struct Scratch<T> {
    free: Vec<Vec<T>>,
}

impl<T: Copy> Scratch<T> {
    /// Whether the buffers kept are whole, and few.
    pub closed spec fn well_formed(&self) -> bool {
        &&& self.free@.len() <= 8
        &&& forall|k: int|
            0 <= k < self.free@.len() ==> (#[trigger] self.free@[k])@.len() == TILE_PIXELS * 4
    }

    /// How many buffers are kept.
    pub closed spec fn kept(&self) -> int {
        self.free@.len() as int
    }

    /// None yet.
    pub fn new() -> (scratch: Scratch<T>)
        ensures
            scratch.well_formed(),
            scratch.kept() == 0,
    {
        Scratch { free: Vec::new() }
    }

    /// A blank buffer, four samples a pixel: one that was given back, or a
    /// new one.
    pub fn take(&mut self, blank: T) -> (buf: Vec<T>)
        requires
            old(self).well_formed(),
        ensures
            final(self).well_formed(),
            final(self).kept() == if old(self).kept() > 0 {
                old(self).kept() - 1
            } else {
                0
            },
            buf@ == Seq::new((TILE_PIXELS * 4) as nat, |i: int| blank),
    {
        let mut buf: Vec<T> = match self.free.pop() {
            Some(buf) => buf,
            None => vec![blank; TILE_PIXELS * 4],
        };
        let mut i: usize = 0;
        while i < TILE_PIXELS * 4
            invariant
                i <= TILE_PIXELS * 4,
                buf@.len() == TILE_PIXELS * 4,
                forall|k: int| 0 <= k < i ==> #[trigger] buf@[k] == blank,
            decreases TILE_PIXELS * 4 - i,
        {
            buf.set(i, blank);
            i = i + 1;
        }
        assert(buf@ =~= Seq::new((TILE_PIXELS * 4) as nat, |i: int| blank));
        buf
    }

    /// Gives a buffer back. Past eight it is let go.
    pub fn give(&mut self, buf: Vec<T>)
        requires
            old(self).well_formed(),
            buf@.len() == TILE_PIXELS * 4,
        ensures
            final(self).well_formed(),
            final(self).kept() == if old(self).kept() < 8 {
                old(self).kept() + 1
            } else {
                8
            },
    {
        if self.free.len() < 8 {
            self.free.push(buf);
        }
    }
}

// ------------------------------------------------------------ the cache

/// Damage-driven cache of composited tiles, as bytes. Invalidate with the
/// document's damage, then fetch.
pub struct TileCache {
    tiles: TileGrid<Arc<Vec<u8>>>,
}

impl View for TileCache {
    type V = Map<(i32, i32), Arc<Vec<u8>>>;

    closed spec fn view(&self) -> Map<(i32, i32), Arc<Vec<u8>>> {
        self.tiles@
    }
}

/// A cache with tiles put into it in order.
pub open spec fn warmed(
    cache: Map<(i32, i32), Arc<Vec<u8>>>,
    computed: Seq<(TileCoord, Arc<Vec<u8>>)>,
    n: int,
) -> Map<(i32, i32), Arc<Vec<u8>>>
    decreases n,
{
    if n <= 0 {
        cache
    } else {
        warmed(cache, computed, n - 1).insert(computed[n - 1].0.key(), computed[n - 1].1)
    }
}

/// The coordinates of a list that a cache lacks.
pub open spec fn lacking(cache: Map<(i32, i32), Arc<Vec<u8>>>, coords: Seq<TileCoord>, n: int) -> Seq<
    TileCoord,
>
    decreases n,
{
    if n <= 0 {
        Seq::empty()
    } else if cache.contains_key(coords[n - 1].key()) {
        lacking(cache, coords, n - 1)
    } else {
        lacking(cache, coords, n - 1).push(coords[n - 1])
    }
}

impl TileCache {
    /// An empty cache.
    pub fn new() -> (cache: TileCache)
        ensures
            cache@ == Map::<(i32, i32), Arc<Vec<u8>>>::empty(),
    {
        TileCache { tiles: TileGrid::new() }
    }

    /// Forgets the tiles that a rectangle meets.
    pub fn invalidate(&mut self, rect: &IntRect)
        requires
            tiles_across(*rect) * tiles_down(*rect) <= usize::MAX,
        ensures
            final(self)@ == without(old(self)@, covered(*rect)),
    {
        let coords = TileCoord::covering(rect);
        self.tiles.remove_all(coords.as_slice());
    }

    /// Forgets every tile.
    pub fn invalidate_all(&mut self)
        ensures
            final(self)@ == Map::<(i32, i32), Arc<Vec<u8>>>::empty(),
    {
        self.tiles.clear()
    }

    /// The bytes of a tile: those kept, or else those that `composite`
    /// makes, which are then kept.
    pub fn get<F: FnOnce(TileCoord) -> Vec<u8>>(&mut self, coord: TileCoord, composite: F) -> (tile:
        Arc<Vec<u8>>)
        requires
            composite.requires((coord,)),
        ensures
            old(self)@.contains_key(coord.key()) ==> tile == old(self)@[coord.key()]
                && final(self)@ == old(self)@,
            !old(self)@.contains_key(coord.key()) ==> composite.ensures((coord,), *tile)
                && final(self)@ == old(self)@.insert(coord.key(), tile),
    {
        if let Some(tile) = self.tiles.get(coord) {
            return tile.clone();
        }
        let bytes: Vec<u8> = composite(coord);
        let tile = Arc::new(bytes);
        self.tiles.insert(coord, tile.clone());
        tile
    }

    /// Of a list of tiles, those that are not kept: what [`Self::prewarm`]
    /// is to be given.
    pub fn missing(&self, coords: &[TileCoord]) -> (out: Vec<TileCoord>)
        ensures
            out@ == lacking(self@, coords@, coords@.len() as int),
    {
        let mut out: Vec<TileCoord> = Vec::new();
        let mut i: usize = 0;
        while i < coords.len()
            invariant
                i <= coords@.len(),
                out@ == lacking(self@, coords@, i as int),
            decreases coords@.len() - i,
        {
            if self.tiles.get(coords[i]).is_none() {
                out.push(coords[i]);
            }
            i = i + 1;
        }
        out
    }

    /// Keeps tiles that were composited ahead of being fetched.
    pub fn prewarm(&mut self, computed: Vec<(TileCoord, Arc<Vec<u8>>)>)
        ensures
            final(self)@ == warmed(old(self)@, computed@, computed@.len() as int),
    {
        let ghost start = self@;
        let mut i: usize = 0;
        while i < computed.len()
            invariant
                i <= computed@.len(),
                self@ == warmed(start, computed@, i as int),
            decreases computed@.len() - i,
        {
            let (coord, tile) = &computed[i];
            self.tiles.insert(*coord, tile.clone());
            i = i + 1;
        }
    }
}

impl Default for TileCache {
    fn default() -> (cache: TileCache)
        ensures
            cache@ == Map::<(i32, i32), Arc<Vec<u8>>>::empty(),
    {
        TileCache::new()
    }
}

/// After an invalidation no kept tile shares a pixel with the rectangle,
/// and every other tile is kept as it was.
pub proof fn law_invalidation_is_exact(
    cache: Map<(i32, i32), Arc<Vec<u8>>>,
    rect: IntRect,
    coord: TileCoord,
)
    requires
        coord.on_grid(),
    ensures
        ({
            let left = without(cache, covered(rect));
            if coord.area().overlap(rect).empty() {
                left.contains_key(coord.key()) == cache.contains_key(coord.key())
                    && (cache.contains_key(coord.key()) ==> left[coord.key()]
                    == cache[coord.key()])
            } else {
                !left.contains_key(coord.key())
            }
        }),
{
    law_covering_is_exact(rect, coord);
}

proof fn lemma_warmed_holds(
    cache: Map<(i32, i32), Arc<Vec<u8>>>,
    computed: Seq<(TileCoord, Arc<Vec<u8>>)>,
    n: int,
    key: (i32, i32),
)
    requires
        0 <= n <= computed.len(),
    ensures
        warmed(cache, computed, n).contains_key(key) <==> cache.contains_key(key) || exists|j: int|
            0 <= j < n && (#[trigger] computed[j]).0.key() == key,
    decreases n,
{
    if n > 0 {
        lemma_warmed_holds(cache, computed, n - 1, key);
        if computed[n - 1].0.key() == key {
            assert(0 <= n - 1 < n && computed[n - 1].0.key() == key);
        }
    }
}

proof fn lemma_lacking_lists(
    cache: Map<(i32, i32), Arc<Vec<u8>>>,
    coords: Seq<TileCoord>,
    n: int,
    i: int,
)
    requires
        0 <= i < n <= coords.len(),
        !cache.contains_key(coords[i].key()),
    ensures
        lacking(cache, coords, n).contains(coords[i]),
    decreases n,
{
    let all = lacking(cache, coords, n);
    if i == n - 1 {
        assert(all.last() == coords[i]);
    } else {
        lemma_lacking_lists(cache, coords, n - 1, i);
        let before = lacking(cache, coords, n - 1);
        let k = before.index_of(coords[i]);
        assert(all[k] == coords[i]);
    }
}

proof fn lemma_nothing_lacking(cache: Map<(i32, i32), Arc<Vec<u8>>>, coords: Seq<TileCoord>, n: int)
    requires
        0 <= n <= coords.len(),
        forall|i: int| 0 <= i < n ==> cache.contains_key((#[trigger] coords[i]).key()),
    ensures
        lacking(cache, coords, n).len() == 0,
    decreases n,
{
    if n > 0 {
        lemma_nothing_lacking(cache, coords, n - 1);
    }
}

/// Once a cache is warmed with a tile for each of those that it lacked, it
/// lacks none of them.
pub proof fn law_warming_leaves_nothing_lacking(
    cache: Map<(i32, i32), Arc<Vec<u8>>>,
    coords: Seq<TileCoord>,
    computed: Seq<(TileCoord, Arc<Vec<u8>>)>,
)
    requires
        computed.len() == lacking(cache, coords, coords.len() as int).len(),
        forall|j: int|
            0 <= j < computed.len() ==> (#[trigger] computed[j]).0 == lacking(
                cache,
                coords,
                coords.len() as int,
            )[j],
    ensures
        lacking(
            warmed(cache, computed, computed.len() as int),
            coords,
            coords.len() as int,
        ).len() == 0,
{
    let missing = lacking(cache, coords, coords.len() as int);
    let after = warmed(cache, computed, computed.len() as int);
    assert forall|i: int| 0 <= i < coords.len() implies after.contains_key(
        (#[trigger] coords[i]).key(),
    ) by {
        let key = coords[i].key();
        lemma_warmed_holds(cache, computed, computed.len() as int, key);
        if !cache.contains_key(key) {
            lemma_lacking_lists(cache, coords, coords.len() as int, i);
            let j = missing.index_of(coords[i]);
            assert(computed[j].0 == coords[i]);
        }
    }
    lemma_nothing_lacking(after, coords, coords.len() as int);
}

} // verus!
