//! What goes to a graphics processor and what comes back: how a batch of
//! tiles is split, how tiles, masks and operations are packed into words,
//! and how the result is cut into tiles again.

use crate::bytes::{le32, owned, read_le32};
use crate::grid::{lemma_place, lemma_place_inverse, lemma_place_of, place};
use crate::tile::{TileCoord, TILE_PIXELS, TILE_SIZE};
use vstd::prelude::*;
use vstd::slice::slice_subrange;

verus! {

/// Ceiling on any one buffer of a chunk, in bytes.
pub const BUDGET_BYTES: usize = 0x1000_0000;

/// Ceiling on the tiles of a chunk.
pub const MAX_CHUNK_TILES: usize = 128;

/// The larger of two limits, the first being capped at a gigabyte.
pub open spec fn limited(adapter: u64, default: u64) -> u64 {
    let capped = if adapter < 0x4000_0000 {
        adapter
    } else {
        0x4000_0000
    };
    if capped > default {
        capped
    } else {
        default
    }
}

/// A limit to ask a device for: what the adapter has, up to a gigabyte,
/// and at least the default.
pub fn limit(adapter: u64, default: u64) -> (r: u64)
    ensures
        r == limited(adapter, default),
{
    let capped: u64 = if adapter < 0x4000_0000 {
        adapter
    } else {
        0x4000_0000
    };
    if capped > default {
        capped
    } else {
        default
    }
}

// ---------------------------------------------------------------- chunks

/// Where the chunk that starts at `start` ends, having grown to `end` at a
/// cost of `bytes`: it grows while it is short and the next tile fits.
pub open spec fn chunk_end(costs: Seq<usize>, start: int, end: int, bytes: int) -> int
    decreases costs.len() - end,
{
    if 0 <= end < costs.len() && end - start < MAX_CHUNK_TILES && bytes + costs[end]
        <= BUDGET_BYTES {
        chunk_end(costs, start, end + 1, bytes + costs[end])
    } else {
        end
    }
}

/// The chunks of a batch from tile `start` on.
pub open spec fn chunks_from(costs: Seq<usize>, start: int) -> Seq<(int, int)>
    decreases costs.len() - start,
{
    let end = chunk_end(costs, start, start, 0);
    if start < 0 || start >= costs.len() || end <= start || end > costs.len() {
        Seq::empty()
    } else {
        seq![(start, end)] + chunks_from(costs, end)
    }
}

/// What the tiles from `from` up to `to` cost.
pub open spec fn cost_of(costs: Seq<usize>, from: int, to: int) -> int
    decreases to - from,
{
    if to <= from {
        0
    } else {
        cost_of(costs, from, to - 1) + costs[to - 1]
    }
}

/// Whether every tile of a batch fits the budget by itself.
pub open spec fn all_fit(costs: Seq<usize>) -> bool {
    forall|i: int| 0 <= i < costs.len() ==> #[trigger] costs[i] <= BUDGET_BYTES
}

proof fn lemma_chunk_end(costs: Seq<usize>, start: int, end: int, bytes: int)
    requires
        0 <= start <= end <= costs.len(),
        end - start <= MAX_CHUNK_TILES,
        bytes == cost_of(costs, start, end),
        bytes <= BUDGET_BYTES,
    ensures
        ({
            let e = chunk_end(costs, start, end, bytes);
            &&& end <= e <= costs.len()
            &&& e - start <= MAX_CHUNK_TILES
            &&& cost_of(costs, start, e) <= BUDGET_BYTES
        }),
    decreases costs.len() - end,
{
    if end < costs.len() && end - start < MAX_CHUNK_TILES && bytes + costs[end] <= BUDGET_BYTES {
        lemma_chunk_end(costs, start, end + 1, bytes + costs[end]);
    }
}

/// Ranges without their machine types.
pub open spec fn wide_ranges(ranges: Seq<(usize, usize)>) -> Seq<(int, int)> {
    ranges.map_values(|r: (usize, usize)| (r.0 as int, r.1 as int))
}

/// Splits a batch of tiles into chunks that keep to the budget; `None`
/// exactly when one tile alone exceeds it.
pub fn chunks(costs: &[usize]) -> (r: Option<Vec<(usize, usize)>>)
    ensures
        match r {
            Some(ranges) => all_fit(costs@) && wide_ranges(ranges@) == chunks_from(costs@, 0),
            None => !all_fit(costs@),
        },
{
    let mut k: usize = 0;
    while k < costs.len()
        invariant
            k <= costs@.len(),
            forall|i: int| 0 <= i < k ==> #[trigger] costs@[i] <= BUDGET_BYTES,
        decreases costs@.len() - k,
    {
        if costs[k] > BUDGET_BYTES {
            assert(costs@[k as int] > BUDGET_BYTES);
            return None;
        }
        k = k + 1;
    }
    let mut ranges: Vec<(usize, usize)> = Vec::new();
    let mut start: usize = 0;
    assert(wide_ranges(ranges@) + chunks_from(costs@, 0) =~= chunks_from(costs@, 0));
    while start < costs.len()
        invariant
            start <= costs@.len(),
            all_fit(costs@),
            wide_ranges(ranges@) + chunks_from(costs@, start as int) == chunks_from(costs@, 0),
        decreases costs@.len() - start,
    {
        let mut end: usize = start;
        let mut bytes: usize = 0;
        while end < costs.len() && end - start < MAX_CHUNK_TILES && costs[end] <= BUDGET_BYTES
            - bytes
            invariant
                start <= end <= costs@.len(),
                bytes <= BUDGET_BYTES,
                end - start <= MAX_CHUNK_TILES,
                end == start ==> bytes == 0,
                chunk_end(costs@, start as int, start as int, 0) == chunk_end(
                    costs@,
                    start as int,
                    end as int,
                    bytes as int,
                ),
            decreases costs@.len() - end,
        {
            bytes = bytes + costs[end];
            end = end + 1;
        }
        let ghost before = ranges@;
        ranges.push((start, end));
        proof {
            assert(end == chunk_end(costs@, start as int, start as int, 0));
            assert(end > start) by {
                assert(costs@[start as int] <= BUDGET_BYTES);
            }
            assert(wide_ranges(ranges@) =~= wide_ranges(before).push((start as int, end as int)));
            assert(wide_ranges(ranges@) + chunks_from(costs@, end as int) =~= wide_ranges(before)
                + (seq![(start as int, end as int)] + chunks_from(costs@, end as int)));
        }
        start = end;
    }
    assert(wide_ranges(ranges@) + chunks_from(costs@, start as int) =~= wide_ranges(ranges@));
    Some(ranges)
}

proof fn lemma_chunks(costs: Seq<usize>, start: int, k: int)
    requires
        all_fit(costs),
        0 <= start <= costs.len(),
        0 <= k < chunks_from(costs, start).len(),
    ensures
        ({
            let all = chunks_from(costs, start);
            let (from, to) = all[k];
            &&& start <= from < to <= costs.len()
            &&& to - from <= MAX_CHUNK_TILES
            &&& cost_of(costs, from, to) <= BUDGET_BYTES
            &&& from == if k == 0 {
                start
            } else {
                all[k - 1].1
            }
            &&& k == all.len() - 1 ==> to == costs.len()
        }),
    decreases costs.len() - start,
{
    lemma_chunk_end(costs, start, start, 0);
    let end = chunk_end(costs, start, start, 0);
    let rest = chunks_from(costs, end);
    let all = chunks_from(costs, start);
    assert(all == seq![(start, end)] + rest);
    if k > 0 {
        lemma_chunks(costs, end, k - 1);
        assert(all[k] == rest[k - 1]);
        if k > 1 {
            assert(all[k - 1] == rest[k - 2]);
        }
    } else if rest.len() == 0 {
        if end < costs.len() {
            lemma_chunk_end(costs, end, end, 0);
            assert(costs[end] <= BUDGET_BYTES);
            lemma_chunk_end(costs, end, end + 1, costs[end] as int);
            assert(false);
        }
    }
}

/// The chunks of a batch follow each other from its first tile to its
/// last, and each keeps to the ceilings on tiles and bytes.
pub proof fn law_chunks_partition_the_batch(costs: Seq<usize>, k: int)
    requires
        all_fit(costs),
        0 <= k < chunks_from(costs, 0).len(),
    ensures
        ({
            let all = chunks_from(costs, 0);
            let (from, to) = all[k];
            &&& 0 <= from < to <= costs.len()
            &&& to - from <= MAX_CHUNK_TILES
            &&& cost_of(costs, from, to) <= BUDGET_BYTES
            &&& from == if k == 0 {
                0
            } else {
                all[k - 1].1
            }
            &&& k == all.len() - 1 ==> to == costs.len()
        }),
{
    lemma_chunks(costs, 0, k);
}

/// A batch with a tile has a chunk.
pub proof fn law_no_batch_is_dropped(costs: Seq<usize>)
    requires
        all_fit(costs),
        costs.len() > 0,
    ensures
        chunks_from(costs, 0).len() > 0,
{
    assert(costs[0] <= BUDGET_BYTES);
    reveal_with_fuel(cost_of, 2);
    lemma_chunk_end(costs, 0, 1, cost_of(costs, 0, 1));
}

// --------------------------------------------------------------- packing

/// The pixels of a tile at their depth, four samples a pixel. The samples
/// of the deepest are single-precision numbers, given by their bits.
#[derive(Debug)]
pub enum TileBuf {
    U8(Vec<u8>),
    U16(Vec<u16>),
    F32(Vec<u32>),
}

/// The bits of the single-precision numbers that shallow samples stand
/// for: of every byte over 255, and of every word over 65535.
#[derive(Debug)]
pub struct Scales {
    pub eight: Vec<u32>,
    pub sixteen: Vec<u32>,
}

impl Scales {
    /// Whether there is an entry for every sample.
    pub open spec fn complete(self) -> bool {
        self.eight@.len() == 256 && self.sixteen@.len() == 65536
    }
}

impl TileBuf {
    /// How deep the pixels are.
    pub open spec fn depth(self) -> u32 {
        match self {
            TileBuf::U8(_) => 0,
            TileBuf::U16(_) => 1,
            TileBuf::F32(_) => 2,
        }
    }

    /// Whether there are all the samples of a tile.
    pub open spec fn whole(self) -> bool {
        TILE_PIXELS * 4 == match self {
            TileBuf::U8(d) => d@.len(),
            TileBuf::U16(d) => d@.len(),
            TileBuf::F32(d) => d@.len(),
        }
    }

    fn format(&self) -> (f: u32)
        ensures
            f == self.depth(),
    {
        match self {
            TileBuf::U8(_) => 0,
            TileBuf::U16(_) => 1,
            TileBuf::F32(_) => 2,
        }
    }
}

/// Four bytes as a word, the first the least significant.
pub open spec fn word_of(a: u8, b: u8, c: u8, d: u8) -> u32 {
    (a + 0x100 * b + 0x1_0000 * c + 0x100_0000 * d) as u32
}

/// Two samples as a word, the first in the lower half.
pub open spec fn pair_of(a: u16, b: u16) -> u32 {
    (a + 0x1_0000 * b) as u32
}

/// A byte widened to a word of the same share of its range.
pub open spec fn widened(v: u8) -> u16 {
    (v * 257) as u16
}

/// Bytes as words, four to each.
pub open spec fn packed_bytes(bytes: Seq<u8>) -> Seq<u32> {
    Seq::new(
        bytes.len() / 4,
        |i: int| word_of(bytes[4 * i], bytes[4 * i + 1], bytes[4 * i + 2], bytes[4 * i + 3]),
    )
}

/// A tile's pixels as words at a format at least as deep as they are.
pub open spec fn packed_pixels(buf: TileBuf, fmt: u32, scales: Scales) -> Seq<u32> {
    match buf {
        TileBuf::U8(d) => if fmt == 0 {
            packed_bytes(d@)
        } else if fmt == 1 {
            Seq::new(d@.len() / 2, |i: int| pair_of(widened(d@[2 * i]), widened(d@[2 * i + 1])))
        } else {
            Seq::new(d@.len(), |i: int| scales.eight@[d@[i] as int])
        },
        TileBuf::U16(d) => if fmt == 1 {
            Seq::new(d@.len() / 2, |i: int| pair_of(d@[2 * i], d@[2 * i + 1]))
        } else {
            Seq::new(d@.len(), |i: int| scales.sixteen@[d@[i] as int])
        },
        TileBuf::F32(d) => d@,
    }
}

fn push_bytes(out: &mut Vec<u32>, bytes: &[u8])
    ensures
        final(out)@ == old(out)@ + packed_bytes(bytes@),
{
    let ghost start = out@;
    let ghost goal = packed_bytes(bytes@);
    assert(bytes@.len() == bytes.len());
    let n: usize = bytes.len() / 4;
    let mut i: usize = 0;
    assert(out@ =~= start + goal.take(0));
    while i < n
        invariant
            bytes@.len() == bytes.len(),
            i <= n,
            n == bytes@.len() / 4,
            goal == packed_bytes(bytes@),
            out@ == start + goal.take(i as int),
        decreases n - i,
    {
        let k: usize = 4 * i;
        let w: u32 = bytes[k] as u32 + 0x100 * bytes[k + 1] as u32 + 0x1_0000 * bytes[k + 2] as u32
            + 0x100_0000 * bytes[k + 3] as u32;
        out.push(w);
        i = i + 1;
        assert(w == goal[i - 1]);
        assert(out@ =~= start + goal.take(i as int));
    }
    assert(goal.take(n as int) =~= goal);
}

fn push_wide_bytes(out: &mut Vec<u32>, d: &[u8])
    ensures
        final(out)@ == old(out)@ + Seq::new(
            d@.len() / 2,
            |i: int| pair_of(widened(d@[2 * i]), widened(d@[2 * i + 1])),
        ),
{
    let ghost start = out@;
    let ghost goal = Seq::new(
        d@.len() / 2,
        |i: int| pair_of(widened(d@[2 * i]), widened(d@[2 * i + 1])),
    );
    assert(d@.len() == d.len());
    let n: usize = d.len() / 2;
    let mut i: usize = 0;
    assert(out@ =~= start + goal.take(0));
    while i < n
        invariant
            d@.len() == d.len(),
            i <= n,
            n == d@.len() / 2,
            goal == Seq::new(
                d@.len() / 2,
                |i: int| pair_of(widened(d@[2 * i]), widened(d@[2 * i + 1])),
            ),
            out@ == start + goal.take(i as int),
        decreases n - i,
    {
        let w: u32 = d[2 * i] as u32 * 257 + 0x1_0000 * (d[2 * i + 1] as u32 * 257);
        out.push(w);
        i = i + 1;
        assert(w == goal[i - 1]);
        assert(out@ =~= start + goal.take(i as int));
    }
    assert(goal.take(n as int) =~= goal);
}

fn push_pairs(out: &mut Vec<u32>, d: &[u16])
    ensures
        final(out)@ == old(out)@ + Seq::new(
            d@.len() / 2,
            |i: int| pair_of(d@[2 * i], d@[2 * i + 1]),
        ),
{
    let ghost start = out@;
    let ghost goal = Seq::new(d@.len() / 2, |i: int| pair_of(d@[2 * i], d@[2 * i + 1]));
    assert(d@.len() == d.len());
    let n: usize = d.len() / 2;
    let mut i: usize = 0;
    assert(out@ =~= start + goal.take(0));
    while i < n
        invariant
            d@.len() == d.len(),
            i <= n,
            n == d@.len() / 2,
            goal == Seq::new(d@.len() / 2, |i: int| pair_of(d@[2 * i], d@[2 * i + 1])),
            out@ == start + goal.take(i as int),
        decreases n - i,
    {
        let w: u32 = d[2 * i] as u32 + 0x1_0000 * d[2 * i + 1] as u32;
        out.push(w);
        i = i + 1;
        assert(w == goal[i - 1]);
        assert(out@ =~= start + goal.take(i as int));
    }
    assert(goal.take(n as int) =~= goal);
}

fn push_looked_up8(out: &mut Vec<u32>, d: &[u8], table: &Vec<u32>)
    requires
        table@.len() == 256,
    ensures
        final(out)@ == old(out)@ + Seq::new(d@.len(), |i: int| table@[d@[i] as int]),
{
    let ghost start = out@;
    let ghost goal = Seq::new(d@.len(), |i: int| table@[d@[i] as int]);
    let mut i: usize = 0;
    assert(out@ =~= start + goal.take(0));
    while i < d.len()
        invariant
            table@.len() == 256,
            i <= d@.len(),
            goal == Seq::new(d@.len(), |i: int| table@[d@[i] as int]),
            out@ == start + goal.take(i as int),
        decreases d@.len() - i,
    {
        out.push(table[d[i] as usize]);
        i = i + 1;
        assert(out@ =~= start + goal.take(i as int));
    }
    assert(goal.take(d@.len() as int) =~= goal);
}

fn push_looked_up16(out: &mut Vec<u32>, d: &[u16], table: &Vec<u32>)
    requires
        table@.len() == 65536,
    ensures
        final(out)@ == old(out)@ + Seq::new(d@.len(), |i: int| table@[d@[i] as int]),
{
    let ghost start = out@;
    let ghost goal = Seq::new(d@.len(), |i: int| table@[d@[i] as int]);
    let mut i: usize = 0;
    assert(out@ =~= start + goal.take(0));
    while i < d.len()
        invariant
            table@.len() == 65536,
            i <= d@.len(),
            goal == Seq::new(d@.len(), |i: int| table@[d@[i] as int]),
            out@ == start + goal.take(i as int),
        decreases d@.len() - i,
    {
        out.push(table[d[i] as usize]);
        i = i + 1;
        assert(out@ =~= start + goal.take(i as int));
    }
    assert(goal.take(d@.len() as int) =~= goal);
}

fn push_words(out: &mut Vec<u32>, d: &[u32])
    ensures
        final(out)@ == old(out)@ + d@,
{
    let ghost start = out@;
    let mut i: usize = 0;
    assert(out@ =~= start + d@.take(0));
    while i < d.len()
        invariant
            i <= d@.len(),
            out@ == start + d@.take(i as int),
        decreases d@.len() - i,
    {
        out.push(d[i]);
        i = i + 1;
        assert(out@ =~= start + d@.take(i as int));
    }
    assert(d@.take(d@.len() as int) =~= d@);
}

/// Appends a tile's pixels at a format, widening without loss.
pub fn pack_pixels(out: &mut Vec<u32>, buf: &TileBuf, fmt: u32, scales: &Scales)
    requires
        scales.complete(),
    ensures
        final(out)@ == old(out)@ + packed_pixels(*buf, fmt, *scales),
{
    match buf {
        TileBuf::U8(d) => if fmt == 0 {
            push_bytes(out, d.as_slice())
        } else if fmt == 1 {
            push_wide_bytes(out, d.as_slice())
        } else {
            push_looked_up8(out, d.as_slice(), &scales.eight)
        },
        TileBuf::U16(d) => if fmt == 1 {
            push_pairs(out, d.as_slice())
        } else {
            push_looked_up16(out, d.as_slice(), &scales.sixteen)
        },
        TileBuf::F32(d) => push_words(out, d.as_slice()),
    }
}

/// Appends a mask's bytes.
pub fn pack_mask(out: &mut Vec<u32>, bytes: &[u8])
    ensures
        final(out)@ == old(out)@ + packed_bytes(bytes@),
{
    push_bytes(out, bytes)
}

proof fn lemma_four_bytes(a: int, b: int, c: int, d: int, w: int)
    requires
        0 <= a < 0x100,
        0 <= b < 0x100,
        0 <= c < 0x100,
        0 <= d < 0x100,
        w == a + 0x100 * b + 0x1_0000 * c + 0x100_0000 * d,
    ensures
        w % 0x100 == a,
        w / 0x100 % 0x100 == b,
        w / 0x1_0000 % 0x100 == c,
        w / 0x100_0000 == d,
{
    let three = c + 0x100 * d;
    let two = b + 0x100 * three;
    assert(w == a + 0x100 * two);
    assert(w / 0x100 == two);
    assert(two % 0x100 == b);
    assert(w == (a + 0x100 * b) + 0x1_0000 * three);
    assert(w / 0x1_0000 == three);
    assert(three % 0x100 == c);
    assert(w == (a + 0x100 * b + 0x1_0000 * c) + 0x100_0000 * d);
}

/// Packing bytes loses none: each can be read off its word.
pub proof fn law_packing_keeps_bytes(bytes: Seq<u8>, i: int)
    requires
        0 <= i < bytes.len() / 4 * 4,
    ensures
        ({
            let w = packed_bytes(bytes)[i / 4];
            bytes[i] == if i % 4 == 0 {
                w as int % 0x100
            } else if i % 4 == 1 {
                w as int / 0x100 % 0x100
            } else if i % 4 == 2 {
                w as int / 0x1_0000 % 0x100
            } else {
                w as int / 0x100_0000
            }
        }),
{
    let k = i / 4;
    let w = packed_bytes(bytes)[k];
    let (a, b, c, d) = (bytes[4 * k], bytes[4 * k + 1], bytes[4 * k + 2], bytes[4 * k + 3]);
    assert(w == a + 0x100 * b + 0x1_0000 * c + 0x100_0000 * d);
    lemma_four_bytes(a as int, b as int, c as int, d as int, w as int);
    assert(i == 4 * k || i == 4 * k + 1 || i == 4 * k + 2 || i == 4 * k + 3);
}

/// Widening a byte is exact: it stands for the same share of the wider
/// range.
pub proof fn law_widening_is_exact(v: u8)
    ensures
        widened(v) * 255 == v * 65535,
{
}

// --------------------------------------------------------- whole chunks

/// What one source of a plan has for the tiles of a chunk, in order.
#[derive(Debug)]
pub enum Source {
    Pixels(Vec<Option<TileBuf>>),
    Mask(Vec<Option<Vec<u8>>>),
}

impl Source {
    /// Whether there is an entry for every tile, and whole ones.
    pub open spec fn covers(self, n: int) -> bool {
        match self {
            Source::Pixels(tiles) => tiles@.len() == n && forall|t: int|
                0 <= t < n ==> ((#[trigger] tiles@[t]) matches Some(buf) ==> buf.whole()),
            Source::Mask(tiles) => tiles@.len() == n && forall|t: int|
                0 <= t < n ==> ((#[trigger] tiles@[t]) matches Some(bytes) ==> bytes@.len()
                    == TILE_PIXELS),
        }
    }

    /// The most bytes that the source can take for a tile.
    pub open spec fn cost(self, t: int) -> int {
        match self {
            Source::Pixels(tiles) => if tiles@[t] is Some {
                TILE_PIXELS * 16
            } else {
                0
            },
            Source::Mask(tiles) => if tiles@[t] is Some {
                TILE_PIXELS as int
            } else {
                0
            },
        }
    }

    /// The widest depth among the first `n` tiles.
    pub open spec fn format_of(self, n: int) -> u32
        decreases n,
    {
        match self {
            Source::Pixels(tiles) => if n <= 0 {
                0
            } else {
                let before = self.format_of(n - 1);
                match tiles@[n - 1] {
                    Some(buf) => if buf.depth() > before {
                        buf.depth()
                    } else {
                        before
                    },
                    None => before,
                }
            },
            Source::Mask(_) => 0,
        }
    }

    /// The words that the source has for a tile, of pixels.
    pub open spec fn pixel_words(self, t: int, fmt: u32, scales: Scales) -> Seq<u32> {
        match self {
            Source::Pixels(tiles) => match tiles@[t] {
                Some(buf) => packed_pixels(buf, fmt, scales),
                None => Seq::empty(),
            },
            Source::Mask(_) => Seq::empty(),
        }
    }

    /// The words that the source has for a tile, of masks.
    pub open spec fn mask_words(self, t: int) -> Seq<u32> {
        match self {
            Source::Pixels(_) => Seq::empty(),
            Source::Mask(tiles) => match tiles@[t] {
                Some(bytes) => packed_bytes(bytes@),
                None => Seq::empty(),
            },
        }
    }

    /// Whether the source has anything for a tile.
    pub open spec fn present(self, t: int) -> bool {
        match self {
            Source::Pixels(tiles) => tiles@[t] is Some,
            Source::Mask(tiles) => tiles@[t] is Some,
        }
    }
}

/// What the first `n` sources can take for a tile.
pub open spec fn sources_cost(sources: Seq<Source>, t: int, n: int) -> int
    decreases n,
{
    if n <= 0 {
        0
    } else {
        sources_cost(sources, t, n - 1) + sources[n - 1].cost(t)
    }
}

fn source_cost(source: &Source, t: usize) -> (bytes: usize)
    requires
        exists|n: int| t < n && #[trigger] source.covers(n),
    ensures
        bytes == source.cost(t as int),
        bytes <= TILE_PIXELS * 16,
{
    match source {
        Source::Pixels(tiles) => match &tiles[t] {
            Some(_) => TILE_PIXELS * 16,
            None => 0,
        },
        Source::Mask(tiles) => match &tiles[t] {
            Some(_) => TILE_PIXELS,
            None => 0,
        },
    }
}

/// The most bytes that a tile can take, whatever its depth.
pub fn tile_cost(sources: &Vec<Source>, t: usize, n: usize) -> (bytes: usize)
    requires
        t < n,
        sources@.len() * 0x10_0000 <= usize::MAX,
        forall|r: int| 0 <= r < sources@.len() ==> (#[trigger] sources@[r]).covers(n as int),
    ensures
        bytes == sources_cost(sources@, t as int, sources@.len() as int),
{
    let mut bytes: usize = 0;
    let mut r: usize = 0;
    while r < sources.len()
        invariant
            t < n,
            r <= sources@.len(),
            sources@.len() * 0x10_0000 <= usize::MAX,
            bytes <= r * 0x10_0000,
            forall|r: int| 0 <= r < sources@.len() ==> (#[trigger] sources@[r]).covers(n as int),
            bytes == sources_cost(sources@, t as int, r as int),
        decreases sources@.len() - r,
    {
        assert(sources@[r as int].covers(n as int));
        bytes = bytes + source_cost(&sources[r], t);
        r = r + 1;
    }
    bytes
}

/// What stands in for a slot where there is nothing.
pub const NO_SLOT: i32 = -1;

/// The words of a chunk: those of pixels, those of masks, and for every
/// source and tile where its words start, or -1 for none.
pub struct Packing {
    pub pixels: Seq<u32>,
    pub masks: Seq<u32>,
    pub slots: Seq<i32>,
}

/// The words of the first `k` entries of a chunk, source by source.
pub open spec fn packing(sources: Seq<Source>, scales: Scales, n: int, k: int) -> Packing
    decreases k,
{
    if k <= 0 {
        Packing { pixels: Seq::empty(), masks: Seq::empty(), slots: Seq::empty() }
    } else {
        let before = packing(sources, scales, n, k - 1);
        let (r, t) = ((k - 1) / n, (k - 1) % n);
        let source = sources[r];
        Packing {
            pixels: before.pixels + source.pixel_words(t, source.format_of(n), scales),
            masks: before.masks + source.mask_words(t),
            slots: before.slots.push(
                if !source.present(t) {
                    NO_SLOT
                } else if source is Pixels {
                    before.pixels.len() as i32
                } else {
                    before.masks.len() as i32
                },
            ),
        }
    }
}

/// What the first `k` entries of a chunk can take.
pub open spec fn entries_cost(sources: Seq<Source>, n: int, k: int) -> int
    decreases k,
{
    if k <= 0 {
        0
    } else {
        entries_cost(sources, n, k - 1) + sources[(k - 1) / n].cost((k - 1) % n)
    }
}

proof fn lemma_packing_fits(sources: Seq<Source>, scales: Scales, n: int, k: int)
    requires
        0 < n,
        0 <= k <= sources.len() * n,
        forall|r: int| 0 <= r < sources.len() ==> (#[trigger] sources[r]).covers(n),
    ensures
        packing(sources, scales, n, k).pixels.len() * 4 <= entries_cost(sources, n, k),
        packing(sources, scales, n, k).masks.len() * 4 <= entries_cost(sources, n, k),
        packing(sources, scales, n, k).slots.len() == k,
    decreases k,
{
    if k > 0 {
        lemma_packing_fits(sources, scales, n, k - 1);
        assert(n * sources.len() == sources.len() * n) by (nonlinear_arith);
        lemma_place_of(n, sources.len() as int, k - 1);
        let (r, t) = ((k - 1) / n, (k - 1) % n);
        let source = sources[r];
        assert(source.covers(n));
        match source {
            Source::Pixels(tiles) => {
                assert(tiles@[t] matches Some(buf) ==> buf.whole());
            },
            Source::Mask(tiles) => {
                assert(tiles@[t] matches Some(bytes) ==> bytes@.len() == TILE_PIXELS);
            },
        }
    }
}

proof fn lemma_costs_grow(sources: Seq<Source>, n: int, j: int, k: int)
    requires
        0 <= j <= k,
    ensures
        entries_cost(sources, n, j) <= entries_cost(sources, n, k),
    decreases k - j,
{
    if j < k {
        lemma_costs_grow(sources, n, j, k - 1);
    }
}

/// The words of a chunk as a graphics processor takes them.
#[derive(Debug)]
pub struct Chunk {
    /// The format that each source's pixels are packed at: the widest
    /// depth present.
    pub formats: Vec<u32>,
    pub pixels: Vec<u32>,
    pub masks: Vec<u32>,
    /// For every source and tile where its words start, or -1; one row of
    /// none where there is no source.
    pub slots: Vec<i32>,
}

fn format_of(source: &Source, n: usize) -> (f: u32)
    requires
        source.covers(n as int),
    ensures
        f == source.format_of(n as int),
{
    let mut f: u32 = 0;
    if let Source::Pixels(tiles) = source {
        let mut t: usize = 0;
        while t < n
            invariant
                t <= n,
                n == tiles@.len(),
                *source == Source::Pixels(*tiles),
                f == source.format_of(t as int),
            decreases n - t,
        {
            if let Some(buf) = &tiles[t] {
                let depth: u32 = buf.format();
                if depth > f {
                    f = depth;
                }
            }
            t = t + 1;
        }
    }
    f
}

/// Packs the tiles of a chunk.
pub fn pack_chunk(sources: &Vec<Source>, n: usize, scales: &Scales) -> (chunk: Chunk)
    requires
        0 < n,
        scales.complete(),
        sources@.len() * n <= usize::MAX,
        forall|r: int| 0 <= r < sources@.len() ==> (#[trigger] sources@[r]).covers(n as int),
        entries_cost(sources@, n as int, sources@.len() * n) <= BUDGET_BYTES,
    ensures
        ({
            let all = packing(sources@, *scales, n as int, sources@.len() * n);
            &&& chunk.formats@ == Seq::new(
                sources@.len(),
                |r: int| sources@[r].format_of(n as int),
            )
            &&& chunk.pixels@ == all.pixels
            &&& chunk.masks@ == all.masks
            &&& chunk.slots@ == if sources@.len() == 0 {
                Seq::new(n as nat, |t: int| NO_SLOT)
            } else {
                all.slots
            }
        }),
{
    let mut formats: Vec<u32> = Vec::new();
    let mut pixels: Vec<u32> = Vec::new();
    let mut masks: Vec<u32> = Vec::new();
    let mut slots: Vec<i32> = Vec::new();
    let ghost (ss, nn) = (sources@, n as int);
    let ghost total = ss.len() * nn;
    let mut r: usize = 0;
    while r < sources.len()
        invariant
            0 < n,
            ss == sources@,
            nn == n,
            total == ss.len() * nn,
            scales.complete(),
            total <= usize::MAX,
            forall|r: int| 0 <= r < ss.len() ==> (#[trigger] ss[r]).covers(nn),
            entries_cost(ss, nn, total) <= BUDGET_BYTES,
            r <= ss.len(),
            formats@ == Seq::new(r as nat, |k: int| ss[k].format_of(nn)),
            pixels@ == packing(ss, *scales, nn, r * nn).pixels,
            masks@ == packing(ss, *scales, nn, r * nn).masks,
            slots@ == packing(ss, *scales, nn, r * nn).slots,
        decreases ss.len() - r,
    {
        let source = &sources[r];
        assert(ss[r as int].covers(nn));
        let fmt: u32 = format_of(source, n);
        formats.push(fmt);
        assert(formats@ =~= Seq::new((r + 1) as nat, |k: int| ss[k].format_of(nn)));
        let mut t: usize = 0;
        proof {
            assert((r + 1) * nn == r * nn + nn) by (nonlinear_arith);
            assert((r + 1) * nn <= total) by (nonlinear_arith)
                requires
                    r + 1 <= ss.len(),
                    total == ss.len() * nn,
                    0 < nn,
            ;
            assert(0 <= r * nn) by (nonlinear_arith)
                requires
                    0 <= r,
                    0 < nn,
            ;
        }
        while t < n
            invariant
                0 < n,
                ss == sources@,
                nn == n,
                total == ss.len() * nn,
                scales.complete(),
                forall|r: int| 0 <= r < ss.len() ==> (#[trigger] ss[r]).covers(nn),
                entries_cost(ss, nn, total) <= BUDGET_BYTES,
                r < ss.len(),
                *source == ss[r as int],
                source.covers(nn),
                fmt == source.format_of(nn),
                t <= n,
                0 <= r * nn,
                r * nn + nn <= total,
                pixels@ == packing(ss, *scales, nn, r * nn + t).pixels,
                masks@ == packing(ss, *scales, nn, r * nn + t).masks,
                slots@ == packing(ss, *scales, nn, r * nn + t).slots,
            decreases n - t,
        {
            let ghost k = r * nn + t;
            proof {
                lemma_place_inverse(nn, r as int, t as int);
                assert(place(nn, r as int, t as int) == k);
                lemma_packing_fits(ss, *scales, nn, k);
                lemma_costs_grow(ss, nn, k, total);
            }
            match source {
                Source::Pixels(tiles) => match &tiles[t] {
                    Some(buf) => {
                        slots.push(pixels.len() as i32);
                        pack_pixels(&mut pixels, buf, fmt, scales);
                    },
                    None => {
                        slots.push(NO_SLOT);
                    },
                },
                Source::Mask(tiles) => match &tiles[t] {
                    Some(bytes) => {
                        slots.push(masks.len() as i32);
                        pack_mask(&mut masks, bytes.as_slice());
                    },
                    None => {
                        slots.push(NO_SLOT);
                    },
                },
            }
            proof {
                let next = packing(ss, *scales, nn, k + 1);
                assert(pixels@ =~= next.pixels);
                assert(masks@ =~= next.masks);
                assert(slots@ =~= next.slots);
            }
            t = t + 1;
        }
        r = r + 1;
    }
    if sources.len() == 0 {
        let mut t: usize = 0;
        assert(packing(ss, *scales, nn, 0).slots =~= Seq::empty());
        assert(ss.len() * nn == 0) by (nonlinear_arith)
            requires
                ss.len() == 0,
        ;
        while t < n
            invariant
                t <= n,
                slots@ == Seq::new(t as nat, |t: int| NO_SLOT),
            decreases n - t,
        {
            slots.push(NO_SLOT);
            t = t + 1;
            assert(slots@ =~= Seq::new(t as nat, |t: int| NO_SLOT));
        }
    }
    Chunk { formats, pixels, masks, slots }
}

/// What the first `n` tiles can take, with the first `rows` sources.
pub open spec fn tiles_cost(sources: Seq<Source>, rows: int, n: int) -> int
    decreases n,
{
    if n <= 0 {
        0
    } else {
        tiles_cost(sources, rows, n - 1) + sources_cost(sources, n - 1, rows)
    }
}

proof fn lemma_row_costs(sources: Seq<Source>, rows: int, n: int, t: int)
    requires
        0 <= rows < sources.len(),
        0 <= t <= n,
        0 < n,
    ensures
        entries_cost(sources, n, rows * n + t) - entries_cost(sources, n, rows * n) == tiles_cost(
            sources,
            rows + 1,
            t,
        ) - tiles_cost(sources, rows, t),
    decreases t,
{
    if t > 0 {
        lemma_row_costs(sources, rows, n, t - 1);
        lemma_place_inverse(n, rows, t - 1);
        assert(place(n, rows, t - 1) == rows * n + t - 1);
        assert(0 <= rows * n) by (nonlinear_arith)
            requires
                0 <= rows,
                0 < n,
        ;
    }
}

proof fn lemma_costs_agree(sources: Seq<Source>, rows: int, n: int)
    requires
        0 <= rows <= sources.len(),
        0 < n,
    ensures
        entries_cost(sources, n, rows * n) == tiles_cost(sources, rows, n),
    decreases rows,
{
    if rows == 0 {
        lemma_no_rows(sources, n);
        assert(rows * n == 0) by (nonlinear_arith)
            requires
                rows == 0,
        ;
    } else {
        lemma_costs_agree(sources, rows - 1, n);
        lemma_row_costs(sources, rows - 1, n, n);
        let start = (rows - 1) * n;
        assert(start + n == rows * n) by (nonlinear_arith)
            requires
                start == (rows - 1) * n,
        ;
        assert(entries_cost(sources, n, start + n) == entries_cost(sources, n, rows * n));
        assert(rows - 1 + 1 == rows);
    }
}

proof fn lemma_no_rows(sources: Seq<Source>, n: int)
    requires
        0 <= n,
    ensures
        tiles_cost(sources, 0, n) == 0,
    decreases n,
{
    if n > 0 {
        lemma_no_rows(sources, n - 1);
    }
}

/// A chunk costs what its tiles cost, so one that the split allows can be
/// packed.
pub proof fn law_a_chunk_costs_its_tiles(sources: Seq<Source>, n: int)
    requires
        0 < n,
    ensures
        entries_cost(sources, n, sources.len() * n) == tiles_cost(sources, sources.len() as int, n),
{
    lemma_costs_agree(sources, sources.len() as int, n);
}

proof fn lemma_packing_extends(sources: Seq<Source>, scales: Scales, n: int, j: int, k: int)
    requires
        0 <= j <= k,
    ensures
        ({
            let (early, late) = (packing(sources, scales, n, j), packing(sources, scales, n, k));
            &&& early.pixels.len() <= late.pixels.len()
            &&& early.masks.len() <= late.masks.len()
            &&& early.slots.len() == j
            &&& late.slots.len() == k
            &&& late.pixels.take(early.pixels.len() as int) == early.pixels
            &&& late.masks.take(early.masks.len() as int) == early.masks
            &&& late.slots.take(j) == early.slots
        }),
    decreases k,
{
    if j < k {
        lemma_packing_extends(sources, scales, n, j, k - 1);
        let (early, mid) = (packing(sources, scales, n, j), packing(sources, scales, n, k - 1));
        let late = packing(sources, scales, n, k);
        assert(late.pixels.take(early.pixels.len() as int) =~= mid.pixels.take(
            early.pixels.len() as int,
        ));
        assert(late.masks.take(early.masks.len() as int) =~= mid.masks.take(
            early.masks.len() as int,
        ));
        assert(late.slots.take(j) =~= mid.slots.take(j));
    } else {
        if k > 0 {
            lemma_packing_extends(sources, scales, n, k - 1, k - 1);
        }
        let all = packing(sources, scales, n, k);
        assert(all.pixels.take(all.pixels.len() as int) =~= all.pixels);
        assert(all.masks.take(all.masks.len() as int) =~= all.masks);
        assert(all.slots.take(k) =~= all.slots);
    }
}

/// The slot of every source and tile leads to that tile's own words: at
/// most one run of words a tile, pixels among the pixels and masks among
/// the masks, and -1 where the source has nothing for the tile.
pub proof fn law_slots_lead_to_their_words(
    sources: Seq<Source>,
    scales: Scales,
    n: int,
    r: int,
    t: int,
)
    requires
        0 <= r < sources.len(),
        0 <= t < n,
        forall|r: int| 0 <= r < sources.len() ==> (#[trigger] sources[r]).covers(n),
        entries_cost(sources, n, sources.len() * n) <= BUDGET_BYTES,
    ensures
        ({
            let all = packing(sources, scales, n, sources.len() * n);
            let slot = all.slots[r * n + t];
            &&& all.slots.len() == sources.len() * n
            &&& match sources[r] {
                Source::Pixels(tiles) => match tiles@[t] {
                    Some(buf) => {
                        let words = packed_pixels(buf, sources[r].format_of(n), scales);
                        0 <= slot && slot + words.len() <= all.pixels.len() && all.pixels.subrange(
                            slot as int,
                            slot + words.len(),
                        ) == words
                    },
                    None => slot == -1,
                },
                Source::Mask(tiles) => match tiles@[t] {
                    Some(bytes) => {
                        let words = packed_bytes(bytes@);
                        0 <= slot && slot + words.len() <= all.masks.len() && all.masks.subrange(
                            slot as int,
                            slot + words.len(),
                        ) == words
                    },
                    None => slot == -1,
                },
            }
        }),
{
    let (rows, end) = (sources.len() as int, sources.len() * n);
    let k = r * n + t;
    lemma_place(n, rows, r, t);
    lemma_place_inverse(n, r, t);
    assert(n * rows == rows * n) by (nonlinear_arith);
    let (before, next) = (packing(sources, scales, n, k), packing(sources, scales, n, k + 1));
    let all = packing(sources, scales, n, end);
    lemma_packing_extends(sources, scales, n, k, k + 1);
    lemma_packing_extends(sources, scales, n, k + 1, end);
    lemma_packing_fits(sources, scales, n, k);
    lemma_costs_grow(sources, n, k, end);
    assert(all.slots[k] == all.slots.take(k + 1)[k]);
    assert(next.slots[k] == next.slots.last());
    match sources[r] {
        Source::Pixels(tiles) => if let Some(buf) = tiles@[t] {
            let words = packed_pixels(buf, sources[r].format_of(n), scales);
            let at = before.pixels.len() as int;
            assert(next.pixels == before.pixels + words);
            assert(all.pixels.subrange(at, at + words.len()) =~= all.pixels.take(
                next.pixels.len() as int,
            ).subrange(at, at + words.len()));
            assert(next.pixels.subrange(at, at + words.len()) =~= words);
        },
        Source::Mask(tiles) => if let Some(bytes) = tiles@[t] {
            let words = packed_bytes(bytes@);
            let at = before.masks.len() as int;
            assert(next.masks == before.masks + words);
            assert(all.masks.subrange(at, at + words.len()) =~= all.masks.take(
                next.masks.len() as int,
            ).subrange(at, at + words.len()));
            assert(next.masks.subrange(at, at + words.len()) =~= words);
        },
    }
}

/// A source is packed at the widest depth among its tiles: none is wider,
/// and one is as wide, unless all are of bytes.
pub proof fn law_sources_are_as_wide_as_their_tiles(
    tiles: Vec<Option<TileBuf>>,
    n: int,
)
    requires
        0 <= n <= tiles@.len(),
    ensures
        ({
            let fmt = Source::Pixels(tiles).format_of(n);
            &&& forall|t: int|
                0 <= t < n ==> ((#[trigger] tiles@[t]) matches Some(buf) ==> buf.depth() <= fmt)
            &&& fmt == 0 || exists|t: int|
                0 <= t < n && ((#[trigger] tiles@[t]) matches Some(buf) && buf.depth() == fmt)
        }),
    decreases n,
{
    if n > 0 {
        law_sources_are_as_wide_as_their_tiles(tiles, n - 1);
        let last = tiles@[n - 1];
    }
}

// ------------------------------------------------------------ operations

/// A mask of an operation: its row among the sources or none, its bounds,
/// and the bits of what it reads as outside of them.
#[derive(Debug, Clone, Copy)]
pub struct MaskRef {
    pub row: i32,
    pub left: i32,
    pub top: i32,
    pub right: i32,
    pub bottom: i32,
    pub default_bits: u32,
}

/// One operation of a plan; numbers of light are given by their bits.
#[derive(Debug, Clone, Copy)]
pub struct Op {
    pub kind: u32,
    pub mode: u32,
    pub opacity_bits: u32,
    pub flags: u32,
    /// The row of the operation's pixels among the sources, or negative.
    pub src_ref: i32,
    pub lut: i32,
    pub mask: MaskRef,
    pub fill_bits: (u32, u32, u32, u32),
}

/// A signed word as an unsigned one of the same bits.
pub open spec fn unsigned(v: i32) -> u32 {
    if v >= 0 {
        v as u32
    } else {
        (v + 0x1_0000_0000) as u32
    }
}

fn as_unsigned(v: i32) -> (r: u32)
    ensures
        r == unsigned(v),
{
    if v >= 0 {
        v as u32
    } else {
        (v as i64 + 0x1_0000_0000) as u32
    }
}

/// The twenty words of an operation.
pub open spec fn op_words(op: Op, formats: Seq<u32>) -> Seq<u32> {
    seq![
        op.kind,
        op.mode,
        op.opacity_bits,
        op.flags,
        unsigned(op.src_ref),
        if op.src_ref >= 0 {
            formats[op.src_ref as int]
        } else {
            0
        },
        unsigned(op.mask.row),
        unsigned(op.lut),
        unsigned(op.mask.left),
        unsigned(op.mask.top),
        unsigned(op.mask.right),
        unsigned(op.mask.bottom),
        op.fill_bits.0,
        op.fill_bits.1,
        op.fill_bits.2,
        op.fill_bits.3,
        op.mask.default_bits,
        0,
        0,
        0,
    ]
}

/// The words of the first `n` operations.
pub open spec fn ops_words(ops: Seq<Op>, formats: Seq<u32>, n: int) -> Seq<u32>
    decreases n,
{
    if n <= 0 {
        Seq::empty()
    } else {
        ops_words(ops, formats, n - 1) + op_words(ops[n - 1], formats)
    }
}

/// Whether the pixels of an operation are among the sources.
pub open spec fn op_refers(op: Op, rows: int) -> bool {
    op.src_ref < rows
}

fn push_op(out: &mut Vec<u32>, op: Op, formats: &Vec<u32>)
    requires
        op_refers(op, formats@.len() as int),
    ensures
        final(out)@ == old(out)@ + op_words(op, formats@),
{
    let ghost start = out@;
    let format: u32 = if op.src_ref >= 0 {
        formats[op.src_ref as usize]
    } else {
        0
    };
    out.push(op.kind);
    out.push(op.mode);
    out.push(op.opacity_bits);
    out.push(op.flags);
    out.push(as_unsigned(op.src_ref));
    out.push(format);
    out.push(as_unsigned(op.mask.row));
    out.push(as_unsigned(op.lut));
    out.push(as_unsigned(op.mask.left));
    out.push(as_unsigned(op.mask.top));
    out.push(as_unsigned(op.mask.right));
    out.push(as_unsigned(op.mask.bottom));
    out.push(op.fill_bits.0);
    out.push(op.fill_bits.1);
    out.push(op.fill_bits.2);
    out.push(op.fill_bits.3);
    out.push(op.mask.default_bits);
    out.push(0);
    out.push(0);
    out.push(0);
    assert(out@ =~= start + op_words(op, formats@));
}

/// Lays out the operations of a plan, twenty words each. `formats` are
/// those that the sources of the chunk are packed at.
pub fn pack_ops(ops: &Vec<Op>, formats: &Vec<u32>) -> (words: Vec<u32>)
    requires
        forall|k: int| 0 <= k < ops@.len() ==> op_refers(#[trigger] ops@[k], formats@.len() as int),
    ensures
        words@ == ops_words(ops@, formats@, ops@.len() as int),
{
    let mut words: Vec<u32> = Vec::new();
    let mut k: usize = 0;
    while k < ops.len()
        invariant
            k <= ops@.len(),
            forall|k: int|
                0 <= k < ops@.len() ==> op_refers(#[trigger] ops@[k], formats@.len() as int),
            words@ == ops_words(ops@, formats@, k as int),
        decreases ops@.len() - k,
    {
        push_op(&mut words, ops[k], formats);
        k = k + 1;
    }
    words
}

/// The words of operation `k` are the `k`th twenty.
pub proof fn law_operations_take_twenty_words(ops: Seq<Op>, formats: Seq<u32>, n: int, k: int)
    requires
        0 <= k < n <= ops.len(),
    ensures
        ops_words(ops, formats, n).len() == 20 * n,
        ops_words(ops, formats, n).subrange(20 * k, 20 * k + 20) == op_words(ops[k], formats),
    decreases n,
{
    let before = ops_words(ops, formats, n - 1);
    let all = ops_words(ops, formats, n);
    let last = op_words(ops[n - 1], formats);
    if n > 1 {
        law_operations_take_twenty_words(ops, formats, n - 1, if k < n - 1 {
            k
        } else {
            0
        });
    }
    assert(before.len() == 20 * (n - 1));
    assert(all == before + last);
    if k < n - 1 {
        assert(all.subrange(20 * k, 20 * k + 20) =~= before.subrange(20 * k, 20 * k + 20));
    } else {
        assert(all.subrange(20 * k, 20 * k + 20) =~= last);
    }
}

/// Whether a word holds a signed number, in two's complement.
pub open spec fn holds_signed(word: u32, v: i32) -> bool {
    word == v || v < 0 && word == v + 0x1_0000_0000
}

/// What the words of an operation hold, at their places among those of all
/// operations.
pub proof fn law_operations_are_laid_out(ops: Seq<Op>, formats: Seq<u32>, k: int)
    requires
        0 <= k < ops.len(),
        ops[k].src_ref < formats.len(),
    ensures
        ({
            let words = ops_words(ops, formats, ops.len() as int);
            let (op, at) = (ops[k], 20 * k);
            &&& words.len() == 20 * ops.len()
            &&& words[at] == op.kind
            &&& words[at + 1] == op.mode
            &&& words[at + 2] == op.opacity_bits
            &&& words[at + 3] == op.flags
            &&& holds_signed(words[at + 4], op.src_ref)
            &&& op.src_ref >= 0 ==> words[at + 5] == formats[op.src_ref as int]
            &&& op.src_ref < 0 ==> words[at + 5] == 0
            &&& holds_signed(words[at + 6], op.mask.row)
            &&& holds_signed(words[at + 7], op.lut)
            &&& holds_signed(words[at + 8], op.mask.left)
            &&& holds_signed(words[at + 9], op.mask.top)
            &&& holds_signed(words[at + 10], op.mask.right)
            &&& holds_signed(words[at + 11], op.mask.bottom)
            &&& words[at + 12] == op.fill_bits.0
            &&& words[at + 13] == op.fill_bits.1
            &&& words[at + 14] == op.fill_bits.2
            &&& words[at + 15] == op.fill_bits.3
            &&& words[at + 16] == op.mask.default_bits
            &&& forall|i: int| 17 <= i < 20 ==> words[#[trigger] (at + i)] == 0
        }),
{
    let words = ops_words(ops, formats, ops.len() as int);
    law_operations_take_twenty_words(ops, formats, ops.len() as int, k);
    let own = words.subrange(20 * k, 20 * k + 20);
    assert forall|i: int| 0 <= i < 20 implies words[#[trigger] (20 * k + i)] == own[i] by {}
    assert(words[20 * k + 0] == own[0]);
}

/// Where tiles start: the left and top edge of each.
pub open spec fn edges(coords: Seq<TileCoord>, n: int) -> Seq<i32>
    decreases n,
{
    if n <= 0 {
        Seq::empty()
    } else {
        edges(coords, n - 1).push(coords[n - 1].area().left).push(coords[n - 1].area().top)
    }
}

/// Lists where tiles start.
pub fn origins(coords: &[TileCoord]) -> (out: Vec<i32>)
    requires
        forall|k: int| 0 <= k < coords@.len() ==> (#[trigger] coords@[k]).on_grid(),
    ensures
        out@ == edges(coords@, coords@.len() as int),
{
    let mut out: Vec<i32> = Vec::new();
    let mut k: usize = 0;
    while k < coords.len()
        invariant
            k <= coords@.len(),
            forall|k: int| 0 <= k < coords@.len() ==> (#[trigger] coords@[k]).on_grid(),
            out@ == edges(coords@, k as int),
        decreases coords@.len() - k,
    {
        let rect = coords[k].rect();
        out.push(rect.left);
        out.push(rect.top);
        k = k + 1;
    }
    out
}

// -------------------------------------------------------------- viewport

/// How many of the first `n` places of a grid hold a tile.
pub open spec fn present_before(grid: Seq<Option<Vec<u8>>>, n: int) -> int
    decreases n,
{
    if n <= 0 {
        0
    } else {
        present_before(grid, n - 1) + if grid[n - 1] is Some {
            1int
        } else {
            0
        }
    }
}

/// The bytes of the tiles in the first `n` places of a grid.
pub open spec fn grid_bytes(grid: Seq<Option<Vec<u8>>>, n: int) -> Seq<u8>
    decreases n,
{
    if n <= 0 {
        Seq::empty()
    } else {
        match grid[n - 1] {
            Some(tile) => grid_bytes(grid, n - 1) + tile@,
            None => grid_bytes(grid, n - 1),
        }
    }
}

/// Where each place's tile begins among those that follow each other,
/// counted in whole tiles, or -1 where the place has none.
pub open spec fn grid_index(grid: Seq<Option<Vec<u8>>>) -> Seq<i32> {
    Seq::new(
        grid.len(),
        |k: int|
            if grid[k] is Some {
                (grid_bytes(grid, k).len() as int / (TILE_PIXELS * 4)) as i32
            } else {
                NO_SLOT
            },
    )
}

/// Whether a picture and the tiles of a grid keep to the budget.
pub open spec fn viewport_fits(width: int, height: int, grid: Seq<Option<Vec<u8>>>) -> bool {
    width * height * 4 <= BUDGET_BYTES && present_before(grid, grid.len() as int) * TILE_PIXELS * 4
        <= BUDGET_BYTES
}

fn count_present(grid: &[Option<Vec<u8>>]) -> (n: usize)
    ensures
        n == present_before(grid@, grid@.len() as int),
{
    let mut n: usize = 0;
    let mut k: usize = 0;
    while k < grid.len()
        invariant
            k <= grid@.len(),
            n <= k,
            n == present_before(grid@, k as int),
        decreases grid@.len() - k,
    {
        if grid[k].is_some() {
            n = n + 1;
        }
        k = k + 1;
    }
    n
}

fn push_tile(out: &mut Vec<u8>, tile: &Vec<u8>)
    ensures
        final(out)@ == old(out)@ + tile@,
{
    let ghost start = out@;
    let mut i: usize = 0;
    assert(out@ =~= start + tile@.take(0));
    while i < tile.len()
        invariant
            i <= tile@.len(),
            out@ == start + tile@.take(i as int),
        decreases tile@.len() - i,
    {
        out.push(tile[i]);
        i = i + 1;
        assert(out@ =~= start + tile@.take(i as int));
    }
    assert(tile@.take(tile@.len() as int) =~= tile@);
}

/// Packs the tiles that a picture shows: their bytes one after another,
/// and for each place of the grid where its tile is. `None` exactly when
/// the picture or the tiles exceed the budget.
pub fn pack_grid(width: usize, height: usize, grid: &[Option<Vec<u8>>]) -> (r: Option<
    (Vec<u8>, Vec<i32>),
>)
    ensures
        match r {
            Some((bytes, index)) => viewport_fits(width as int, height as int, grid@) && bytes@
                == grid_bytes(grid@, grid@.len() as int) && index@ == grid_index(grid@),
            None => !viewport_fits(width as int, height as int, grid@),
        },
{
    let present: usize = count_present(grid);
    let pixels: Option<usize> = width.checked_mul(height);
    proof {
        assert(0 <= width * height) by (nonlinear_arith)
            requires
                0 <= width,
                0 <= height,
        ;
    }
    match pixels {
        Some(pixels) => if pixels > BUDGET_BYTES / 4 {
            return None;
        },
        None => return None,
    }
    if present > BUDGET_BYTES / 4 / TILE_PIXELS {
        return None;
    }
    let mut bytes: Vec<u8> = Vec::new();
    let mut index: Vec<i32> = Vec::new();
    let mut k: usize = 0;
    while k < grid.len()
        invariant
            k <= grid@.len(),
            bytes@ == grid_bytes(grid@, k as int),
            index@ == grid_index(grid@).take(k as int),
        decreases grid@.len() - k,
    {
        match &grid[k] {
            Some(tile) => {
                index.push((bytes.len() / (TILE_PIXELS * 4)) as i32);
                push_tile(&mut bytes, tile);
            },
            None => {
                index.push(NO_SLOT);
            },
        }
        k = k + 1;
        assert(index@ =~= grid_index(grid@).take(k as int));
    }
    assert(grid_index(grid@).take(grid@.len() as int) =~= grid_index(grid@));
    Some((bytes, index))
}

/// Where the tiles of a grid are whole, a place's index says how many tiles
/// come before its own.
pub proof fn law_whole_tiles_are_counted(grid: Seq<Option<Vec<u8>>>, k: int)
    requires
        0 <= k < grid.len() <= i32::MAX,
        forall|i: int|
            0 <= i < grid.len() ==> ((#[trigger] grid[i]) matches Some(tile) ==> tile@.len()
                == TILE_PIXELS * 4),
        grid[k] is Some,
    ensures
        grid_index(grid)[k] == present_before(grid, k),
{
    lemma_whole_tiles(grid, k);
    let n = present_before(grid, k);
    vstd::arithmetic::div_mod::lemma_div_multiples_vanish(n, 0x4_0000);
    assert(TILE_PIXELS * 4 == 0x4_0000);
    assert(n * 0x4_0000 == 0x4_0000 * n) by (nonlinear_arith);
}

proof fn lemma_whole_tiles(grid: Seq<Option<Vec<u8>>>, n: int)
    requires
        0 <= n <= grid.len(),
        forall|i: int|
            0 <= i < grid.len() ==> ((#[trigger] grid[i]) matches Some(tile) ==> tile@.len()
                == TILE_PIXELS * 4),
    ensures
        grid_bytes(grid, n).len() == present_before(grid, n) * (TILE_PIXELS * 4),
        0 <= present_before(grid, n) <= n,
    decreases n,
{
    if n > 0 {
        lemma_whole_tiles(grid, n - 1);
    }
}

/// What a picture of a document is drawn with; numbers of light and of
/// space are given by their bits.
#[derive(Debug, Clone, Copy)]
pub struct Viewport {
    pub width: u32,
    pub height: u32,
    pub origin_bits: (u32, u32),
    pub center_bits: (u32, u32),
    pub sine_bits: u32,
    pub cosine_bits: u32,
    pub inverse_zoom_bits: u32,
    pub scale_bits: u32,
    pub inverse_scale_bits: u32,
    pub left: i32,
    pub top: i32,
    pub right: i32,
    pub bottom: i32,
    pub grid_origin: (i32, i32),
    pub grid_cols: u32,
    pub grid_rows: u32,
    pub surround: u32,
    pub crisp: bool,
    pub box_taps: u32,
}

/// The twenty-four words of a viewport.
pub open spec fn viewport_words_of(v: Viewport) -> Seq<u32> {
    seq![
        v.width,
        v.height,
        v.origin_bits.0,
        v.origin_bits.1,
        v.center_bits.0,
        v.center_bits.1,
        v.sine_bits,
        v.cosine_bits,
        v.inverse_zoom_bits,
        v.scale_bits,
        v.inverse_scale_bits,
        0,
        unsigned(v.left),
        unsigned(v.top),
        unsigned(v.right),
        unsigned(v.bottom),
        unsigned(v.grid_origin.0),
        unsigned(v.grid_origin.1),
        v.grid_cols,
        v.grid_rows,
        v.surround,
        if v.crisp {
            1
        } else {
            0
        },
        v.box_taps,
        0,
    ]
}

/// Lays out a viewport.
pub fn viewport_words(v: Viewport) -> (words: Vec<u32>)
    ensures
        words@ == viewport_words_of(v),
{
    let mut words: Vec<u32> = Vec::new();
    words.push(v.width);
    words.push(v.height);
    words.push(v.origin_bits.0);
    words.push(v.origin_bits.1);
    words.push(v.center_bits.0);
    words.push(v.center_bits.1);
    words.push(v.sine_bits);
    words.push(v.cosine_bits);
    words.push(v.inverse_zoom_bits);
    words.push(v.scale_bits);
    words.push(v.inverse_scale_bits);
    words.push(0);
    words.push(as_unsigned(v.left));
    words.push(as_unsigned(v.top));
    words.push(as_unsigned(v.right));
    words.push(as_unsigned(v.bottom));
    words.push(as_unsigned(v.grid_origin.0));
    words.push(as_unsigned(v.grid_origin.1));
    words.push(v.grid_cols);
    words.push(v.grid_rows);
    words.push(v.surround);
    words.push(
        if v.crisp {
            1
        } else {
            0
        },
    );
    words.push(v.box_taps);
    words.push(0);
    assert(words@ =~= viewport_words_of(v));
    words
}

/// How many workgroups of sixteen a side takes.
pub fn groups(side: u32) -> (n: u32)
    ensures
        n == (side + 15) / 16,
{
    if side % 16 == 0 {
        side / 16
    } else {
        side / 16 + 1
    }
}

/// How a chunk of tiles is put to work.
#[derive(Debug, Clone, Copy, PartialEq, Eq)]
pub struct Launch {
    /// The uniform words of the compositing pass: operations and tiles.
    pub globals: [u32; 4],
    /// The workgroups of that pass, of sixteen by sixteen pixels each.
    pub groups: (u32, u32, u32),
    /// The uniform words of the narrowing pass: pixels.
    pub narrow_globals: [u32; 4],
    /// The workgroups of that pass, of 256 pixels each.
    pub narrow_groups: (u32, u32, u32),
    /// The bytes of the tiles as four floats a pixel.
    pub float_bytes: usize,
    /// The bytes of the tiles as RGBA8.
    pub narrow_bytes: usize,
}

/// How to put a chunk of tiles to work: every pixel of every tile gets one
/// thread in each pass, and a place in what each writes.
pub fn launch(ops: u32, tiles: usize) -> (r: Launch)
    requires
        tiles <= MAX_CHUNK_TILES,
    ensures
        r.globals@ == seq![ops, tiles as u32, 0, 0],
        r.groups.0 * 16 == TILE_SIZE && r.groups.1 * 16 == TILE_SIZE && r.groups.2 == tiles,
        r.narrow_globals@ == seq![(tiles * TILE_PIXELS) as u32, 0, 0, 0],
        r.narrow_groups.0 * 256 == tiles * TILE_PIXELS,
        r.narrow_groups.1 == 1 && r.narrow_groups.2 == 1,
        r.float_bytes == tiles * TILE_PIXELS * 16,
        r.narrow_bytes == tiles * TILE_PIXELS * 4,
{
    let pixels: usize = tiles * TILE_PIXELS;
    let r = Launch {
        globals: [ops, tiles as u32, 0, 0],
        groups: (16, 16, tiles as u32),
        narrow_globals: [pixels as u32, 0, 0, 0],
        narrow_groups: ((pixels / 256) as u32, 1, 1),
        float_bytes: pixels * 16,
        narrow_bytes: pixels * 4,
    };
    assert(r.globals@ =~= seq![ops, tiles as u32, 0, 0]);
    assert(r.narrow_globals@ =~= seq![(tiles * TILE_PIXELS) as u32, 0, 0, 0]);
    r
}

// --------------------------------------------------------- words and bytes

/// Words as bytes, the least significant first.
pub open spec fn bytes_of(words: Seq<u32>, n: int) -> Seq<u8>
    decreases n,
{
    if n <= 0 {
        Seq::empty()
    } else {
        let w = words[n - 1] as int;
        bytes_of(words, n - 1).push((w % 0x100) as u8).push((w / 0x100 % 0x100) as u8).push(
            (w / 0x1_0000 % 0x100) as u8,
        ).push((w / 0x100_0000) as u8)
    }
}

/// Lays words out as bytes.
pub fn to_bytes(words: &[u32]) -> (out: Vec<u8>)
    ensures
        out@ == bytes_of(words@, words@.len() as int),
{
    let mut out: Vec<u8> = Vec::new();
    let mut i: usize = 0;
    while i < words.len()
        invariant
            i <= words@.len(),
            out@ == bytes_of(words@, i as int),
        decreases words@.len() - i,
    {
        let w: u32 = words[i];
        out.push((w % 0x100) as u8);
        out.push((w / 0x100 % 0x100) as u8);
        out.push((w / 0x1_0000 % 0x100) as u8);
        out.push((w / 0x100_0000) as u8);
        i = i + 1;
    }
    out
}

/// Bytes as words, the least significant byte first.
pub open spec fn words_of(bytes: Seq<u8>) -> Seq<u32> {
    Seq::new(bytes.len() / 4, |i: int| le32(bytes, 4 * i) as u32)
}

/// Reads bytes as words.
pub fn to_words(bytes: &[u8]) -> (out: Vec<u32>)
    ensures
        out@ == words_of(bytes@),
{
    assert(bytes@.len() == bytes.len());
    let n: usize = bytes.len() / 4;
    let mut out: Vec<u32> = Vec::new();
    let mut i: usize = 0;
    while i < n
        invariant
            bytes@.len() == bytes.len(),
            i <= n,
            n == bytes@.len() / 4,
            out@ == words_of(bytes@).take(i as int),
        decreases n - i,
    {
        out.push(read_le32(bytes, 4 * i));
        i = i + 1;
        assert(out@ =~= words_of(bytes@).take(i as int));
    }
    assert(words_of(bytes@).take(n as int) =~= words_of(bytes@));
    out
}

proof fn lemma_bytes(words: Seq<u32>, n: int, i: int)
    requires
        0 <= i < n <= words.len(),
    ensures
        bytes_of(words, n).len() == 4 * n,
        le32(bytes_of(words, n), 4 * i) == words[i],
    decreases n,
{
    if n > 1 {
        lemma_bytes(words, n - 1, if i < n - 1 {
            i
        } else {
            0
        });
    }
    let before = bytes_of(words, n - 1);
    assert(before.len() == 4 * (n - 1));
    let all = bytes_of(words, n);
    if i < n - 1 {
        assert(all[4 * i] == before[4 * i] && all[4 * i + 1] == before[4 * i + 1] && all[4 * i + 2]
            == before[4 * i + 2] && all[4 * i + 3] == before[4 * i + 3]);
    }
}

/// Words that are laid out as bytes and read back are the words.
pub proof fn law_words_survive_bytes(words: Seq<u32>)
    ensures
        words_of(bytes_of(words, words.len() as int)) == words,
{
    let n = words.len() as int;
    let bytes = bytes_of(words, n);
    if n > 0 {
        lemma_bytes(words, n, 0);
    }
    assert forall|i: int| 0 <= i < n implies words_of(bytes)[i] == words[i] by {
        lemma_bytes(words, n, i);
    }
    assert(words_of(bytes) =~= words);
}

/// The whole pieces of `size` bytes that bytes fall into.
pub open spec fn pieces(data: Seq<u8>, size: int) -> Seq<Seq<u8>> {
    Seq::new(
        (data.len() as int / size) as nat,
        |k: int| data.subrange(k * size, k * size + size),
    )
}

/// Cuts what comes back into tiles of `size` bytes.
pub fn split(data: &[u8], size: usize) -> (out: Vec<Vec<u8>>)
    requires
        size > 0,
    ensures
        out@.map_values(|tile: Vec<u8>| tile@) == pieces(data@, size as int),
{
    assert(data@.len() == data.len());
    let n: usize = data.len() / size;
    let mut out: Vec<Vec<u8>> = Vec::new();
    let mut k: usize = 0;
    proof {
        vstd::arithmetic::div_mod::lemma_fundamental_div_mod(data@.len() as int, size as int);
        assert(n * size == size * n) by (nonlinear_arith);
        vstd::arithmetic::div_mod::lemma_mod_bound(data@.len() as int, size as int);
    }
    assert(out@.map_values(|tile: Vec<u8>| tile@) =~= pieces(data@, size as int).take(0));
    while k < n
        invariant
            data@.len() == data.len(),
            size > 0,
            k <= n,
            n == data@.len() as int / size as int,
            n * size <= data@.len(),
            out@.map_values(|tile: Vec<u8>| tile@) == pieces(data@, size as int).take(k as int),
        decreases n - k,
    {
        proof {
            assert((k + 1) * size <= n * size) by (nonlinear_arith)
                requires
                    k + 1 <= n,
                    0 < size,
            ;
            assert((k + 1) * size == k * size + size) by (nonlinear_arith);
            assert(0 <= k * size) by (nonlinear_arith)
                requires
                    0 <= k,
                    0 < size,
            ;
        }
        let at: usize = k * size;
        let ghost before = out@;
        let tile = owned(slice_subrange(data, at, at + size));
        out.push(tile);
        k = k + 1;
        assert(out@.map_values(|tile: Vec<u8>| tile@) =~= before.map_values(
            |tile: Vec<u8>| tile@,
        ).push(tile@));
        assert(pieces(data@, size as int).take(k as int) =~= pieces(data@, size as int).take(k - 1).push(
            pieces(data@, size as int)[k - 1],
        ));
    }
    assert(pieces(data@, size as int).take(n as int) =~= pieces(data@, size as int));
    out
}

} // verus!
