//! RW2: Panasonic, and the Leica bodies Panasonic builds.
//!
//! Four layouts are read: whole 16-bit words with the sample at the top of
//! each, fourteen 12-bit pixels to sixteen bytes through a stream that is
//! shuffled in 16 KB blocks ([`decode_v4`]), eleven 14-bit pixels to
//! sixteen bytes ([`decode_v6`]), and whole samples packed into
//! sixteen-byte blocks ([`decode_packed_blocks`]).

use crate::bytes::{be16, has_tag, le16, owned, read_be16, read_le16, tagged};
use crate::raw::bits::{
    after, bits_of, law_low_numbers_are_read_back, law_numbers_are_read_back, law_streams_are_their_bytes,
    lemma_after_after, lemma_bits_of_len, lemma_word_bound, lemma_word_none, lemma_word_split,
    low_word, lsb_bits, msb_bits, power_of_two, word, BitPump, BitPumpLsb, BitPumpMsb,
};
use crate::raw::common::{
    best_picture, camera_of, first_number, first_ratio, largest_jpeg, make_model, merge, merged,
    metadata, metadata_of, orientation, orientation_of,
};
use crate::raw::frame::{all_four, maybe_bytes, plain_image, Gain, Ratio, RawImage, RawModel};
use crate::grid::lemma_place_inverse;
use crate::raw::image::{
    bggr, gbrg, grbg, law_bayer_arrays_are_as_they_are_called, rggb, Cfa, CfaColor, CfaModel,
};
use crate::raw::tiff::{Tiff, TiffModel, ORIENTATION, STRIP_OFFSETS};
use crate::raw::{
    corrupt, deep_outcome, frame_samples, frame_samples_spec, preview_outcome, Error, Fault, Format,
    Outcome, Rect, Result,
};
use crate::text::{decimal, push_decimal, trimmed};
use crate::raw::formats::srw::{lemma_packed_bits, packed_bits};
use vstd::arithmetic::power2::{lemma2_to64, lemma_pow2_adds, lemma_pow2_pos, pow2};
use vstd::prelude::*;
use vstd::slice::slice_subrange;

verus! {

/// How many bytes of the shuffled stream one refill takes.
pub const BLOCK: usize = 0x4000;

/// Where a block is cut in two before being reassembled. The bytes after
/// this point in the file arrive *first* in the buffer.
pub const SPLIT: usize = 0x2008;

/// Pixels to a group; the group is the unit the predictor restarts on.
pub const GROUP: usize = 14;

/// Pixels that one refill covers: a group costs sixteen bytes.
pub const BLOCK_PIXELS: usize = 14336;

// ------------------------------------------------------------- words

/// Sample `i` of the oldest layout.
pub open spec fn word_sample(data: Seq<u8>, bits: int, i: int) -> u16 {
    let shift = if bits <= 16 {
        16 - bits
    } else {
        0
    };
    if 2 * i + 1 < data.len() {
        (le16(data, 2 * i) / pow2(shift as nat) as int) as u16
    } else {
        0
    }
}

/// The oldest layout: one 16-bit little-endian word a sample, with the
/// sample's bits at the *top* of the word.
pub fn decode_words(data: &[u8], width: usize, height: usize, bits: u32) -> (out: Vec<u16>)
    requires
        width * height <= usize::MAX,
        bits > 0,
    ensures
        out@ == Seq::new((width * height) as nat, |i: int| word_sample(data@, bits as int, i)),
{
    let shift: u32 = if bits <= 16 {
        16 - bits
    } else {
        0
    };
    let scale: u32 = power_of_two(shift);
    let pixels: usize = width * height;
    let words: usize = data.len() / 2;
    let mut out: Vec<u16> = Vec::new();
    let mut i: usize = 0;
    proof {
        lemma_pow2_pos(shift as nat);
    }
    while i < pixels
        invariant
            i <= pixels,
            words == data@.len() / 2,
            data@.len() <= usize::MAX,
            scale == pow2(shift as nat),
            scale > 0,
            shift == if bits <= 16 {
                16 - bits
            } else {
                0
            },
            out@ == Seq::new(i as nat, |i: int| word_sample(data@, bits as int, i)),
        decreases pixels - i,
    {
        let value: u16 = if i < words {
            let stored: u32 = read_le16(data, 2 * i) as u32;
            proof {
                assert(0 <= stored as int / scale as int <= stored) by (nonlinear_arith)
                    requires
                        stored >= 0,
                        scale > 0,
                ;
            }
            (stored / scale) as u16
        } else {
            0
        };
        out.push(value);
        i = i + 1;
        assert(out@ =~= Seq::new(i as nat, |i: int| word_sample(data@, bits as int, i)));
    }
    out
}

// ------------------------------------------------------ packed blocks

/// Sixteen-byte block number `k` of the data; zeros unless it is whole.
pub open spec fn block16(data: Seq<u8>, k: int) -> Seq<u8> {
    if 16 * k + 16 <= data.len() {
        data.subrange(16 * k, 16 * k + 16)
    } else {
        Seq::new(16, |i: int| 0u8)
    }
}

fn read_block16(data: &[u8], k: usize) -> (block: Vec<u8>)
    ensures
        block@ == block16(data@, k as int),
{
    let mut block: Vec<u8> = Vec::new();
    let whole: bool = k < data.len() / 16;
    let mut i: usize = 0;
    while i < 16
        invariant
            i <= 16,
            whole == (16 * k + 16 <= data@.len()),
            data@.len() <= usize::MAX,
            block@ == block16(data@, k as int).take(i as int),
        decreases 16 - i,
    {
        if whole {
            block.push(data[16 * k + i]);
        } else {
            block.push(0);
        }
        i = i + 1;
        assert(block@ =~= block16(data@, k as int).take(i as int));
    }
    assert(block@ =~= block16(data@, k as int));
    block
}

/// The depth that samples are packed at.
pub open spec fn packed_depth(bits: int) -> int {
    if bits < 1 {
        1
    } else if bits > 16 {
        16
    } else {
        bits
    }
}

/// Sample `i` of whole samples packed into blocks, low bit first.
pub open spec fn packed_block_sample(data: Seq<u8>, bits: int, i: int) -> u16 {
    let depth = packed_depth(bits);
    let per_block = 128int / depth;
    low_word(
        after(lsb_bits(block16(data, i / per_block)), (i % per_block * depth) as nat),
        depth as nat,
    ) as u16
}

/// Whole samples, low bit first, as many as fit in a sixteen-byte block.
/// Nothing is predicted or coded.
pub fn decode_packed_blocks(data: &[u8], width: usize, height: usize, bits: u32) -> (out: Vec<u16>)
    requires
        width * height <= usize::MAX,
    ensures
        out@ == Seq::new(
            (width * height) as nat,
            |i: int| packed_block_sample(data@, bits as int, i),
        ),
{
    let depth: u32 = if bits < 1 {
        1
    } else if bits > 16 {
        16
    } else {
        bits
    };
    let per_block: usize = (128 / depth) as usize;
    let ghost d = depth as int;
    let ghost p = per_block as int;
    let pixels: usize = width * height;
    let mut out: Vec<u16> = Vec::new();
    let mut k: usize = 0;
    proof {
        assert(128int / d >= 8) by (nonlinear_arith)
            requires
                1 <= d <= 16,
        ;
        assert(0 * p == 0);
    }
    while out.len() < pixels
        invariant
            1 <= d <= 16,
            d == depth,
            p == per_block,
            p == 128int / d,
            p >= 8,
            d == packed_depth(bits as int),
            pixels == width * height,
            out@.len() <= pixels,
            out@.len() < pixels ==> out@.len() == k * p,
            k <= out@.len(),
            out@ == Seq::new(out@.len(), |i: int| packed_block_sample(data@, bits as int, i)),
        decreases pixels - out@.len(),
    {
        let block = read_block16(data, k);
        let mut pump = BitPumpLsb::new(block.as_slice());
        let ghost all = lsb_bits(block@);
        let ghost base = out@.len();
        let mut j: usize = 0;
        proof {
            assert(after(all, 0) =~= all);
            assert(0 * d == 0);
        }
        while j < per_block && out.len() < pixels
            invariant
                1 <= d <= 16,
                d == depth,
                p == per_block,
                p == 128int / d,
                p >= 8,
                d == packed_depth(bits as int),
                j <= per_block,
                base == k * p,
                base < pixels,
                k <= base,
                out@.len() == base + j,
                out@.len() <= pixels,
                all == lsb_bits(block16(data@, k as int)),
                pump.rest() == after(all, (j * d) as nat),
                out@ == Seq::new(
                    out@.len(),
                    |i: int| packed_block_sample(data@, bits as int, i),
                ),
            decreases per_block - j,
        {
            proof {
                lemma_place_inverse(p, k as int, j as int);
                assert((j + 1) * d == j * d + d) by (nonlinear_arith);
                assert(0 <= j * d) by (nonlinear_arith)
                    requires
                        0 <= j,
                        0 <= d,
                ;
                lemma_after_after(all, (j * d) as nat, d as nat);
            }
            let value: u32 = pump.get(depth);
            out.push(value as u16);
            j = j + 1;
            assert(out@ =~= Seq::new(
                out@.len(),
                |i: int| packed_block_sample(data@, bits as int, i),
            ));
        }
        proof {
            assert((k + 1) * p == k * p + p) by (nonlinear_arith);
        }
        k = k + 1;
    }
    out
}

// --------------------------------------------------------- codec six

/// The bits of a block in the order they are used: it is one 128-bit
/// little-endian word, filled from the top down.
pub open spec fn v6_bits(data: Seq<u8>, k: int) -> Seq<bool> {
    msb_bits(block16(data, k).reverse())
}

/// The counts that a group of three pixels is measured in.
pub open spec fn v6_step(code: int) -> int {
    if code == 0 {
        1
    } else if code == 1 {
        2
    } else if code == 2 {
        4
    } else {
        16
    }
}

/// Pixel `at` of a block, as coded: two whole pixels, then three groups
/// of three, each group a two-bit step and three ten-bit differences from
/// the pixel two places back. A prediction that a difference cannot reach,
/// or the widest step, starts again from zero.
pub open spec fn v6_pixel(bits: Seq<bool>, at: int) -> int
    decreases at,
{
    if at < 2 {
        word(after(bits, (14 * at) as nat), 14) as int
    } else {
        let group = (at - 2) / 3;
        let j = (at - 2) % 3;
        let step = v6_step(word(after(bits, (28 + 32 * group) as nat), 2) as int);
        let low = v6_pixel(bits, at - 2) - 512 * step;
        let base = if low < 0 || step == 16 {
            0
        } else {
            low
        };
        base + word(after(bits, (30 + 32 * group + 10 * j) as nat), 10) as int * step
    }
}

/// `value` brought into sixteen bits by the nearest end.
pub open spec fn clamp16(value: int) -> u16 {
    if value < 0 {
        0
    } else if value > 0xffff {
        0xffff
    } else {
        value as u16
    }
}

/// Sample `i` of a frame of eleven-pixel blocks: everything is coded
/// fifteen counts high.
pub open spec fn v6_sample(data: Seq<u8>, i: int) -> u16 {
    clamp16(v6_pixel(v6_bits(data, i / 11), i % 11) - 15)
}

fn clamped16(value: i32) -> (r: u16)
    ensures
        r == clamp16(value as int),
{
    if value < 0 {
        0
    } else if value > 0xffff {
        0xffff
    } else {
        value as u16
    }
}

fn read_v6_block(data: &[u8], k: usize) -> (pixels: Vec<i32>)
    ensures
        pixels@.len() == 11,
        forall|i: int|
            0 <= i < 11 ==> #[trigger] pixels@[i] == v6_pixel(v6_bits(data@, k as int), i),
        forall|i: int| 0 <= i < 11 ==> 0 <= #[trigger] pixels@[i] <= 0x10_0000,
{
    let block = read_block16(data, k);
    let mut turned: Vec<u8> = Vec::new();
    let mut b: usize = 0;
    while b < 16
        invariant
            b <= 16,
            block@.len() == 16,
            turned@ == block@.reverse().take(b as int),
        decreases 16 - b,
    {
        turned.push(block[15 - b]);
        b = b + 1;
        assert(turned@ =~= block@.reverse().take(b as int));
    }
    assert(turned@ =~= block@.reverse());
    let mut pump = BitPumpMsb::new(turned.as_slice());
    let ghost bits = v6_bits(data@, k as int);
    let mut pixels: Vec<i32> = Vec::new();
    proof {
        assert(after(bits, 0) =~= bits);
        lemma_after_after(bits, 14, 14);
        lemma2_to64();
        lemma_word_bound(bits, 14);
        lemma_word_bound(after(bits, 14), 14);
    }
    let first: u32 = pump.get(14);
    let second: u32 = pump.get(14);
    pixels.push(first as i32);
    pixels.push(second as i32);
    let mut group: usize = 0;
    while group < 3
        invariant
            group <= 3,
            pixels@.len() == 2 + 3 * group,
            pump.rest() == after(bits, (28 + 32 * group) as nat),
            forall|i: int| 0 <= i < pixels@.len() ==> #[trigger] pixels@[i] == v6_pixel(bits, i),
            forall|i: int|
                0 <= i < pixels@.len() ==> 0 <= #[trigger] pixels@[i] <= 0x4000 + 0x4000 * i,
        decreases 3 - group,
    {
        proof {
            lemma_after_after(bits, (28 + 32 * group) as nat, 2);
            lemma2_to64();
        }
        let code: u32 = pump.get(2);
        let step: i32 = if code == 0 {
            1
        } else if code == 1 {
            2
        } else if code == 2 {
            4
        } else {
            16
        };
        let mut j: usize = 0;
        while j < 3
            invariant
                group < 3,
                j <= 3,
                pixels@.len() == 2 + 3 * group + j,
                step == v6_step(word(after(bits, (28 + 32 * group) as nat), 2) as int),
                1 <= step <= 16,
                pump.rest() == after(bits, (30 + 32 * group + 10 * j) as nat),
                forall|i: int|
                    0 <= i < pixels@.len() ==> #[trigger] pixels@[i] == v6_pixel(bits, i),
                forall|i: int|
                    0 <= i < pixels@.len() ==> 0 <= #[trigger] pixels@[i] <= 0x4000 + 0x4000 * i,
            decreases 3 - j,
        {
            proof {
                lemma_after_after(bits, (30 + 32 * group + 10 * j) as nat, 10);
                lemma2_to64();
            }
            let at: usize = 2 + 3 * group + j;
            assert((at - 2) / 3 == group && (at - 2) % 3 == j);
            let low: i32 = pixels[at - 2] - 512 * step;
            let base: i32 = if low < 0 || step == 16 {
                0
            } else {
                low
            };
            let field: u32 = pump.get(10);
            proof {
                assert(0 <= field * step <= 1023 * 16) by (nonlinear_arith)
                    requires
                        0 <= field <= 1023,
                        1 <= step <= 16,
                ;
            }
            let value: i32 = base + field as i32 * step;
            pixels.push(value);
            j = j + 1;
        }
        group = group + 1;
    }
    pixels
}

/// Eleven 14-bit pixels to every sixteen bytes.
pub fn decode_v6(data: &[u8], width: usize, height: usize) -> (out: Vec<u16>)
    requires
        width * height <= usize::MAX,
    ensures
        out@ == Seq::new((width * height) as nat, |i: int| v6_sample(data@, i)),
{
    let pixels: usize = width * height;
    let mut out: Vec<u16> = Vec::new();
    let mut k: usize = 0;
    while out.len() < pixels
        invariant
            pixels == width * height,
            out@.len() <= pixels,
            out@.len() < pixels ==> out@.len() == 11 * k,
            k <= out@.len(),
            out@ == Seq::new(out@.len(), |i: int| v6_sample(data@, i)),
        decreases pixels - out@.len(),
    {
        let block = read_v6_block(data, k);
        let ghost base = out@.len();
        let mut j: usize = 0;
        while j < 11 && out.len() < pixels
            invariant
                j <= 11,
                base == 11 * k,
                base < pixels,
                k <= base,
                out@.len() == base + j,
                out@.len() <= pixels,
                block@.len() == 11,
                forall|i: int|
                    0 <= i < 11 ==> #[trigger] block@[i] == v6_pixel(v6_bits(data@, k as int), i),
                forall|i: int| 0 <= i < 11 ==> 0 <= #[trigger] block@[i] <= 0x10_0000,
                out@ == Seq::new(out@.len(), |i: int| v6_sample(data@, i)),
            decreases 11 - j,
        {
            assert((11 * k + j) / 11 == k && (11 * k + j) % 11 == j);
            out.push(clamped16(block[j] - 15));
            j = j + 1;
            assert(out@ =~= Seq::new(out@.len(), |i: int| v6_sample(data@, i)));
        }
        k = k + 1;
    }
    out
}

/// Eleven pixels and how they are written as a block: the step code of each
/// of the three groups.
pub struct V6Block {
    pub pixels: Seq<int>,
    pub codes: spec_fn(int) -> int,
}

impl V6Block {
    /// A pixel as it is coded: fifteen counts high.
    pub open spec fn coded(self, at: int) -> int {
        self.pixels[at] + 15
    }

    /// The counts that pixel `at` is measured in.
    pub open spec fn step(self, at: int) -> int {
        let code = (self.codes)((at - 2) / 3);
        if code == 0 {
            1
        } else if code == 1 {
            2
        } else if code == 2 {
            4
        } else {
            16
        }
    }

    /// Where the ten bits of pixel `at` count from: half their range below
    /// the pixel two before it, or zero where that is out of reach or the
    /// step is the widest.
    pub open spec fn origin(self, at: int) -> int {
        if self.step(at) < 16 && self.coded(at - 2) >= 512 * self.step(at) {
            self.coded(at - 2) - 512 * self.step(at)
        } else {
            0
        }
    }

    /// The ten bits of pixel `at`.
    pub open spec fn number(self, at: int) -> int {
        (self.coded(at) - self.origin(at)) / self.step(at)
    }

    pub open spec fn pixel_fits(self, at: int) -> bool {
        &&& 0 <= self.pixels[at] < 0x1_0000
        &&& at < 2 ==> self.coded(at) < 0x4000
        &&& at >= 2 ==> 0 <= self.number(at) < 1024 && (self.coded(at) - self.origin(at))
            % self.step(at) == 0
    }

    /// Whether the block can be written.
    pub open spec fn fits(self) -> bool {
        &&& self.pixels.len() == 11
        &&& forall|j: int| 0 <= #[trigger] (self.codes)(j) <= 3
        &&& forall|at: int| 0 <= at < 11 ==> #[trigger] self.pixel_fits(at)
    }

    /// The bits from pixel `at` on, and then `tail`: two pixels outright,
    /// and then three groups of a step code and three pixels.
    pub open spec fn bits(self, at: int, tail: Seq<bool>) -> Seq<bool>
        decreases 11 - at,
    {
        if at >= 11 {
            tail
        } else if at < 2 {
            bits_of(self.coded(at), 14) + self.bits(at + 1, tail)
        } else if (at - 2) % 3 == 0 {
            bits_of((self.codes)((at - 2) / 3), 2) + (bits_of(self.number(at), 10) + self.bits(
                at + 1,
                tail,
            ))
        } else {
            bits_of(self.number(at), 10) + self.bits(at + 1, tail)
        }
    }

    spec fn place(self, at: int) -> int {
        let j = (at - 2) % 3;
        if at < 2 {
            14 * at
        } else if j == 0 {
            28 + 32 * ((at - 2) / 3)
        } else {
            30 + 32 * ((at - 2) / 3) + 10 * j
        }
    }

    proof fn lemma_places(self, tail: Seq<bool>, at: int)
        requires
            self.fits(),
            0 <= at <= 11,
        ensures
            after(self.bits(0, tail), self.place(at) as nat) == self.bits(at, tail),
        decreases at,
    {
        let all = self.bits(0, tail);
        lemma2_to64();
        if at == 0 {
            assert(after(all, 0) =~= all);
        } else {
            let b = at - 1;
            self.lemma_places(tail, b);
            assert(self.pixel_fits(b));
            let more = self.bits(at, tail);
            if b < 2 {
                law_numbers_are_read_back(self.coded(b), 14, more);
                lemma_after_after(all, self.place(b) as nat, 14);
            } else {
                let code = (self.codes)((b - 2) / 3);
                assert(0 <= code <= 3);
                law_numbers_are_read_back(self.number(b), 10, more);
                if (b - 2) % 3 == 0 {
                    law_numbers_are_read_back(code, 2, bits_of(self.number(b), 10) + more);
                    lemma_after_after(all, self.place(b) as nat, 2);
                    lemma_after_after(all, (self.place(b) + 2) as nat, 10);
                } else {
                    lemma_after_after(all, self.place(b) as nat, 10);
                }
            }
        }
    }

    proof fn lemma_pixel(self, tail: Seq<bool>, at: int)
        requires
            self.fits(),
            0 <= at < 11,
        ensures
            v6_pixel(self.bits(0, tail), at) == self.coded(at),
        decreases at,
    {
        let all = self.bits(0, tail);
        lemma2_to64();
        self.lemma_places(tail, at);
        assert(self.pixel_fits(at));
        let more = self.bits(at + 1, tail);
        if at < 2 {
            law_numbers_are_read_back(self.coded(at), 14, more);
        } else {
            self.lemma_pixel(tail, at - 2);
            let group = (at - 2) / 3;
            let lead = 2 + 3 * group;
            let code = (self.codes)(group);
            assert(0 <= code <= 3);
            self.lemma_places(tail, lead);
            assert((lead - 2) / 3 == group && (lead - 2) % 3 == 0);
            law_numbers_are_read_back(
                code,
                2,
                bits_of(self.number(lead), 10) + self.bits(lead + 1, tail),
            );
            law_numbers_are_read_back(self.number(at), 10, more);
            if (at - 2) % 3 == 0 {
                lemma_after_after(all, self.place(at) as nat, 2);
                assert(lead == at);
            }
            let step = self.step(at);
            assert(self.pixel_fits(at - 2));
            let d = self.coded(at) - self.origin(at);
            assert(self.number(at) * step == d) by {
                if step == 1 {
                    assert(d / 1 == d);
                } else if step == 2 {
                    assert(d % 2 == 0 && self.number(at) == d / 2);
                    assert(self.number(at) * 2 == d);
                } else if step == 4 {
                    assert(d % 4 == 0 && self.number(at) == d / 4);
                    assert(self.number(at) * 4 == d);
                } else {
                    assert(d % 16 == 0 && self.number(at) == d / 16);
                    assert(self.number(at) * 16 == d);
                }
            }
        }
    }
}

/// The 14-bit codec undoes its writing: whatever their step codes, the
/// pixels of a block are read back from sixteen bytes that hold them from
/// the top of the last byte down, whatever fills the rest.
pub proof fn law_v6_undoes_writing(
    data: Seq<u8>,
    blocks: spec_fn(int) -> V6Block,
    tails: spec_fn(int) -> Seq<bool>,
    i: int,
)
    requires
        0 <= i,
        16 * (i / 11) + 16 <= data.len(),
        blocks(i / 11).fits(),
        msb_bits(data.subrange(16 * (i / 11), 16 * (i / 11) + 16).reverse()) == blocks(i / 11).bits(
            0,
            tails(i / 11),
        ),
    ensures
        v6_sample(data, i) == blocks(i / 11).pixels[i % 11],
{
    blocks(i / 11).lemma_pixel(tails(i / 11), i % 11);
    assert(blocks(i / 11).pixel_fits(i % 11));
}

/// Whole samples packed into blocks are read back: as many to sixteen bytes
/// as fit, one after another from the bottom of each byte.
pub proof fn law_packed_blocks_are_read_back(
    data: Seq<u8>,
    bits: nat,
    samples: spec_fn(int) -> Seq<u16>,
    tails: spec_fn(int) -> Seq<bool>,
    i: int,
)
    requires
        1 <= bits <= 16,
        0 <= i,
        ({
            let k = i / (128int / bits as int);
            &&& 16 * k + 16 <= data.len()
            &&& samples(k).len() == 128int / bits as int
            &&& forall|j: int| 0 <= j < samples(k).len() ==> #[trigger] samples(k)[j] < pow2(bits)
            &&& lsb_bits(data.subrange(16 * k, 16 * k + 16)) == packed_bits(
                samples(k),
                bits,
                false,
                0,
                tails(k),
            )
        }),
    ensures
        packed_block_sample(data, bits as int, i) == samples(i / (128int / bits as int))[i % (128int
            / bits as int)],
{
    let per = 128int / bits as int;
    assert(per >= 8) by (nonlinear_arith)
        requires
            per == 128int / bits as int,
            1 <= bits <= 16,
    ;
    let (k, j) = (i / per, i % per);
    assert(0 <= k && 0 <= j < per) by (nonlinear_arith)
        requires
            k == i / per,
            j == i % per,
            per > 0,
            0 <= i,
    ;
    lemma_packed_bits(samples(k), bits, false, j as nat, tails(k));
    law_low_numbers_are_read_back(
        samples(k)[j] as int,
        bits,
        packed_bits(samples(k), bits, false, (j + 1) as nat, tails(k)),
    );
    assert(j * bits == (j as nat) * bits);
}

/// Samples at the top of little-endian words are read back, whatever is
/// below them.
pub proof fn law_top_aligned_words_are_read_back(
    data: Seq<u8>,
    bits: nat,
    sample: int,
    below: int,
    i: int,
)
    requires
        1 <= bits <= 16,
        0 <= i,
        2 * i + 1 < data.len(),
        0 <= sample < pow2(bits),
        0 <= below < pow2((16 - bits) as nat),
        data[2 * i] + 0x100 * data[2 * i + 1] == sample * pow2((16 - bits) as nat) + below,
    ensures
        word_sample(data, bits as int, i) == sample,
{
    let d = pow2((16 - bits) as nat) as int;
    lemma_pow2_pos((16 - bits) as nat);
    vstd::arithmetic::div_mod::lemma_fundamental_div_mod_converse(
        le16(data, 2 * i),
        d,
        sample,
        below,
    );
    lemma2_to64();
    lemma_pow2_adds(bits, (16 - bits) as nat);
    assert(sample < 0x1_0000) by {
        if bits < 16 {
            vstd::arithmetic::power2::lemma_pow2_strictly_increases(bits, 16);
        }
    }
}

// -------------------------------------------------------- codec four

/// Where the shuffled reader stands: the blocks loaded so far, and the bit
/// cursor, counted down modulo one buffer's worth of bits. Zero means the
/// buffer is spent.
#[verifier::ext_equal]
pub struct PanaModel {
    pub loaded: int,
    pub cursor: int,
}

/// Byte `i` of the buffer that block `k` is reassembled into: its tail
/// comes first, and the byte past its end is zero.
pub open spec fn pana_byte(data: Seq<u8>, k: int, i: int) -> int {
    let at = if i < 0x2008 {
        k * 0x4000 + 0x1ff8 + i
    } else {
        k * 0x4000 + i - 0x2008
    };
    if 0 <= i < 0x4000 && at < data.len() {
        data[at] as int
    } else {
        0
    }
}

/// The buffer place that a cursor stands at: the cursor runs backwards,
/// and flipping the place's upper bits walks the buffer forwards in groups
/// of sixteen bytes.
pub open spec fn pana_place(cursor: int) -> int {
    ((cursor as u32 >> 3) ^ 0x3FF0) as int
}

impl PanaModel {
    /// The reader with a block in its buffer.
    pub open spec fn filled(self) -> PanaModel {
        if self.cursor == 0 {
            PanaModel { loaded: self.loaded + 1, ..self }
        } else {
            self
        }
    }

    /// The reader after `n` bits.
    pub open spec fn after(self, n: int) -> PanaModel {
        PanaModel { loaded: self.filled().loaded, cursor: (self.cursor - n) % 0x2_0000 }
    }

    /// The next `n` bits.
    #[verifier::opaque]
    pub open spec fn bits(self, data: Seq<u8>, n: int) -> int {
        let next = self.after(n);
        let at = pana_place(next.cursor);
        let pair = pana_byte(data, next.loaded - 1, at) + 0x100 * pana_byte(
            data,
            next.loaded - 1,
            at + 1,
        );
        pair / pow2((next.cursor % 8) as nat) as int % pow2(n as nat) as int
    }
}

/// Panasonic's bit reader.
///
/// The stream arrives in 16 KB blocks, and each block is cut at [`SPLIT`]
/// and reassembled with its tail first; within the reassembled buffer the
/// bit cursor runs *backwards* from the top. Past the end of the data the
/// buffer is zeros.
pub struct PanaBits<'a> {
    data: &'a [u8],
    /// Where the block in the buffer starts.
    pos: usize,
    /// Whether a block was loaded yet.
    started: bool,
    /// The bit cursor.
    pub vbits: u32,
    loaded: Ghost<int>,
}

impl<'a> PanaBits<'a> {
    /// The data that is read.
    pub closed spec fn source(&self) -> Seq<u8> {
        self.data@
    }

    /// Where the reader stands.
    pub closed spec fn model(&self) -> PanaModel {
        PanaModel { loaded: self.loaded@, cursor: self.vbits as int }
    }

    /// The cursor lies in one buffer, and the block at hand is the last
    /// one loaded.
    pub closed spec fn well_formed(&self) -> bool {
        &&& self.vbits < 0x2_0000
        &&& self.loaded@ >= 0
        &&& self.started == (self.loaded@ > 0)
        &&& !self.started ==> self.vbits == 0 && self.pos == 0
        &&& self.started ==> self.pos == smaller((self.loaded@ - 1) * 0x4000, self.data@.len() as int)
    }

    /// A reader at the start of `data`.
    pub fn new(data: &'a [u8]) -> (bits: PanaBits<'a>)
        ensures
            bits.well_formed(),
            bits.source() == data@,
            bits.model() == (PanaModel { loaded: 0, cursor: 0 }),
    {
        PanaBits { data, pos: 0, started: false, vbits: 0, loaded: Ghost(0) }
    }

    fn byte(&self, i: usize) -> (value: u8)
        requires
            self.well_formed(),
            self.started,
            i <= 0x4000,
        ensures
            value == pana_byte(self.source(), self.model().loaded - 1, i as int),
    {
        if i >= BLOCK {
            return 0;
        }
        let skip: usize = if i < SPLIT {
            0x1ff8 + i
        } else {
            i - SPLIT
        };
        let left: usize = self.data.len() - self.pos;
        if skip < left {
            self.data[self.pos + skip]
        } else {
            0
        }
    }

    /// The next `n` bits, at most eight.
    pub fn get(&mut self, n: u32) -> (value: u32)
        requires
            old(self).well_formed(),
            1 <= n <= 8,
        ensures
            final(self).well_formed(),
            final(self).source() == old(self).source(),
            final(self).model() == old(self).model().after(n as int),
            value == old(self).model().bits(old(self).source(), n as int),
            value < pow2(n as nat),
    {
        if self.vbits == 0 {
            if self.started {
                self.pos = if self.data.len() - self.pos <= BLOCK {
                    self.data.len()
                } else {
                    self.pos + BLOCK
                };
            }
            self.started = true;
            self.loaded = Ghost(self.loaded@ + 1);
        }
        self.vbits = if self.vbits >= n {
            self.vbits - n
        } else {
            self.vbits + 0x2_0000 - n
        };
        let v: u32 = self.vbits;
        reveal(PanaModel::bits);
        assert((v >> 3) ^ 0x3FF0 <= 0x3FFF) by (bit_vector)
            requires
                v < 0x2_0000,
        ;
        let at: usize = ((v >> 3) ^ 0x3FF0) as usize;
        let pair: u32 = self.byte(at) as u32 + 0x100 * self.byte(at + 1) as u32;
        proof {
            lemma_pow2_pos((v % 8) as nat);
            lemma_pow2_pos(n as nat);
            let (a, b) = (pair as int, pow2((v % 8) as nat) as int);
            assert(a / b >= 0) by (nonlinear_arith)
                requires
                    a >= 0,
                    b > 0,
            ;
        }
        pair / power_of_two(v % 8) % power_of_two(n)
    }
}

pub open spec fn smaller(a: int, b: int) -> int {
    if a <= b {
        a
    } else {
        b
    }
}

/// The predictor of a group: the last value of each column parity, the
/// byte that started it, and the shift in force.
#[verifier::ext_equal]
pub struct GroupModel {
    pub pred: Seq<int>,
    pub nonz: Seq<int>,
    pub shift: int,
}

/// The shift that a two-bit code sets.
pub open spec fn v4_shift(code: int) -> int {
    if code == 0 {
        0
    } else if code == 1 {
        1
    } else if code == 2 {
        2
    } else {
        4
    }
}

/// A prediction lowered by half the range of a step. Where that would take
/// it below zero, or where the shift is at its widest, only the bits the
/// shift leaves behind are kept, which wraps rather than clips.
pub open spec fn v4_lowered(pred: int, shift: int) -> int {
    let scale = pow2(shift as nat) as int;
    let low = pred - 0x80 * scale;
    if low < 0 || shift == 4 {
        low % scale
    } else {
        low
    }
}

impl GroupModel {
    /// A predictor before its first group.
    pub open spec fn fresh() -> GroupModel {
        GroupModel { pred: seq![0, 0], nonz: seq![0, 0], shift: 0 }
    }

    /// The predictor and the reader after pixel `i` of a group.
    #[verifier::opaque]
    pub open spec fn pixel(self, data: Seq<u8>, bits: PanaModel, i: int) -> (GroupModel, PanaModel) {
        let start = if i == 0 {
            GroupModel { pred: seq![0, 0], nonz: seq![0, 0], ..self }
        } else {
            self
        };
        let (shift, rest) = if i % 3 == 2 {
            (v4_shift(bits.bits(data, 2)), bits.after(2))
        } else {
            (start.shift, bits)
        };
        let side = i % 2;
        let byte = rest.bits(data, 8);
        let next = rest.after(8);
        if start.nonz[side] != 0 {
            if byte != 0 {
                (
                    GroupModel {
                        pred: start.pred.update(
                            side,
                            v4_lowered(start.pred[side], shift) + byte * pow2(shift as nat),
                        ),
                        shift,
                        ..start
                    },
                    next,
                )
            } else {
                (GroupModel { shift, ..start }, next)
            }
        } else if byte != 0 || i > 11 {
            (
                GroupModel {
                    pred: start.pred.update(side, 16 * byte + next.bits(data, 4)),
                    nonz: start.nonz.update(side, byte),
                    shift,
                },
                next.after(4),
            )
        } else {
            (GroupModel { nonz: start.nonz.update(side, byte), shift, ..start }, next)
        }
    }
}

fn stepped(pred: i32, shift: u32, step: u32) -> (value: i32)
    requires
        0 <= pred <= 0x4000_0000,
        shift <= 4,
        shift != 3,
        step <= 255,
    ensures
        value == v4_lowered(pred as int, shift as int) + step * pow2(shift as nat),
        0 <= value,
        value <= 0xfff || value <= pred + 512,
{
    proof {
        lemma2_to64();
    }
    let scale: i32 = if shift == 0 {
        1
    } else if shift == 1 {
        2
    } else if shift == 2 {
        4
    } else {
        16
    };
    let low: i32 = pred - 0x80 * scale;
    let base: i32 = if low < 0 || shift == 4 {
        let lifted: u32 = (low + 2048) as u32;
        assert(low as int % scale as int == lifted as int % scale as int);
        (lifted % scale as u32) as i32
    } else {
        low
    };
    base + step as i32 * scale
}

/// The predictor state, restarted every [`GROUP`] pixels. Odd and even
/// columns are predicted apart, so that each side of the filter array
/// tracks its own colour.
pub struct Group {
    pred: [i32; 2],
    nonz: [i32; 2],
    shift: u32,
}

impl Group {
    /// The predictor as a mathematical value.
    pub closed spec fn model(&self) -> GroupModel {
        GroupModel {
            pred: seq![self.pred[0] as int, self.pred[1] as int],
            nonz: seq![self.nonz[0] as int, self.nonz[1] as int],
            shift: self.shift as int,
        }
    }

    /// Values are natural numbers up to `bound`, and the shift is one that
    /// a code sets.
    pub open spec fn within(&self, bound: int) -> bool {
        &&& 0 <= self.model().pred[0] <= bound
        &&& 0 <= self.model().pred[1] <= bound
        &&& 0 <= self.model().shift <= 4
        &&& self.model().shift != 3
    }

    /// The larger of the two values.
    pub open spec fn top(&self) -> int {
        if self.model().pred[0] >= self.model().pred[1] {
            self.model().pred[0]
        } else {
            self.model().pred[1]
        }
    }

    /// Decodes pixel `i` of a group.
    ///
    /// A pixel is normally an eight-bit difference from the last pixel of
    /// the same parity, scaled by a shift that a two-bit code refreshes
    /// every third pixel. Until a parity has produced its first non-zero
    /// byte, that byte is instead the top eight bits of a twelve-bit
    /// absolute value; a parity that stays at zero to the end of the group
    /// is given its absolute value anyway, which is what keeps every group
    /// exactly sixteen bytes long.
    pub fn pixel(&mut self, bits: &mut PanaBits<'_>, i: usize) -> (value: u16)
        requires
            old(bits).well_formed(),
            i < 14,
            old(self).within(0x4000_0000),
        ensures
            final(bits).well_formed(),
            final(bits).source() == old(bits).source(),
            (final(self).model(), final(bits).model()) == old(self).model().pixel(
                old(bits).source(),
                old(bits).model(),
                i as int,
            ),
            value == clamp16(final(self).model().pred[(i % 2) as int]),
            final(self).within(
                if i == 0 || old(self).top() + 512 <= 0xfff {
                    0xfff
                } else {
                    old(self).top() + 512
                },
            ),
    {
        let ghost data = bits.source();
        let ghost before = self.model();
        proof {
            lemma2_to64();
            reveal(GroupModel::pixel);
        }
        if i == 0 {
            self.pred = [0, 0];
            self.nonz = [0, 0];
        }
        let ghost start = self.model();
        assert(i == 0 ==> start.pred =~= seq![0, 0] && start.nonz =~= seq![0, 0]);
        if i % 3 == 2 {
            let code: u32 = bits.get(2);
            self.shift = if code == 0 {
                0
            } else if code == 1 {
                1
            } else if code == 2 {
                2
            } else {
                4
            };
        }
        let side: usize = i % 2;
        let shift: u32 = self.shift;
        if self.nonz[side] != 0 {
            let step: u32 = bits.get(8);
            if step != 0 {
                self.pred[side] = stepped(self.pred[side], shift, step);
            }
        } else {
            let byte: u32 = bits.get(8);
            self.nonz[side] = byte as i32;
            if byte != 0 || i > GROUP - 3 {
                let tail: u32 = bits.get(4);
                self.pred[side] = 16 * byte as i32 + tail as i32;
            }
        }
        proof {
            let after = before.pixel(data, old(bits).model(), i as int);
            assert(self.model().pred =~= after.0.pred);
            assert(self.model().nonz =~= after.0.nonz);
        }
        clamped16(self.pred[side])
    }
}

impl Default for Group {
    fn default() -> (group: Group)
        ensures
            group.model() == GroupModel::fresh(),
    {
        let group = Group { pred: [0, 0], nonz: [0, 0], shift: 0 };
        assert(group.model().pred =~= seq![0, 0] && group.model().nonz =~= seq![0, 0]);
        group
    }
}

/// Where a walk over the shuffled stream stands.
pub struct V4Run {
    pub samples: Seq<u16>,
    pub group: GroupModel,
    pub bits: PanaModel,
}

/// The walk after `n` pixels of rows `width` wide; groups restart at the
/// start of every row.
pub open spec fn v4_run(data: Seq<u8>, width: int, n: nat) -> V4Run
    decreases n,
{
    if n == 0 {
        V4Run {
            samples: Seq::empty(),
            group: GroupModel::fresh(),
            bits: PanaModel { loaded: 0, cursor: 0 },
        }
    } else {
        let run = v4_run(data, width, (n - 1) as nat);
        let i = (n - 1) % width % 14;
        let (group, bits) = run.group.pixel(data, run.bits, i);
        V4Run { samples: run.samples.push(clamp16(group.pred[i % 2])), group, bits }
    }
}

/// The data from block `k` on.
pub open spec fn from_block(data: Seq<u8>, k: int) -> Seq<u8> {
    if k * 0x4000 <= data.len() {
        data.skip(k * 0x4000)
    } else {
        Seq::empty()
    }
}

/// The samples of a frame. A row that is a whole number of groups leaves
/// the blocks independent, 14336 pixels each; any other frame is walked in
/// order.
pub open spec fn v4_frame(data: Seq<u8>, width: int, height: int) -> Seq<u16> {
    if width % 14 != 0 {
        v4_run(data, width, (width * height) as nat).samples
    } else {
        Seq::new(
            (width * height) as nat,
            |p: int|
                v4_run(
                    from_block(data, p / 14336),
                    14336,
                    (p % 14336 + 1) as nat,
                ).samples[p % 14336],
        )
    }
}

proof fn lemma_v4_samples(data: Seq<u8>, width: int, a: nat, b: nat)
    requires
        a <= b,
    ensures
        v4_run(data, width, a).samples.len() == a,
        v4_run(data, width, b).samples.take(a as int) == v4_run(data, width, a).samples,
    decreases b,
{
    if a < b {
        lemma_v4_samples(data, width, a, (b - 1) as nat);
        lemma_v4_samples(data, width, (b - 1) as nat, (b - 1) as nat);
        assert(v4_run(data, width, b).samples.take(a as int) =~= v4_run(
            data,
            width,
            (b - 1) as nat,
        ).samples.take(a as int));
    } else {
        if b > 0 {
            lemma_v4_samples(data, width, (a - 1) as nat, (b - 1) as nat);
        }
        assert(v4_run(data, width, b).samples.take(a as int) =~= v4_run(data, width, a).samples);
    }
}

fn walk_v4(data: &[u8], width: usize, pixels: usize) -> (out: Vec<u16>)
    requires
        width > 0,
    ensures
        out@ == v4_run(data@, width as int, pixels as nat).samples,
        out@.len() == pixels,
{
    let mut out: Vec<u16> = Vec::new();
    let mut bits = PanaBits::new(data);
    let mut group = Group::default();
    let mut i: usize = 0;
    let mut col: usize = 0;
    while i < pixels
        invariant
            width > 0,
            i <= pixels,
            col < width,
            col == i as int % width as int,
            bits.well_formed(),
            bits.source() == data@,
            group.within(
                if col % 14 == 0 {
                    0x2bff
                } else {
                    0xfff + 512 * (col % 14)
                },
            ),
            out@.len() == i,
            v4_run(data@, width as int, i as nat) == (V4Run {
                samples: out@,
                group: group.model(),
                bits: bits.model(),
            }),
        decreases pixels - i,
    {
        let slot: usize = col % GROUP;
        let value: u16 = group.pixel(&mut bits, slot);
        proof {
            lemma_next_column(i as int, width as int);
        }
        out.push(value);
        i = i + 1;
        col = if col + 1 == width {
            0
        } else {
            col + 1
        };
    }
    out
}

proof fn lemma_next_column(i: int, width: int)
    requires
        0 <= i,
        0 < width,
    ensures
        (i + 1) % width == if i % width + 1 == width {
            0
        } else {
            i % width + 1
        },
{
    vstd::arithmetic::div_mod::lemma_fundamental_div_mod(i, width);
    let q = i / width;
    let r = i % width;
    assert(0 <= r < width) by {
        vstd::arithmetic::div_mod::lemma_mod_bound(i, width);
    }
    if r + 1 == width {
        assert(i + 1 == width * (q + 1)) by (nonlinear_arith)
            requires
                i == width * q + r,
                r + 1 == width,
        ;
        vstd::arithmetic::div_mod::lemma_fundamental_div_mod_converse(i + 1, width, q + 1, 0);
    } else {
        assert(i + 1 == q * width + (r + 1)) by (nonlinear_arith)
            requires
                i == width * q + r,
        ;
        vstd::arithmetic::div_mod::lemma_fundamental_div_mod_converse(i + 1, width, q, r + 1);
    }
}

/// Fourteen 12-bit pixels to every sixteen bytes.
///
/// Because a group is exactly sixteen bytes and a refill is exactly 16 KB,
/// one refill covers exactly 1024 groups, and the predictor restarts at
/// every group. So long as a row is a whole number of groups, the blocks
/// are independent.
pub fn decode_v4(data: &[u8], width: usize, height: usize) -> (out: Vec<u16>)
    requires
        width * height <= usize::MAX,
    ensures
        out@ == v4_frame(data@, width as int, height as int),
{
    let pixels: usize = width * height;
    if width % GROUP != 0 {
        return walk_v4(data, width, pixels);
    }
    let mut out: Vec<u16> = Vec::new();
    let mut k: usize = 0;
    while out.len() < pixels
        invariant
            pixels == width * height,
            width % 14 == 0,
            out@.len() <= pixels,
            out@.len() < pixels ==> out@.len() == 14336 * k,
            k <= out@.len(),
            out@ == v4_frame(data@, width as int, height as int).take(out@.len() as int),
        decreases pixels - out@.len(),
    {
        let count: usize = if pixels - out.len() < BLOCK_PIXELS {
            pixels - out.len()
        } else {
            BLOCK_PIXELS
        };
        let rest: &[u8] = if k <= data.len() / BLOCK {
            slice_subrange(data, k * BLOCK, data.len())
        } else {
            slice_subrange(data, 0, 0)
        };
        assert(rest@ =~= from_block(data@, k as int));
        let mut block = walk_v4(rest, BLOCK_PIXELS, count);
        let ghost before = out@;
        let ghost run = block@;
        out.append(&mut block);
        proof {
            let frame = v4_frame(data@, width as int, height as int);
            assert forall|i: int| 0 <= i < out@.len() implies out@[i] == frame[i] by {
                if i < before.len() {
                    assert(before[i] == frame.take(before.len() as int)[i]);
                } else {
                    let q = i - before.len();
                    assert(i / 14336 == k && i % 14336 == q);
                    lemma_v4_samples(rest@, 14336, (q + 1) as nat, count as nat);
                    assert(run.take(q + 1)[q] == run[q]);
                }
            }
            assert(out@ =~= frame.take(out@.len() as int));
        }
        k = k + 1;
    }
    assert(out@ =~= v4_frame(data@, width as int, height as int));
    out
}

// ------------------------------------------------ the shuffled stream

/// A whole block of the shuffled stream put back together: the bytes past
/// the cut, and then those before it.
pub open spec fn reassembled(data: Seq<u8>, k: int) -> Seq<u8> {
    data.subrange(k * 0x4000 + 0x1ff8, k * 0x4000 + 0x4000) + data.subrange(
        k * 0x4000,
        k * 0x4000 + 0x1ff8,
    )
}

/// The bits of group `t` of block `k`, in the order they are used: its
/// sixteen bytes from the last to the first, each from its top.
pub open spec fn group_bits(data: Seq<u8>, k: int, t: int) -> Seq<bool> {
    msb_bits(reassembled(data, k).subrange(16 * t, 16 * t + 16).reverse())
}

impl PanaModel {
    /// Whether the reader stands `c` bits into group `t` of block `k`.
    pub open spec fn stands_at(self, k: int, t: int, c: int) -> bool {
        if t == 0 && c == 0 {
            self.cursor == 0 && self.loaded == k
        } else {
            self.cursor == (0x2_0000 - 128 * t - c) % 0x2_0000 && self.loaded == k + 1
        }
    }
}

/// Up to eight bits of a stream of bytes, out of two of them.
proof fn lemma_two_bytes(source: Seq<u8>, c: int, n: nat)
    requires
        0 <= c,
        1 <= n <= 8,
        c + n <= 8 * source.len(),
    ensures
        ({
            let (i, off) = (c / 8, c % 8);
            let two = 0x100 * source[i] + if i + 1 < source.len() {
                source[i + 1] as int
            } else {
                0
            };
            word(after(msb_bits(source), c as nat), n) == two / pow2((16 - off - n) as nat) as int
                % pow2(n) as int
        }),
{
    let bits = msb_bits(source);
    let (i, off) = (c / 8, (c % 8) as nat);
    let rest = after(bits, (8 * i) as nat);
    let low = if i + 1 < source.len() {
        source[i + 1] as int
    } else {
        0
    };
    let two = 0x100 * source[i] + low;
    let left = (16 - off - n) as nat;
    lemma2_to64();
    law_streams_are_their_bytes(source, i);
    let high_bits = bits_of(source[i] as int, 8);
    assert(rest =~= high_bits + after(rest, 8)) by {
        lemma_bits_of_len(source[i] as int, 8);
        assert(forall|j: int| 0 <= j < 8 ==> rest[j] == #[trigger] bits.subrange(8 * i, 8 * i + 8)[j]);
    }
    law_numbers_are_read_back(source[i] as int, 8, after(rest, 8));
    lemma_after_after(bits, (8 * i) as nat, 8);
    let second = after(rest, 8);
    if i + 1 < source.len() {
        law_streams_are_their_bytes(source, i + 1);
        lemma_bits_of_len(source[i + 1] as int, 8);
        assert(second =~= bits_of(source[i + 1] as int, 8) + after(second, 8)) by {
            assert(forall|j: int|
                0 <= j < 8 ==> second[j] == #[trigger] bits.subrange(8 * i + 8, 8 * i + 16)[j]);
        }
        law_numbers_are_read_back(source[i + 1] as int, 8, after(second, 8));
    } else {
        assert(second =~= Seq::empty());
        lemma_word_none(second, 8);
    }
    lemma_word_split(rest, 8, 8);
    assert(word(rest, 16) == two);
    lemma_word_split(rest, (off + n) as nat, left);
    let upper = word(rest, (off + n) as nat) as int;
    lemma_word_bound(after(rest, (off + n) as nat), left);
    lemma_pow2_pos(left);
    vstd::arithmetic::div_mod::lemma_fundamental_div_mod_converse(
        two,
        pow2(left) as int,
        upper,
        word(after(rest, (off + n) as nat), left) as int,
    );
    lemma_word_split(rest, off, n);
    lemma_after_after(bits, (8 * i) as nat, off);
    lemma_word_bound(after(rest, off), n);
    lemma_pow2_pos(n);
    vstd::arithmetic::div_mod::lemma_fundamental_div_mod_converse(
        upper,
        pow2(n) as int,
        word(rest, off) as int,
        word(after(rest, off), n) as int,
    );
}

proof fn lemma_pana_place(t: u32, r: u32)
    requires
        t < 1024,
        r < 128,
    ensures
        pana_place((0x2_0000 - 128 * t - 128 + r) as int) == 16 * t + r as int / 8,
{
    let v = (0x2_0000 - 128 * t - 128 + r) as u32;
    assert((v >> 3) ^ 0x3FF0 == 16 * t + r / 8) by (bit_vector)
        requires
            t < 1024,
            r < 128,
            v == 0x2_0000 - 128 * t - 128 + r,
    ;
}

/// The shuffled reader reads a stream: the groups of sixteen bytes of each
/// whole block put back together, one after another, each group from its
/// last byte to its first.
pub proof fn law_the_shuffle_is_a_stream(
    data: Seq<u8>,
    bits: PanaModel,
    k: int,
    t: int,
    c: int,
    n: nat,
)
    requires
        0 <= k,
        k * 0x4000 + 0x4000 <= data.len(),
        0 <= t < 1024,
        0 <= c,
        1 <= n <= 8,
        c + n <= 128,
        bits.stands_at(k, t, c),
    ensures
        bits.bits(data, n as int) == word(after(group_bits(data, k, t), c as nat), n),
        bits.after(n as int).stands_at(k, t, c + n),
        c + n == 128 ==> bits.after(n as int).stands_at(
            if t < 1023 {
                k
            } else {
                k + 1
            },
            if t < 1023 {
                t + 1
            } else {
                0
            },
            0,
        ),
{
    let next = bits.after(n as int);
    let r = 128 - c - n;
    assert(next.loaded == k + 1);
    assert(next.cursor == 0x2_0000 - 128 * t - 128 + r);
    lemma_shuffled_bits(data, bits, k, t, c, n);
}

proof fn lemma_reassembled(data: Seq<u8>, k: int, t: int)
    requires
        0 <= k,
        k * 0x4000 + 0x4000 <= data.len(),
        0 <= t < 1024,
    ensures
        ({
            let source = reassembled(data, k).subrange(16 * t, 16 * t + 16).reverse();
            &&& source.len() == 16
            &&& forall|i: int|
                0 <= i < 16 ==> #[trigger] source[i] == pana_byte(data, k, 16 * t + 15 - i)
        }),
{
    let whole = reassembled(data, k);
    assert(whole.len() == 0x4000);
    let source = whole.subrange(16 * t, 16 * t + 16).reverse();
    assert forall|i: int| 0 <= i < 16 implies #[trigger] source[i] == pana_byte(
        data,
        k,
        16 * t + 15 - i,
    ) by {
        assert(source[i] == whole[16 * t + 15 - i]);
    }
}

proof fn lemma_shuffled_bits(data: Seq<u8>, bits: PanaModel, k: int, t: int, c: int, n: nat)
    requires
        0 <= k,
        k * 0x4000 + 0x4000 <= data.len(),
        0 <= t < 1024,
        0 <= c,
        1 <= n <= 8,
        c + n <= 128,
        bits.after(n as int).loaded == k + 1,
        bits.after(n as int).cursor == 0x2_0000 - 128 * t - c - n,
    ensures
        bits.bits(data, n as int) == word(after(group_bits(data, k, t), c as nat), n),
{
    reveal(PanaModel::bits);
    let next = bits.after(n as int);
    let r = 128 - c - n;
    lemma_pana_place(t as u32, r as u32);
    let at = 16 * t + r / 8;
    assert(pana_place(next.cursor) == at);
    lemma_reassembled(data, k, t);
    let source = reassembled(data, k).subrange(16 * t, 16 * t + 16).reverse();
    lemma_two_bytes(source, c, n);
    let (i, off) = (c / 8, c % 8);
    let sh = next.cursor % 8;
    assert(sh == r % 8);
    let low = pana_byte(data, k, at);
    let high = pana_byte(data, k, at + 1);
    if sh + n <= 8 {
        assert(i == 15 - r / 8 && off == 8 - sh - n);
        assert(source[i] == low);
        let next_byte = if i + 1 < 16 {
            source[i + 1] as int
        } else {
            0
        };
        lemma_narrow(low, high, next_byte, sh as nat, n);
    } else {
        assert(i == 14 - r / 8 && off == 16 - sh - n);
        assert(source[i] == high && source[i + 1] == low);
    }
}

/// Bits that lie in one byte are the same whatever the byte above or below
/// it.
proof fn lemma_narrow(byte: int, above: int, below: int, sh: nat, n: nat)
    requires
        0 <= byte < 256,
        0 <= above < 256,
        0 <= below < 256,
        1 <= n,
        sh + n <= 8,
    ensures
        (byte + 0x100 * above) / pow2(sh) as int % pow2(n) as int == (0x100 * byte + below) / pow2(
            8 + sh,
        ) as int % pow2(n) as int,
{
    lemma2_to64();
    let (b, a, l) = (byte as u32, above as u32, below as u32);
    let (s, m) = (sh as u32, n as u32);
    assert(((b + 0x100 * a) as u32 >> s) & ((1u32 << m) - 1) as u32 == ((0x100 * b + l) as u32 >> (
    (8 + s) as u32)) & ((1u32 << m) - 1) as u32) by (bit_vector)
        requires
            b < 256,
            a < 256,
            l < 256,
            1 <= m,
            s + m <= 8,
    ;
    let (x, y) = ((b + 0x100 * a) as u32, (0x100 * b + l) as u32);
    vstd::bits::lemma_u32_shr_is_div(x, s);
    vstd::bits::lemma_u32_shr_is_div(y, (8 + s) as u32);
    vstd::bits::lemma_u32_low_bits_mask_is_mod(x >> s, n);
    vstd::bits::lemma_u32_low_bits_mask_is_mod(y >> ((8 + s) as u32), n);
    vstd::bits::lemma_low_bits_mask_values();
    assert(m <= 8 && 1 <= m ==> ((1u32 << m) - 1) as u32 == (if m == 1 { 1u32 } else if m == 2 { 3
    } else if m == 3 { 7 } else if m == 4 { 15 } else if m == 5 { 31 } else if m == 6 { 63
    } else if m == 7 { 127 } else { 255 })) by (bit_vector);
    assert(((1u32 << m) - 1) as u32 == vstd::bits::low_bits_mask(n));
}

/// The predictor and the reader after the first `n` pixels of a group.
pub open spec fn v4_group(data: Seq<u8>, group: GroupModel, bits: PanaModel, n: nat) -> (
    GroupModel,
    PanaModel,
)
    decreases n,
{
    if n == 0 {
        (group, bits)
    } else {
        let (before, left) = v4_group(data, group, bits, (n - 1) as nat);
        before.pixel(data, left, n - 1)
    }
}

/// Fourteen pixels and how they are written as a group: the four step
/// codes, and whether a pixel that repeats the one two before it is written
/// as a zero byte.
pub struct V4Group {
    pub pixels: Seq<int>,
    pub codes: spec_fn(int) -> int,
    pub same: spec_fn(int) -> bool,
}

impl V4Group {
    /// Whether a pixel of the same parity before pixel `i` was written with
    /// a leading byte that is not zero.
    pub open spec fn started(self, i: int) -> bool
        decreases i,
    {
        i >= 2 && (self.started(i - 2) || self.pixels[i - 2] >= 16)
    }

    /// The counts that pixel `i` is measured in: 1, 2, 4 or 16.
    pub open spec fn scale(self, i: int) -> int {
        let code = (self.codes)((i - 2) / 3);
        if code == 0 {
            1
        } else if code == 1 {
            2
        } else if code == 2 {
            4
        } else {
            16
        }
    }

    /// Whether pixel `i` is measured from half the byte's range below the
    /// pixel two before it; if not, only that pixel's bits below the scale
    /// are kept.
    pub open spec fn relative(self, i: int) -> bool {
        self.scale(i) < 16 && self.pixels[i - 2] >= 128 * self.scale(i)
    }

    /// The byte that pixel `i` of a parity that has started is written as.
    pub open spec fn step(self, i: int) -> int {
        let (value, last) = (self.pixels[i], self.pixels[i - 2]);
        if value == last && (self.same)(i) {
            0
        } else if self.relative(i) {
            (value - last) / self.scale(i) + 128
        } else {
            value / self.scale(i)
        }
    }

    /// Whether pixel `i` can be written.
    pub open spec fn pixel_fits(self, i: int) -> bool {
        let (value, last) = (self.pixels[i], self.pixels[i - 2]);
        if !self.started(i) {
            0 <= value < 4096 && (value == 0 || value >= 16 || i >= 12)
        } else {
            &&& 0 <= value < 0x1_0000
            &&& (value == last && (self.same)(i)) || {
                &&& 1 <= self.step(i) <= 255
                &&& (value - last) % self.scale(i) == 0
            }
        }
    }

    /// Whether the group can be written.
    pub open spec fn fits(self) -> bool {
        &&& self.pixels.len() == 14
        &&& forall|j: int| 0 <= #[trigger] (self.codes)(j) <= 3
        &&& forall|i: int| 0 <= i < 14 ==> #[trigger] self.pixel_fits(i)
    }

    /// The bits of pixel `i` but for its step code: a difference, or twelve
    /// bits outright, or a zero byte.
    pub open spec fn own(self, i: int) -> Seq<bool> {
        if self.started(i) {
            bits_of(self.step(i), 8)
        } else if self.pixels[i] >= 16 || i >= 12 {
            bits_of(self.pixels[i] / 16, 8) + bits_of(self.pixels[i] % 16, 4)
        } else {
            bits_of(0, 8)
        }
    }

    /// The bits from pixel `i` on: every third pixel is led by a step code.
    pub open spec fn bits(self, i: int) -> Seq<bool>
        decreases 14 - i,
    {
        if i >= 14 {
            Seq::empty()
        } else if i % 3 == 2 {
            bits_of((self.codes)(i / 3), 2) + (self.own(i) + self.bits(i + 1))
        } else {
            self.own(i) + self.bits(i + 1)
        }
    }

    /// Whether a predictor has seen the pixels before pixel `i`.
    spec fn seen_by(self, g: GroupModel, i: int) -> bool {
        &&& g.pred.len() == 2
        &&& g.nonz.len() == 2
        &&& i > 0 ==> forall|side: int|
            0 <= side < 2 ==> #[trigger] self.side_seen_by(g, i, side)
        &&& i >= 3 ==> (g.shift == 0 || g.shift == 1 || g.shift == 2 || g.shift == 4) && pow2(
            g.shift as nat,
        ) == self.scale(i - 1)
    }

    spec fn side_seen_by(self, g: GroupModel, i: int, side: int) -> bool {
        let next = if i % 2 == side {
            i
        } else {
            i + 1
        };
        &&& (g.nonz[side] != 0) == self.started(next)
        &&& g.pred[side] == if next >= 2 {
            self.pixels[next - 2]
        } else {
            0
        }
    }

    /// Whether pixel `i` is written outright, in twelve bits.
    spec fn outright(self, i: int) -> bool {
        !self.started(i) && (self.pixels[i] >= 16 || i >= 12)
    }

    /// The byte of pixel `i`.
    spec fn byte(self, i: int) -> int {
        if self.started(i) {
            self.step(i)
        } else {
            self.pixels[i] / 16
        }
    }

    proof fn lemma_reads(
        self,
        data: Seq<u8>,
        bits: PanaModel,
        k: int,
        t: int,
        c: int,
        i: int,
    ) -> (next: int)
        requires
            self.fits(),
            0 <= i < 14,
            0 <= k,
            k * 0x4000 + 0x4000 <= data.len(),
            0 <= t < 1024,
            0 <= c <= 128,
            bits.stands_at(k, t, c),
            after(group_bits(data, k, t), c as nat) == self.bits(i),
        ensures
            ({
                let rest = if i % 3 == 2 {
                    bits.after(2)
                } else {
                    bits
                };
                let left = if self.outright(i) {
                    rest.after(8).after(4)
                } else {
                    rest.after(8)
                };
                &&& i % 3 == 2 ==> bits.bits(data, 2) == (self.codes)(i / 3)
                &&& rest.bits(data, 8) == self.byte(i)
                &&& self.outright(i) ==> rest.after(8).bits(data, 4) == self.pixels[i] % 16
                &&& c <= next <= 128
                &&& left.stands_at(k, t, next)
                &&& after(group_bits(data, k, t), next as nat) == self.bits(i + 1)
            }),
    {
        lemma2_to64();
        let all = group_bits(data, k, t);
        assert(all.len() == 128);
        assert(self.pixel_fits(i));
        let more = self.bits(i + 1);
        let code = (self.codes)(i / 3);
        assert(0 <= code <= 3);
        let c1 = if i % 3 == 2 {
            law_numbers_are_read_back(code, 2, self.own(i) + more);
            lemma_bits_of_len(code, 2);
            law_the_shuffle_is_a_stream(data, bits, k, t, c, 2);
            lemma_after_after(all, c as nat, 2);
            c + 2
        } else {
            c
        };
        let rest = if i % 3 == 2 {
            bits.after(2)
        } else {
            bits
        };
        assert(rest.stands_at(k, t, c1));
        assert(after(all, c1 as nat) == self.own(i) + more);
        let first = self.byte(i);
        let value = self.pixels[i];
        let second = if self.outright(i) {
            bits_of(value % 16, 4) + more
        } else {
            more
        };
        assert(0 <= first <= 255);
        assert(self.own(i) + more =~= bits_of(first, 8) + second);
        lemma_bits_of_len(first, 8);
        law_numbers_are_read_back(first, 8, second);
        law_the_shuffle_is_a_stream(data, rest, k, t, c1, 8);
        lemma_after_after(all, c1 as nat, 8);
        let c2 = c1 + 8;
        if self.outright(i) {
            lemma_bits_of_len(value % 16, 4);
            law_numbers_are_read_back(value % 16, 4, more);
            law_the_shuffle_is_a_stream(data, rest.after(8), k, t, c2, 4);
            lemma_after_after(all, c2 as nat, 4);
            c2 + 4
        } else {
            c2
        }
    }

    proof fn lemma_model(self, data: Seq<u8>, g: GroupModel, bits: PanaModel, i: int)
        requires
            self.fits(),
            0 <= i < 14,
            self.seen_by(g, i),
            ({
                let rest = if i % 3 == 2 {
                    bits.after(2)
                } else {
                    bits
                };
                &&& i % 3 == 2 ==> bits.bits(data, 2) == (self.codes)(i / 3)
                &&& rest.bits(data, 8) == self.byte(i)
                &&& self.outright(i) ==> rest.after(8).bits(data, 4) == self.pixels[i] % 16
            }),
        ensures
            ({
                let (h, left) = g.pixel(data, bits, i);
                let rest = if i % 3 == 2 {
                    bits.after(2)
                } else {
                    bits
                };
                &&& left == if self.outright(i) {
                    rest.after(8).after(4)
                } else {
                    rest.after(8)
                }
                &&& self.seen_by(h, i + 1)
                &&& h.pred[i % 2] == self.pixels[i]
            }),
    {
        reveal(GroupModel::pixel);
        lemma2_to64();
        let side = i % 2;
        assert(self.pixel_fits(i));
        if i > 0 {
            assert(self.side_seen_by(g, i, 0) && self.side_seen_by(g, i, 1));
        }
        let start = if i == 0 {
            GroupModel { pred: seq![0, 0], nonz: seq![0, 0], ..g }
        } else {
            g
        };
        assert(start.pred[side] == if i >= 2 {
            self.pixels[i - 2]
        } else {
            0
        });
        assert((start.nonz[side] != 0) == self.started(i));
        let shift = if i % 3 == 2 {
            v4_shift((self.codes)(i / 3))
        } else {
            start.shift
        };
        if i >= 2 {
            assert(0 <= (self.codes)(i / 3) <= 3);
            assert(i % 3 != 2 ==> (i - 1 - 2) / 3 == (i - 2) / 3);
            assert(i % 3 == 2 ==> (i - 2) / 3 == i / 3);
            assert(pow2(shift as nat) == self.scale(i));
            assert(shift == 0 || shift == 1 || shift == 2 || shift == 4);
        }
        let value = self.pixels[i];
        let (h, left) = g.pixel(data, bits, i);
        if self.started(i) {
            if self.step(i) != 0 {
                self.lemma_step(i, shift);
            }
        } else if self.outright(i) {
            assert(value == 16 * (value / 16) + value % 16);
        } else if i >= 2 {
            assert(self.pixel_fits(i - 2));
        }
        assert(h.pred[side] == value);
        assert((h.nonz[side] != 0) == self.started(i + 2));
        assert(self.side_seen_by(h, i + 1, side));
        assert(self.side_seen_by(h, i + 1, 1 - side));
        assert forall|q: int| 0 <= q < 2 implies #[trigger] self.side_seen_by(h, i + 1, q) by {
            assert(q == side || q == 1 - side);
        }
    }

    proof fn lemma_pixel(
        self,
        data: Seq<u8>,
        g: GroupModel,
        bits: PanaModel,
        k: int,
        t: int,
        c: int,
        i: int,
    ) -> (next: int)
        requires
            self.fits(),
            0 <= i < 14,
            0 <= k,
            k * 0x4000 + 0x4000 <= data.len(),
            0 <= t < 1024,
            0 <= c <= 128,
            bits.stands_at(k, t, c),
            after(group_bits(data, k, t), c as nat) == self.bits(i),
            self.seen_by(g, i),
        ensures
            ({
                let (h, left) = g.pixel(data, bits, i);
                &&& c <= next <= 128
                &&& left.stands_at(k, t, next)
                &&& after(group_bits(data, k, t), next as nat) == self.bits(i + 1)
                &&& self.seen_by(h, i + 1)
                &&& h.pred[i % 2] == self.pixels[i]
            }),
    {
        let next = self.lemma_reads(data, bits, k, t, c, i);
        self.lemma_model(data, g, bits, i);
        next
    }

    proof fn lemma_step(self, i: int, shift: int)
        requires
            2 <= i < 14,
            self.started(i),
            self.pixel_fits(i),
            self.step(i) != 0,
            shift == 0 || shift == 1 || shift == 2 || shift == 4,
            pow2(shift as nat) == self.scale(i),
        ensures
            v4_lowered(self.pixels[i - 2], shift) + self.step(i) * pow2(shift as nat)
                == self.pixels[i],
    {
        lemma2_to64();
        let (value, last) = (self.pixels[i], self.pixels[i - 2]);
        let low = last - 0x80 * self.scale(i);
        assert(self.relative(i) == !(low < 0 || shift == 4));
        if shift == 0 {
            assert(self.scale(i) == 1);
            assert(self.step(i) * pow2(shift as nat) == self.step(i));
        } else if shift == 1 {
            assert(self.scale(i) == 2);
            assert((value - last) % 2 == 0);
            assert(low % 2 == last % 2 && value % 2 == last % 2);
            assert(self.step(i) * pow2(shift as nat) == 2 * self.step(i));
            if self.relative(i) {
                assert(2 * self.step(i) == value - last + 2 * 128);
            } else {
                assert(2 * self.step(i) == value - value % 2);
            }
        } else if shift == 2 {
            assert(self.scale(i) == 4);
            assert((value - last) % 4 == 0);
            assert(low % 4 == last % 4 && value % 4 == last % 4);
            assert(self.step(i) * pow2(shift as nat) == 4 * self.step(i));
            if self.relative(i) {
                assert(4 * self.step(i) == value - last + 4 * 128);
            } else {
                assert(4 * self.step(i) == value - value % 4);
            }
        } else {
            assert(self.scale(i) == 16);
            assert((value - last) % 16 == 0);
            assert(low % 16 == last % 16 && value % 16 == last % 16);
            assert(self.step(i) * pow2(shift as nat) == 16 * self.step(i));
            if self.relative(i) {
                assert(16 * self.step(i) == value - last + 16 * 128);
            } else {
                assert(16 * self.step(i) == value - value % 16);
            }
        }
    }

    proof fn lemma_group(
        self,
        data: Seq<u8>,
        g: GroupModel,
        bits: PanaModel,
        k: int,
        t: int,
        n: nat,
    ) -> (next: int)
        requires
            self.fits(),
            n <= 14,
            0 <= k,
            k * 0x4000 + 0x4000 <= data.len(),
            0 <= t < 1024,
            bits.stands_at(k, t, 0),
            group_bits(data, k, t) == self.bits(0),
            g.pred.len() == 2,
            g.nonz.len() == 2,
        ensures
            ({
                let (h, left) = v4_group(data, g, bits, n);
                &&& 0 <= next <= 128
                &&& left.stands_at(k, t, next)
                &&& after(group_bits(data, k, t), next as nat) == self.bits(n as int)
                &&& self.seen_by(h, n as int)
                &&& n > 0 ==> h.pred[(n - 1) % 2] == self.pixels[n - 1]
            }),
        decreases n,
    {
        if n == 0 {
            assert(after(group_bits(data, k, t), 0) =~= group_bits(data, k, t));
            0
        } else {
            let m = (n - 1) as nat;
            let c = self.lemma_group(data, g, bits, k, t, m);
            let (h, left) = v4_group(data, g, bits, m);
            self.lemma_pixel(data, h, left, k, t, c, m as int)
        }
    }
}

/// A group undoes its writing: whatever its step codes, the pixels of a
/// group are read back, pixel by pixel, from sixteen bytes that hold them,
/// and the reader then stands at the next sixteen.
pub proof fn law_a_group_undoes_its_writing(
    written: V4Group,
    data: Seq<u8>,
    g: GroupModel,
    bits: PanaModel,
    k: int,
    t: int,
    i: int,
)
    requires
        written.fits(),
        0 <= k,
        k * 0x4000 + 0x4000 <= data.len(),
        0 <= t < 1024,
        0 <= i < 14,
        bits.stands_at(k, t, 0),
        group_bits(data, k, t) == written.bits(0),
        g.pred.len() == 2,
        g.nonz.len() == 2,
    ensures
        v4_group(data, g, bits, (i + 1) as nat).0.pred[i % 2] == written.pixels[i],
        v4_group(data, g, bits, 14).1.stands_at(k, t, 128),
{
    let _ = written.lemma_group(data, g, bits, k, t, (i + 1) as nat);
    let end = written.lemma_group(data, g, bits, k, t, 14);
    let all = group_bits(data, k, t);
    assert(all.len() == 128);
    assert(written.bits(14) == Seq::<bool>::empty());
    assert(after(all, end as nat).len() == 0);
}

/// Where a walk over a block stands after `n` pixels.
proof fn lemma_walk(data: Seq<u8>, groups: spec_fn(int) -> V4Group, n: nat) -> (c: int)
    requires
        n <= 14336,
        0x4000 <= data.len(),
        forall|t: int|
            0 <= t && 14 * t < n ==> (#[trigger] groups(t)).fits() && group_bits(data, 0, t)
                == groups(t).bits(0),
    ensures
        ({
            let run = v4_run(data, 14336, n);
            let (t, i) = (n as int / 14, n as int % 14);
            &&& run.samples.len() == n
            &&& forall|j: int| 0 <= j < n ==> #[trigger] run.samples[j] == groups(j / 14).pixels[j % 14]
            &&& run.group.pred.len() == 2
            &&& run.group.nonz.len() == 2
            &&& 0 <= c <= 128
            &&& i == 0 ==> c == 0 && (n < 14336 ==> run.bits.stands_at(0, t, 0))
            &&& i > 0 ==> run.bits.stands_at(0, t, c) && after(group_bits(data, 0, t), c as nat)
                == groups(t).bits(i) && groups(t).seen_by(run.group, i)
        }),
    decreases n,
{
    if n == 0 {
        0
    } else {
        let m = (n - 1) as nat;
        let c = lemma_walk(data, groups, m);
        let run = v4_run(data, 14336, m);
        let (t, i) = (m as int / 14, m as int % 14);
        assert(m as int % 14336 % 14 == i);
        assert(14 * t < n);
        assert(groups(t).fits() && group_bits(data, 0, t) == groups(t).bits(0));
        if i == 0 {
            assert(after(group_bits(data, 0, t), 0) =~= group_bits(data, 0, t));
        }
        assert(groups(t).seen_by(run.group, i));
        let next = groups(t).lemma_pixel(data, run.group, run.bits, 0, t, c, i);
        let (h, left) = run.group.pixel(data, run.bits, i);
        assert(groups(t).pixel_fits(i));
        assert(clamp16(h.pred[i % 2]) == groups(t).pixels[i]);
        if i == 13 {
            assert(group_bits(data, 0, t).len() == 128);
            assert(next == 128);
            assert((m + 1) as int / 14 == t + 1 && (m + 1) as int % 14 == 0);
            0
        } else {
            assert((m + 1) as int / 14 == t && (m + 1) as int % 14 == i + 1);
            next
        }
    }
}

/// The 12-bit codec undoes its writing: a frame of whole groups to a row is
/// read back from blocks whose groups of sixteen bytes hold its groups of
/// fourteen pixels one after another.
pub proof fn law_v4_undoes_writing(
    data: Seq<u8>,
    width: int,
    height: int,
    groups: spec_fn(int) -> V4Group,
    p: int,
)
    requires
        0 < width,
        width % 14 == 0,
        0 <= p < width * height,
        forall|g: int|
            0 <= g && 14 * g < width * height ==> (#[trigger] groups(g)).fits() && (g / 1024 + 1)
                * 0x4000 <= data.len() && group_bits(data, g / 1024, g % 1024) == groups(g).bits(0),
    ensures
        v4_frame(data, width, height).len() == width * height,
        v4_frame(data, width, height)[p] == groups(p / 14).pixels[p % 14],
{
    let (k, q) = (p / 14336, p % 14336);
    let block = from_block(data, k);
    let own = |t: int| groups(1024 * k + t);
    assert(14 * (p / 14) <= p);
    assert(p / 14 / 1024 == k && p / 14 % 1024 == q / 14 && p % 14 == q % 14);
    assert(groups(p / 14).fits());
    assert((k + 1) * 0x4000 <= data.len());
    assert forall|t: int| 0 <= t && 14 * t < q + 1 implies (#[trigger] own(t)).fits()
        && group_bits(block, 0, t) == own(t).bits(0) by {
        let g = 1024 * k + t;
        assert(groups(g).fits());
        assert(g / 1024 == k && g % 1024 == t);
        assert(reassembled(block, 0) =~= reassembled(data, k));
    }
    let _ = lemma_walk(block, own, (q + 1) as nat);
    assert(own(q / 14) == groups(p / 14));
}

/// What the first `n` pixels of a group have cost, in bits: eight each,
/// two for every third one's shift code, and four for each parity that
/// was given its absolute value.
spec fn v4_cost(group: GroupModel, n: nat) -> int {
    8 * n + 2 * (n as int / 3) + (if n > 0 && (group.nonz[0] != 0 || n >= 13) {
        4int
    } else {
        0
    }) + (if n > 0 && (group.nonz[1] != 0 || n >= 14) {
        4int
    } else {
        0
    })
}

proof fn lemma_v4_cost(data: Seq<u8>, group: GroupModel, bits: PanaModel, n: nat)
    requires
        n <= 14,
        group.pred.len() == 2,
        group.nonz.len() == 2,
        0 <= bits.cursor < 0x2_0000,
        bits.cursor % 128 == 0,
    ensures
        ({
            let (g, b) = v4_group(data, group, bits, n);
            &&& g.pred.len() == 2
            &&& g.nonz.len() == 2
            &&& b.cursor == (bits.cursor - v4_cost(g, n)) % 0x2_0000
            &&& b.loaded == if n == 0 {
                bits.loaded
            } else {
                bits.filled().loaded
            }
        }),
    decreases n,
{
    if n > 0 {
        let m = (n - 1) as nat;
        lemma_v4_cost(data, group, bits, m);
        let (g, b) = v4_group(data, group, bits, m);
        lemma_pixel_cost(data, g, b, bits, m as int);
    }
}

/// What pixel `i` costs, `spent` bits into its group.
proof fn lemma_pixel_cost(data: Seq<u8>, g: GroupModel, b: PanaModel, bits: PanaModel, i: int)
    requires
        0 <= i < 14,
        g.pred.len() == 2,
        g.nonz.len() == 2,
        0 <= bits.cursor < 0x2_0000,
        bits.cursor % 128 == 0,
        b.cursor == (bits.cursor - v4_cost(g, i as nat)) % 0x2_0000,
        b.loaded == if i == 0 {
            bits.loaded
        } else {
            bits.filled().loaded
        },
    ensures
        ({
            let (h, c) = g.pixel(data, b, i);
            &&& h.pred.len() == 2
            &&& h.nonz.len() == 2
            &&& c.cursor == (bits.cursor - v4_cost(h, (i + 1) as nat)) % 0x2_0000
            &&& c.loaded == bits.filled().loaded
        }),
{
    reveal(GroupModel::pixel);
    let cost = v4_cost(g, i as nat);
    assert(0 <= cost < 128 && (i > 0 ==> cost > 0));
    lemma_cursor(bits.cursor, cost);
    let coded = if i % 3 == 2 {
        2int
    } else {
        0
    };
    let rest = if i % 3 == 2 {
        b.after(2)
    } else {
        b
    };
    lemma_cursor(bits.cursor, cost + coded);
    assert(rest.cursor == (bits.cursor - (cost + coded)) % 0x2_0000);
    assert(rest.filled().loaded == bits.filled().loaded);
    let next = rest.after(8);
    lemma_cursor(bits.cursor, cost + coded + 8);
    assert(next.cursor == (bits.cursor - (cost + coded + 8)) % 0x2_0000);
    assert(next.loaded == bits.filled().loaded);
    assert((i + 1) / 3 == i / 3 + (if i % 3 == 2 {
        1int
    } else {
        0
    }));
}

proof fn lemma_cursor(cursor: int, cost: int)
    requires
        0 <= cursor < 0x2_0000,
        cursor % 128 == 0,
        0 <= cost <= 128,
    ensures
        0 < cost < 128 ==> (cursor - cost) % 0x2_0000 != 0,
        0 <= (cursor - cost) % 0x2_0000 < 0x2_0000,
        (cursor - cost) % 0x2_0000 == if cost <= cursor {
            cursor - cost
        } else {
            cursor - cost + 0x2_0000
        },
{
}

/// A group of fourteen pixels costs exactly sixteen bytes: the cursor of a
/// reader that stands between groups falls by 128 bits, and at most one
/// block is loaded, at its start.
pub proof fn law_group_costs_sixteen_bytes(data: Seq<u8>, group: GroupModel, bits: PanaModel)
    requires
        group.pred.len() == 2,
        group.nonz.len() == 2,
        0 <= bits.cursor < 0x2_0000,
        bits.cursor % 128 == 0,
    ensures
        v4_group(data, group, bits, 14).1 == (PanaModel {
            loaded: bits.filled().loaded,
            cursor: (bits.cursor - 128) % 0x2_0000,
        }),
{
    lemma_v4_cost(data, group, bits, 14);
}

/// Two predictors that decode alike from pixel `i` on: the shift is only
/// looked at once a code has set it.
spec fn alike(a: GroupModel, b: GroupModel, i: int) -> bool {
    &&& a.pred.len() == 2
    &&& a.nonz.len() == 2
    &&& b.pred.len() == 2
    &&& b.nonz.len() == 2
    &&& i > 0 ==> a.pred == b.pred && a.nonz == b.nonz
    &&& i > 2 ==> a.shift == b.shift
    &&& i == 1 ==> a.nonz[1] == 0
}

/// The walk over a whole frame and the walk over its block `k`, at the
/// same pixel.
spec fn in_step(
    data: Seq<u8>,
    k: int,
    whole: (GroupModel, PanaModel),
    part: (GroupModel, PanaModel),
    i: int,
) -> bool {
    &&& alike(whole.0, part.0, i)
    &&& whole.1.cursor == part.1.cursor
    &&& whole.1.loaded == part.1.loaded + k
}

proof fn lemma_bits_shifted(data: Seq<u8>, k: int, part: PanaModel, n: int)
    requires
        0 <= k,
        0 <= part.loaded,
        part.cursor == 0 || part.loaded > 0,
    ensures
        (PanaModel { loaded: part.loaded + k, cursor: part.cursor }).bits(data, n) == part.bits(
            from_block(data, k),
            n,
        ),
{
    reveal(PanaModel::bits);
    let whole = PanaModel { loaded: part.loaded + k, cursor: part.cursor };
    let j = part.after(n).loaded - 1;
    let tail = from_block(data, k);
    assert(whole.after(n).loaded - 1 == j + k);
    assert forall|i: int| pana_byte(data, j + k, i) == #[trigger] pana_byte(tail, j, i) by {
        assert((j + k) * 0x4000 == j * 0x4000 + k * 0x4000);
    }
    let at = pana_place(part.after(n).cursor);
    assert(pana_byte(data, j + k, at) == pana_byte(tail, j, at));
    assert(pana_byte(data, j + k, at + 1) == pana_byte(tail, j, at + 1));
}

proof fn lemma_pixel_in_step(
    data: Seq<u8>,
    k: int,
    whole: (GroupModel, PanaModel),
    part: (GroupModel, PanaModel),
    i: int,
)
    requires
        0 <= k,
        0 <= i < 14,
        in_step(data, k, whole, part, i),
        0 <= part.1.loaded,
        part.1.cursor == 0 || part.1.loaded > 0,
    ensures
        ({
            let a = whole.0.pixel(data, whole.1, i);
            let b = part.0.pixel(from_block(data, k), part.1, i);
            &&& in_step(data, k, a, b, if i == 13 {
                0
            } else {
                i + 1
            })
            &&& a.0.pred == b.0.pred
            &&& 0 < b.1.loaded
        }),
{
    reveal(GroupModel::pixel);
    let tail = from_block(data, k);
    let rest = if i % 3 == 2 {
        part.1.after(2)
    } else {
        part.1
    };
    assert(whole.1 == (PanaModel { loaded: part.1.loaded + k, cursor: part.1.cursor }));
    lemma_bits_shifted(data, k, part.1, 2);
    lemma_bits_shifted(data, k, rest, 8);
    lemma_bits_shifted(data, k, rest.after(8), 4);
}

/// The walk over a frame of whole groups, at its block `k`, keeps step
/// with the walk over that block alone.
proof fn lemma_runs_in_step(data: Seq<u8>, width: int, k: int, q: nat)
    requires
        width > 0,
        width % 14 == 0,
        0 <= k,
        q <= 14336,
    ensures
        ({
            let whole = v4_run(data, width, (14336 * k + q) as nat);
            let part = v4_run(from_block(data, k), 14336, q);
            &&& in_step(
                data,
                k,
                (whole.group, whole.bits),
                (part.group, part.bits),
                q as int % 14,
            )
            &&& q > 0 ==> whole.samples.last() == part.samples.last()
            &&& part.bits.cursor == 0 || part.bits.loaded > 0
            &&& 0 <= part.bits.loaded
            &&& whole.samples.len() == 14336 * k + q
        }),
    decreases k, q,
{
    lemma_v4_samples(data, width, (14336 * k + q) as nat, (14336 * k + q) as nat);
    let tail = from_block(data, k);
    if q > 0 {
        let p = (q - 1) as nat;
        lemma_runs_in_step(data, width, k, p);
        let at = 14336 * k + p;
        lemma_group_slot(at, width);
        assert(p as int % 14336 % 14 == p as int % 14);
        assert(at % 14 == p as int % 14);
        let whole = v4_run(data, width, at as nat);
        let part = v4_run(tail, 14336, p);
        lemma_pixel_in_step(
            data,
            k,
            (whole.group, whole.bits),
            (part.group, part.bits),
            p as int % 14,
        );
        assert(q as int % 14 == if p as int % 14 == 13 {
            0
        } else {
            p as int % 14 + 1
        });
    } else if k > 0 {
        lemma_runs_in_step(data, width, k - 1, 14336);
        lemma_block_spent(from_block(data, k - 1), 1024);
        assert(14336 * (k - 1) + 14336 == 14336 * k);
    }
}

/// The slot of a pixel in its group, in a frame of whole groups.
proof fn lemma_group_slot(at: int, width: int)
    requires
        0 <= at,
        width > 0,
        width % 14 == 0,
    ensures
        at % width % 14 == at % 14,
{
    vstd::arithmetic::div_mod::lemma_fundamental_div_mod(at, width);
    let q = at / width;
    let w = width / 14;
    assert(width * q == 14 * (w * q)) by (nonlinear_arith)
        requires
            width == 14 * w,
    ;
    assert(at == 14 * (w * q) + at % width);
}

/// After `m` groups of a block the cursor has fallen by 128 bits each.
proof fn lemma_block_spent(data: Seq<u8>, m: nat)
    requires
        m <= 1024,
    ensures
        ({
            let run = v4_run(data, 14336, (14 * m) as nat);
            &&& run.bits.cursor == (0x2_0000 - 128 * m) % 0x2_0000
            &&& run.bits.loaded == if m == 0 {
                0int
            } else {
                1
            }
            &&& run.group.pred.len() == 2
            &&& run.group.nonz.len() == 2
        }),
    decreases m,
{
    if m > 0 {
        let l = (m - 1) as nat;
        lemma_block_spent(data, l);
        let start = v4_run(data, 14336, (14 * l) as nat);
        lemma_group_walk(data, l, 14);
        assert(start.bits.cursor == if l == 0 {
            0
        } else {
            0x2_0000 - 128 * l
        });
        assert((128 * (1024 - l)) % 128 == 0);
        law_group_costs_sixteen_bytes(data, start.group, start.bits);
        lemma_v4_cost(data, start.group, start.bits, 14);
        assert(14 * l + 14 == 14 * m);
    }
}

proof fn lemma_group_walk(data: Seq<u8>, l: nat, n: nat)
    requires
        n <= 14,
        l < 1024,
    ensures
        ({
            let start = v4_run(data, 14336, (14 * l) as nat);
            let run = v4_run(data, 14336, (14 * l + n) as nat);
            (run.group, run.bits) == v4_group(data, start.group, start.bits, n)
        }),
    decreases n,
{
    if n > 0 {
        lemma_group_walk(data, l, (n - 1) as nat);
        let at = 14 * l + n - 1;
        assert(at % 14336 == at);
        assert(at % 14 == n - 1);
    }
}

/// In a frame whose rows are whole groups, the blocks can be decoded apart
/// from each other: the result is that of walking the frame in order.
pub proof fn law_blocks_are_independent(data: Seq<u8>, width: int, height: int)
    requires
        width > 0,
        height >= 0,
        width % 14 == 0,
    ensures
        v4_frame(data, width, height) == v4_run(data, width, (width * height) as nat).samples,
{
    let n = width * height;
    assert(n >= 0) by (nonlinear_arith)
        requires
            n == width * height,
            width > 0,
            height >= 0,
    ;
    let frame = v4_frame(data, width, height);
    let walk = v4_run(data, width, n as nat).samples;
    lemma_v4_samples(data, width, n as nat, n as nat);
    assert forall|p: int| 0 <= p < n implies frame[p] == walk[p] by {
        let (k, q) = (p / 14336, p % 14336);
        lemma_runs_in_step(data, width, k, (q + 1) as nat);
        assert(14336 * k + (q + 1) == p + 1);
        lemma_v4_samples(data, width, (p + 1) as nat, n as nat);
        assert(walk.take(p + 1)[p] == walk[p]);
        lemma_v4_samples(from_block(data, k), 14336, (q + 1) as nat, (q + 1) as nat);
    }
    assert(frame =~= walk);
}

// ------------------------------------------------------------- the file

/// The full sensor frame, padding included.
pub const SENSOR_WIDTH: u16 = 0x0002;

pub const SENSOR_HEIGHT: u16 = 0x0003;

/// The frame the camera means to show, as four edges.
pub const SENSOR_TOP: u16 = 0x0004;

pub const SENSOR_LEFT: u16 = 0x0005;

pub const SENSOR_BOTTOM: u16 = 0x0006;

pub const SENSOR_RIGHT: u16 = 0x0007;

/// 1 RGGB, 2 GRBG, 3 GBRG, 4 BGGR.
pub const PANASONIC_CFA: u16 = 0x0009;

pub const PANASONIC_BITS: u16 = 0x000A;

/// Which family of layouts the data is in.
pub const PANASONIC_COMPRESSION: u16 = 0x000B;

/// The level above which the sensor stops being linear.
pub const LINEARITY_LIMIT: u16 = 0x000E;

/// Red and blue balance times 256, on the oldest bodies.
pub const RED_BALANCE: u16 = 0x0011;

pub const BLUE_BALANCE: u16 = 0x0012;

pub const BLACK_LEVEL_RED: u16 = 0x001C;

pub const BLACK_LEVEL_GREEN: u16 = 0x001D;

pub const BLACK_LEVEL_BLUE: u16 = 0x001E;

pub const WB_RED_LEVEL: u16 = 0x0024;

pub const WB_GREEN_LEVEL: u16 = 0x0025;

pub const WB_BLUE_LEVEL: u16 = 0x0026;

/// Which codec the sensor data uses.
pub const RAW_FORMAT: u16 = 0x002D;

/// The full-size JPEG, inline.
pub const JPEG_FROM_RAW: u16 = 0x002E;

/// The aspect-ratio crop, on the bodies that offer one.
pub const CROP_TOP: u16 = 0x002F;

pub const CROP_LEFT: u16 = 0x0030;

pub const CROP_BOTTOM: u16 = 0x0031;

pub const CROP_RIGHT: u16 = 0x0032;

/// Where the sensor data starts, on every body that has a codec.
pub const RAW_DATA_OFFSET: u16 = 0x0118;

/// The codec of the sensor data.
#[derive(Debug, Clone, Copy, PartialEq, Eq, Structural)]
pub enum Codec {
    /// Whole words.
    Uncompressed,
    /// Fourteen pixels to sixteen bytes.
    Blocks14,
    /// Whole samples packed into sixteen-byte blocks.
    PackedBlocks,
    /// Eleven pixels to sixteen bytes.
    Groups11,
    /// A version that is known of but cannot be decoded.
    Unsupported(u32),
}

/// The codec that the format number names; without one, the compression
/// tells whole words from a codec that is not known.
pub open spec fn codec_of(format: Option<int>, compression: Option<int>) -> Codec {
    match format {
        Some(n) => if n == 4 {
            Codec::Blocks14
        } else if n == 6 {
            Codec::Groups11
        } else if n == 7 {
            Codec::PackedBlocks
        } else {
            Codec::Unsupported(n as u32)
        },
        None => if compression == Some(34826int) {
            Codec::Uncompressed
        } else {
            Codec::Unsupported(0)
        },
    }
}

fn pick_codec(format: Option<u32>, compression: Option<u32>) -> (codec: Codec)
    ensures
        codec == codec_of(wide(format), wide(compression)),
{
    match format {
        Some(4) => Codec::Blocks14,
        Some(6) => Codec::Groups11,
        Some(7) => Codec::PackedBlocks,
        Some(other) => Codec::Unsupported(other),
        None => match compression {
            Some(34826) => Codec::Uncompressed,
            _ => Codec::Unsupported(0),
        },
    }
}

/// A number without its machine type.
pub open spec fn wide(n: Option<u32>) -> Option<int> {
    match n {
        Some(n) => Some(n as int),
        None => None,
    }
}

/// Bits of a sample: what the file says where that is believable.
pub open spec fn sample_bits(n: Option<int>) -> int {
    match n {
        Some(bits) => if 8 <= bits <= 16 {
            bits
        } else {
            12
        },
        None => 12,
    }
}

/// Where the sensor data starts: where the file says, or its strip where
/// that is an offset at all. It runs to the end of the file.
pub open spec fn data_start(raw: Option<int>, strip: Option<int>, len: int) -> Option<int> {
    let start = match raw {
        Some(start) => Some(start),
        None => match strip {
            Some(start) => if start != 0xffff_ffff {
                Some(start)
            } else {
                None
            },
            None => None,
        },
    };
    match start {
        Some(start) => if start < len {
            Some(start)
        } else {
            None
        },
        None => None,
    }
}

fn find_start(raw: Option<u32>, strip: Option<u32>, len: usize) -> (r: Option<usize>)
    ensures
        match r {
            Some(start) => data_start(wide(raw), wide(strip), len as int) == Some(start as int)
                && start < len,
            None => data_start(wide(raw), wide(strip), len as int) is None,
        },
{
    let start: u32 = match raw {
        Some(start) => start,
        None => match strip {
            Some(start) => if start != 0xffff_ffff {
                start
            } else {
                return None;
            },
            None => return None,
        },
    };
    if (start as u64) < len as u64 {
        Some(start as usize)
    } else {
        None
    }
}

/// The frame that the sensor data holds.
pub open spec fn frame_of(data: Seq<u8>, codec: Codec, width: int, height: int, bits: int) -> Outcome<
    Seq<u16>,
> {
    let n = (width * height) as nat;
    if data.len() * 8 < width * height {
        Err(
            Fault::Corrupt(
                "RW2 frame of "@ + decimal(width * height) + " samples in "@ + decimal(
                    data.len() as int,
                ) + " bytes"@,
            ),
        )
    } else {
        match codec {
            Codec::Blocks14 => Ok(v4_frame(data, width, height)),
            Codec::Groups11 => if width % 11 != 0 {
                Err(
                    Fault::Unsupported(
                        "RW2 RawFormat 6 with a width of "@ + decimal(width)
                            + ", not a whole number of 11-pixel groups"@,
                    ),
                )
            } else {
                Ok(Seq::new(n, |i: int| v6_sample(data, i)))
            },
            Codec::PackedBlocks => Ok(Seq::new(n, |i: int| packed_block_sample(data, bits, i))),
            Codec::Uncompressed => Ok(Seq::new(n, |i: int| word_sample(data, bits, i))),
            Codec::Unsupported(version) => Err(
                Fault::Unsupported(
                    "RW2 RawFormat "@ + decimal(version as int)
                        + ": the 12-bit block codec (4), the 14-bit ones (6, 7) and the uncompressed layout are implemented"@,
                ),
            ),
        }
    }
}

/// Decodes the frame that sensor data holds.
pub fn decode_frame(data: &[u8], codec: Codec, width: usize, height: usize, bits: u32) -> (r: Result<
    Vec<u16>,
>)
    requires
        width * height <= usize::MAX,
        bits > 0,
    ensures
        deep_outcome(r) == frame_of(data@, codec, width as int, height as int, bits as int),
{
    assert(data@.len() == data.len());
    let samples: usize = width * height;
    if (data.len() as u128 * 8) < samples as u128 {
        let mut text = "RW2 frame of ".to_string();
        push_decimal(&mut text, samples as u64);
        text.append(" samples in ");
        push_decimal(&mut text, data.len() as u64);
        text.append(" bytes");
        return Err(Error::Corrupt(text));
    }
    match codec {
        Codec::Blocks14 => Ok(decode_v4(data, width, height)),
        Codec::Groups11 => {
            if width % 11 != 0 {
                let mut text = "RW2 RawFormat 6 with a width of ".to_string();
                push_decimal(&mut text, width as u64);
                text.append(", not a whole number of 11-pixel groups");
                return Err(Error::Unsupported(text));
            }
            Ok(decode_v6(data, width, height))
        },
        Codec::PackedBlocks => Ok(decode_packed_blocks(data, width, height, bits)),
        Codec::Uncompressed => Ok(decode_words(data, width, height, bits)),
        Codec::Unsupported(version) => {
            let mut text = "RW2 RawFormat ".to_string();
            push_decimal(&mut text, version as u64);
            text.append(
                ": the 12-bit block codec (4), the 14-bit ones (6, 7) and the uncompressed layout are implemented",
            );
            Err(Error::Unsupported(text))
        },
    }
}

/// The filter array that a one-number code stands for.
pub open spec fn pattern_of(code: Option<int>) -> CfaModel {
    if code == Some(2int) {
        grbg()
    } else if code == Some(3int) {
        gbrg()
    } else if code == Some(4int) {
        bggr()
    } else {
        rggb()
    }
}

/// The number of a filter array is the place of its red filter in the two
/// by two cell, counted in reading order from one; blue is opposite, and
/// the other two are green. Any other number stands for the first.
pub proof fn law_array_numbers_place_the_red_filter(code: int, x: int, y: int)
    requires
        1 <= code <= 4,
    ensures
        ({
            let cfa = pattern_of(Some(code));
            let (rx, ry) = ((code - 1) % 2, (code - 1) / 2);
            &&& x % 2 == rx && y % 2 == ry ==> cfa.color(x, y) == Some(CfaColor::Red)
            &&& x % 2 != rx && y % 2 != ry ==> cfa.color(x, y) == Some(CfaColor::Blue)
            &&& (x % 2 == rx) != (y % 2 == ry) ==> cfa.color(x, y) == Some(CfaColor::Green)
        }),
        pattern_of(None) == pattern_of(Some(1)),
{
    law_bayer_arrays_are_as_they_are_called(x, y);
}

fn pattern(code: Option<u32>) -> (cfa: Cfa)
    ensures
        cfa@ == pattern_of(wide(code)),
{
    match code {
        Some(2) => Cfa::grbg(),
        Some(3) => Cfa::gbrg(),
        Some(4) => Cfa::bggr(),
        _ => Cfa::rggb(),
    }
}

/// Four edges of a rectangle, with the crop that was there before kept
/// where an edge is missing or they do not lie inside the frame.
pub open spec fn framed(
    crop: Rect,
    edges: (Option<int>, Option<int>, Option<int>, Option<int>),
    width: int,
    height: int,
) -> Rect {
    match edges {
        (Some(top), Some(left), Some(bottom), Some(right)) => if right > left && bottom > top
            && right <= width && bottom <= height {
            Rect {
                x: left as usize,
                y: top as usize,
                width: (right - left) as usize,
                height: (bottom - top) as usize,
            }
        } else {
            crop
        },
        _ => crop,
    }
}

/// A crop holds the pixels from its left and top edge up to, but not with,
/// its right and bottom one. Edges that leave no pixel or reach past the
/// frame change nothing.
pub proof fn law_edges_bound_the_crop(
    crop: Rect,
    top: u32,
    left: u32,
    bottom: u32,
    right: u32,
    width: int,
    height: int,
    x: int,
    y: int,
)
    ensures
        ({
            let edges = (
                Some(top as int),
                Some(left as int),
                Some(bottom as int),
                Some(right as int),
            );
            let area = framed(crop, edges, width, height);
            if left < right && top < bottom && right <= width && bottom <= height {
                area.x <= x < area.x + area.width && area.y <= y < area.y + area.height <==> left
                    <= x < right && top <= y < bottom
            } else {
                area == crop
            }
        }),
{
}

fn frame_edges(
    crop: Rect,
    edges: (Option<u32>, Option<u32>, Option<u32>, Option<u32>),
    width: usize,
    height: usize,
) -> (r: Rect)
    ensures
        r == framed(
            crop,
            (wide(edges.0), wide(edges.1), wide(edges.2), wide(edges.3)),
            width as int,
            height as int,
        ),
{
    match edges {
        (Some(top), Some(left), Some(bottom), Some(right)) => {
            if right > left && bottom > top && right as u64 <= width as u64 && bottom as u64
                <= height as u64 {
                Rect {
                    x: left as usize,
                    y: top as usize,
                    width: (right - left) as usize,
                    height: (bottom - top) as usize,
                }
            } else {
                crop
            }
        },
        _ => crop,
    }
}

/// A level with the bias that the block coder starts each group from.
pub open spec fn biased(level: Ratio, codec: Codec) -> Ratio {
    if codec == Codec::Blocks14 {
        Ratio { num: (level.num + 15 * level.den) as i64, den: level.den }
    } else {
        level
    }
}

fn add_bias(level: Ratio, codec: Codec) -> (r: Ratio)
    requires
        -0x8000_0000 <= level.num <= 0xffff_ffff,
        level.den <= 0xffff_ffff,
    ensures
        r == biased(level, codec),
{
    match codec {
        Codec::Blocks14 => Ratio { num: level.num + 15 * level.den as i64, den: level.den },
        _ => level,
    }
}

/// The level of a filter position, from a level for each colour.
pub open spec fn level_of(cfa: CfaModel, levels: (Ratio, Ratio, Ratio), i: int) -> Ratio {
    match cfa.color(i % 2, i / 2) {
        Some(CfaColor::Red) => levels.0,
        Some(CfaColor::Blue) => levels.2,
        _ => levels.1,
    }
}

/// A position has the level of its filter's colour.
pub proof fn law_positions_have_the_levels_of_their_colours(
    cfa: CfaModel,
    red: Ratio,
    green: Ratio,
    blue: Ratio,
    x: int,
    y: int,
)
    requires
        0 <= x < 2,
        0 <= y < 2,
    ensures
        ({
            let level = level_of(cfa, (red, green, blue), 2 * y + x);
            &&& cfa.color(x, y) == Some(CfaColor::Red) ==> level == red
            &&& cfa.color(x, y) == Some(CfaColor::Blue) ==> level == blue
            &&& cfa.color(x, y) == Some(CfaColor::Green) || cfa.color(x, y) == Some(
                CfaColor::Green2,
            ) ==> level == green
        }),
{
    assert((2 * y + x) % 2 == x && (2 * y + x) / 2 == y);
}

/// Black levels by position, from what the file says of each colour. All
/// zero where one is missing or any of them reaches saturation.
pub open spec fn blacks_of(
    cfa: CfaModel,
    codec: Codec,
    levels: (Option<Ratio>, Option<Ratio>, Option<Ratio>),
    white: Ratio,
) -> Seq<Ratio> {
    match levels {
        (Some(r), Some(g), Some(b)) => {
            let all = (biased(r, codec), biased(g, codec), biased(b, codec));
            let spread = Seq::new(4, |i: int| level_of(cfa, all, i));
            if forall|i: int| 0 <= i < 4 ==> (#[trigger] spread[i]).less(white) {
                spread
            } else {
                all_four(Ratio::whole(0))
            }
        },
        _ => all_four(Ratio::whole(0)),
    }
}

fn spread_level(cfa: &Cfa, levels: (Ratio, Ratio, Ratio), i: usize) -> (r: Ratio)
    ensures
        r == level_of(cfa@, levels, i as int),
{
    match cfa.color_at(i % 2, i / 2) {
        Some(CfaColor::Red) => levels.0,
        Some(CfaColor::Blue) => levels.2,
        _ => levels.1,
    }
}

fn spread_blacks(
    cfa: &Cfa,
    codec: Codec,
    levels: (Option<Ratio>, Option<Ratio>, Option<Ratio>),
    white: Ratio,
) -> (out: [Ratio; 4])
    requires
        levels.0 matches Some(q) ==> -0x8000_0000 <= q.num <= 0xffff_ffff && q.den <= 0xffff_ffff,
        levels.1 matches Some(q) ==> -0x8000_0000 <= q.num <= 0xffff_ffff && q.den <= 0xffff_ffff,
        levels.2 matches Some(q) ==> -0x8000_0000 <= q.num <= 0xffff_ffff && q.den <= 0xffff_ffff,
        white.den > 0,
        white.num > 0,
    ensures
        out@ == blacks_of(cfa@, codec, levels, white),
{
    let zeros: [Ratio; 4] = [Ratio::whole(0);4];
    assert(zeros@ =~= all_four(Ratio::whole(0)));
    match levels {
        (Some(r), Some(g), Some(b)) => {
            let all = (add_bias(r, codec), add_bias(g, codec), add_bias(b, codec));
            let out: [Ratio; 4] = [
                spread_level(cfa, all, 0),
                spread_level(cfa, all, 1),
                spread_level(cfa, all, 2),
                spread_level(cfa, all, 3),
            ];
            let ghost spread = Seq::new(4, |i: int| level_of(cfa@, all, i));
            assert(out@ =~= spread);
            let low: bool = out[0].is_less(white) && out[1].is_less(white) && out[2].is_less(white)
                && out[3].is_less(white);
            assert(low == (spread[0].less(white) && spread[1].less(white) && spread[2].less(white)
                && spread[3].less(white)));
            proof {
                if low {
                    assert forall|i: int| 0 <= i < 4 implies (#[trigger] spread[i]).less(white) by {
                        assert(i == 0 || i == 1 || i == 2 || i == 3);
                    }
                }
            }
            if low {
                out
            } else {
                zeros
            }
        },
        _ => zeros,
    }
}

/// The saturation level: what the file says where that is more than
/// nothing, else full scale.
pub open spec fn white_of(limit: Option<Ratio>, bits: int) -> Ratio {
    match limit {
        Some(limit) => if limit.num > 0 {
            limit
        } else {
            Ratio::whole((pow2(bits as nat) - 1) as u32)
        },
        None => Ratio::whole((pow2(bits as nat) - 1) as u32),
    }
}

fn white(limit: Option<Ratio>, bits: u32) -> (r: Ratio)
    requires
        8 <= bits <= 16,
        limit matches Some(q) ==> q.den > 0,
    ensures
        r == white_of(limit, bits as int),
        r.den > 0,
        r.num > 0,
{
    proof {
        lemma2_to64();
        assert(pow2(bits as nat) >= 256) by {
            vstd::arithmetic::power2::lemma_pow2_strictly_increases(7, bits as nat);
            if bits > 8 {
                vstd::arithmetic::power2::lemma_pow2_strictly_increases(8, bits as nat);
            }
        }
        if bits < 16 {
            vstd::arithmetic::power2::lemma_pow2_strictly_increases(bits as nat, 16);
        }
    }
    let full = Ratio::whole(power_of_two(bits) - 1);
    match limit {
        Some(limit) => if limit.num > 0 {
            limit
        } else {
            full
        },
        None => full,
    }
}

/// White balance from a level for each colour, or from the two balances
/// against a green of 256 that the oldest bodies give.
pub open spec fn balance_of(
    levels: (Option<Ratio>, Option<Ratio>, Option<Ratio>),
    old: (Option<Ratio>, Option<Ratio>),
) -> Seq<Gain> {
    match levels {
        (Some(r), Some(g), Some(b)) => if g.num > 0 && r.num > 0 && b.num > 0 {
            seq![
                Gain::Quotient { over: r, under: g },
                Gain::unit(),
                Gain::Quotient { over: b, under: g },
                Gain::unit(),
            ]
        } else {
            all_four(Gain::unit())
        },
        _ => match old {
            (Some(r), Some(b)) => if r.num > 0 && b.num > 0 {
                seq![
                    Gain::Quotient { over: r, under: Ratio::whole(256) },
                    Gain::unit(),
                    Gain::Quotient { over: b, under: Ratio::whole(256) },
                    Gain::unit(),
                ]
            } else {
                all_four(Gain::unit())
            },
            _ => all_four(Gain::unit()),
        },
    }
}

fn balance(levels: (Option<Ratio>, Option<Ratio>, Option<Ratio>), old: (Option<Ratio>, Option<Ratio>)) -> (out: [Gain; 4])
    ensures
        out@ == balance_of(levels, old),
{
    let unit: [Gain; 4] = [Gain::unit();4];
    assert(unit@ =~= all_four(Gain::unit()));
    let (r, g, b) = match levels {
        (Some(r), Some(g), Some(b)) => (r, g, b),
        _ => match old {
            (Some(r), Some(b)) => (r, Ratio::whole(256), b),
            _ => return unit,
        },
    };
    if g.num > 0 && r.num > 0 && b.num > 0 {
        let out: [Gain; 4] = [
            Gain::Quotient { over: r, under: g },
            Gain::unit(),
            Gain::Quotient { over: b, under: g },
            Gain::unit(),
        ];
        assert(out@ =~= balance_of(levels, old));
        out
    } else {
        unit
    }
}

// ------------------------------------------------------------ previews

/// Where the TIFF header of the shooting data lies in a JPEG, looking from
/// marker segment `at` on.
pub open spec fn exif_from(jpeg: Seq<u8>, at: int) -> Option<int>
    decreases jpeg.len() - at,
{
    if at < 0 || at + 4 > jpeg.len() || jpeg[at] != 0xFF || jpeg[at + 1] == 0xDA || jpeg[at + 1]
        == 0xD9 || be16(jpeg, at + 2) < 2 {
        None
    } else if jpeg[at + 1] == 0xE1 && tagged(jpeg, at + 4, "Exif\0\0"@) {
        Some(at + 10)
    } else if at + 2 + be16(jpeg, at + 2) > jpeg.len() {
        None
    } else {
        exif_from(jpeg, at + 2 + be16(jpeg, at + 2))
    }
}

/// Finds the TIFF header of the shooting data in a JPEG.
fn find_exif(jpeg: &[u8]) -> (r: Option<usize>)
    ensures
        match r {
            Some(at) => exif_from(jpeg@, 2) == Some(at as int) && at <= jpeg@.len(),
            None => exif_from(jpeg@, 2) is None,
        },
{
    assert(jpeg@.len() == jpeg.len());
    proof {
        reveal_strlit("Exif\0\0");
    }
    let mut at: usize = 2;
    while jpeg.len() >= 4 && at <= jpeg.len() - 4
        invariant
            jpeg@.len() == jpeg.len(),
            "Exif\0\0"@.len() == 6,
            exif_from(jpeg@, 2) == exif_from(jpeg@, at as int),
        decreases jpeg@.len() - at,
    {
        if jpeg[at] != 0xFF {
            return None;
        }
        let marker: u8 = jpeg[at + 1];
        if marker == 0xDA || marker == 0xD9 {
            return None;
        }
        let len: usize = read_be16(jpeg, at + 2) as usize;
        if len < 2 {
            return None;
        }
        if marker == 0xE1 && has_tag(jpeg, at + 4, "Exif\0\0") {
            return Some(at + 10);
        }
        if len > jpeg.len() - at - 2 {
            return None;
        }
        at = at + 2 + len;
    }
    None
}

/// The full-size JPEG that a file carries inline, if the field is one.
pub open spec fn inline_jpeg(tiff: TiffModel) -> Option<Seq<u8>> {
    match tiff.root().field(JPEG_FROM_RAW) {
        Some(e) => if e.offset + e.count <= tiff.bytes.len() {
            let stream = tiff.bytes.subrange(e.offset as int, e.offset + e.count);
            if stream.len() >= 2 && stream[0] == 0xFF && stream[1] == 0xD8 {
                Some(stream)
            } else {
                None
            }
        } else {
            None
        },
        None => None,
    }
}

/// The picture to show: the inline one, unless a larger one is found.
pub open spec fn shown(tiff: TiffModel) -> Option<Seq<u8>> {
    let found = best_picture(tiff, tiff.ifds.len() as int);
    match inline_jpeg(tiff) {
        Some(inline) => if found matches Some(other) && other.len() > inline.len() {
            found
        } else {
            Some(inline)
        },
        None => found,
    }
}

/// Where the inline JPEG begins, and as much of it as the file holds.
pub open spec fn clipped_jpeg(tiff: TiffModel) -> Option<(int, Seq<u8>)> {
    match tiff.place(tiff.root(), JPEG_FROM_RAW) {
        Some((at, count)) => if at <= tiff.bytes.len() && at + count <= usize::MAX {
            let end = if at + count < tiff.bytes.len() {
                at + count
            } else {
                tiff.bytes.len() as int
            };
            let stream = tiff.bytes.subrange(at, end);
            if stream.len() >= 2 && stream[0] == 0xFF && stream[1] == 0xD8 {
                Some((at, stream))
            } else {
                None
            }
        } else {
            None
        },
        None => None,
    }
}

/// The shooting data inside the inline JPEG, which may run past the end of
/// the file.
pub open spec fn jpeg_tiff(tiff: TiffModel) -> Option<TiffModel> {
    match clipped_jpeg(tiff) {
        Some((start, jpeg)) => match exif_from(jpeg, 2) {
            Some(at) => match crate::raw::tiff::tiff_at(tiff.bytes, start + at) {
                Ok(inner) => Some(inner),
                Err(_) => None,
            },
            None => None,
        },
        None => None,
    }
}

fn find_inline<'a>(tiff: &Tiff<'a>) -> (r: Option<&'a [u8]>)
    requires
        tiff@.well_formed(),
    ensures
        match r {
            Some(stream) => inline_jpeg(tiff@) == Some(stream@),
            None => inline_jpeg(tiff@) is None,
        },
{
    assert(tiff.bytes@.len() == tiff.bytes.len());
    let entry = match tiff.root().get(JPEG_FROM_RAW) {
        Some(entry) => entry,
        None => return None,
    };
    if entry.offset > tiff.bytes.len() || entry.count > tiff.bytes.len() - entry.offset {
        return None;
    }
    let stream = slice_subrange(tiff.bytes, entry.offset, entry.offset + entry.count);
    if stream.len() >= 2 && stream[0] == 0xFF && stream[1] == 0xD8 {
        Some(stream)
    } else {
        None
    }
}

fn find_clipped<'a>(tiff: &Tiff<'a>) -> (r: Option<(usize, &'a [u8])>)
    requires
        tiff@.well_formed(),
    ensures
        match r {
            Some((at, stream)) => clipped_jpeg(tiff@) == Some((at as int, stream@)) && at
                + stream@.len() <= tiff.bytes@.len(),
            None => clipped_jpeg(tiff@) is None,
        },
{
    assert(tiff.bytes@.len() == tiff.bytes.len());
    let (at, count): (u128, u32) = match tiff.place(tiff.root(), JPEG_FROM_RAW) {
        Some(place) => place,
        None => return None,
    };
    let len: u128 = tiff.bytes.len() as u128;
    if at > len || at + count as u128 > usize::MAX as u128 {
        return None;
    }
    let end: usize = if at + (count as u128) < len {
        (at + count as u128) as usize
    } else {
        tiff.bytes.len()
    };
    let at: usize = at as usize;
    let stream = slice_subrange(tiff.bytes, at, end);
    if stream.len() >= 2 && stream[0] == 0xFF && stream[1] == 0xD8 {
        Some((at, stream))
    } else {
        None
    }
}

fn preview_from(tiff: &Tiff<'_>) -> (r: Option<Vec<u8>>)
    requires
        tiff@.well_formed(),
    ensures
        maybe_bytes(r) == shown(tiff@),
{
    let found = largest_jpeg(tiff);
    match find_inline(tiff) {
        Some(inline) => {
            if let Some(other) = found {
                if other.len() > inline.len() {
                    return Some(other);
                }
            }
            Some(owned(inline))
        },
        None => found,
    }
}

fn jpeg_exif<'a>(tiff: &Tiff<'a>) -> (r: Option<Tiff<'a>>)
    requires
        tiff@.well_formed(),
    ensures
        match r {
            Some(inner) => jpeg_tiff(tiff@) == Some(inner@) && inner@.well_formed(),
            None => jpeg_tiff(tiff@) is None,
        },
{
    assert(tiff.bytes@.len() == tiff.bytes.len());
    match find_clipped(tiff) {
        Some((start, jpeg)) => match find_exif(jpeg) {
            Some(at) => match Tiff::parse_embedded(tiff.bytes, start + at) {
                Ok(inner) => Some(inner),
                Err(_) => None,
            },
            None => None,
        },
        None => None,
    }
}

/// The embedded picture to show.
pub fn preview(bytes: &[u8]) -> (r: Result<Option<Vec<u8>>>)
    ensures
        preview_outcome(r) == match crate::raw::tiff::tiff_at(bytes@, 0) {
            Ok(tiff) => Outcome::<Option<Seq<u8>>>::Ok(shown(tiff)),
            Err(fault) => Outcome::<Option<Seq<u8>>>::Err(fault),
        },
{
    match Tiff::parse(bytes) {
        Ok(tiff) => Ok(preview_from(&tiff)),
        Err(e) => Err(e),
    }
}

// ------------------------------------------------------------ decoding

/// What a parsed file decodes to.
pub open spec fn decoded(tiff: TiffModel) -> Outcome<RawModel> {
    let root = tiff.root();
    let width = match tiff.number(root, SENSOR_WIDTH) {
        Some(n) => n,
        None => 0,
    };
    let height = match tiff.number(root, SENSOR_HEIGHT) {
        Some(n) => n,
        None => 0,
    };
    if width == 0 || height == 0 || width > 0x1_0000 || height > 0x1_0000 {
        Err(Fault::Corrupt("RW2 sensor "@ + decimal(width) + "x"@ + decimal(height)))
    } else {
        match frame_samples_spec(width as usize, height as usize, 1) {
            Err(fault) => Err(fault),
            Ok(_) => {
                let bits = sample_bits(tiff.number(root, PANASONIC_BITS));
                let codec = codec_of(
                    tiff.number(root, RAW_FORMAT),
                    tiff.number(root, PANASONIC_COMPRESSION),
                );
                match data_start(
                    tiff.number(root, RAW_DATA_OFFSET),
                    tiff.number(root, STRIP_OFFSETS),
                    tiff.bytes.len() as int,
                ) {
                    None => Err(Fault::Corrupt("RW2 with no sensor data offset"@)),
                    Some(start) => match frame_of(
                        tiff.bytes.skip(start),
                        codec,
                        width,
                        height,
                        bits,
                    ) {
                        Err(fault) => Err(fault),
                        Ok(data) => Ok(described(tiff, codec, width, height, bits, data)),
                    },
                }
            },
        }
    }
}

/// A decoded frame with everything the file says of it.
pub open spec fn described(
    tiff: TiffModel,
    codec: Codec,
    width: int,
    height: int,
    bits: int,
    data: Seq<u16>,
) -> RawModel {
    let root = tiff.root();
    let cfa = pattern_of(tiff.number(root, PANASONIC_CFA));
    let plain = plain_image(Format::Rw2, width as usize, height as usize, 1, data, cfa);
    let sensor = framed(
        plain.crop,
        (
            tiff.number(root, SENSOR_TOP),
            tiff.number(root, SENSOR_LEFT),
            tiff.number(root, SENSOR_BOTTOM),
            tiff.number(root, SENSOR_RIGHT),
        ),
        width,
        height,
    );
    let white = white_of(tiff.ratio(root, LINEARITY_LIMIT, 0), bits);
    RawModel {
        make: trimmed(camera_of(tiff).0),
        model: trimmed(camera_of(tiff).1),
        crop: framed(
            sensor,
            (
                tiff.number(root, CROP_TOP),
                tiff.number(root, CROP_LEFT),
                tiff.number(root, CROP_BOTTOM),
                tiff.number(root, CROP_RIGHT),
            ),
            width,
            height,
        ),
        black_levels: blacks_of(
            cfa,
            codec,
            (
                tiff.ratio(root, BLACK_LEVEL_RED, 0),
                tiff.ratio(root, BLACK_LEVEL_GREEN, 0),
                tiff.ratio(root, BLACK_LEVEL_BLUE, 0),
            ),
            white,
        ),
        white_level: white,
        wb_coeffs: balance_of(
            (
                tiff.ratio(root, WB_RED_LEVEL, 0),
                tiff.ratio(root, WB_GREEN_LEVEL, 0),
                tiff.ratio(root, WB_BLUE_LEVEL, 0),
            ),
            (tiff.ratio(root, RED_BALANCE, 0), tiff.ratio(root, BLUE_BALANCE, 0)),
        ),
        orientation: match jpeg_tiff(tiff) {
            Some(jpeg) => if root.field(ORIENTATION) is None {
                orientation_of(jpeg)
            } else {
                orientation_of(tiff)
            },
            None => orientation_of(tiff),
        },
        metadata: match jpeg_tiff(tiff) {
            Some(jpeg) => merged(metadata_of(tiff), metadata_of(jpeg)),
            None => metadata_of(tiff),
        },
        preview: shown(tiff),
        ..plain
    }
}

fn describe(
    tiff: &Tiff<'_>,
    codec: Codec,
    width: usize,
    height: usize,
    bits: u32,
    data: Vec<u16>,
) -> (raw: RawImage)
    requires
        tiff@.well_formed(),
        8 <= bits <= 16,
    ensures
        raw@ == described(tiff@, codec, width as int, height as int, bits as int, data@),
{
    let root = tiff.root();
    let cfa = pattern(first_number(tiff, root, PANASONIC_CFA));
    let mut raw = RawImage::new(Format::Rw2, width, height, 1, data, cfa);
    let (make, model) = make_model(tiff);
    raw.set_camera(make.as_str(), model.as_str());
    let sensor = frame_edges(
        raw.crop,
        (
            first_number(tiff, root, SENSOR_TOP),
            first_number(tiff, root, SENSOR_LEFT),
            first_number(tiff, root, SENSOR_BOTTOM),
            first_number(tiff, root, SENSOR_RIGHT),
        ),
        width,
        height,
    );
    raw.crop = frame_edges(
        sensor,
        (
            first_number(tiff, root, CROP_TOP),
            first_number(tiff, root, CROP_LEFT),
            first_number(tiff, root, CROP_BOTTOM),
            first_number(tiff, root, CROP_RIGHT),
        ),
        width,
        height,
    );
    let level = white(first_ratio(tiff, root, LINEARITY_LIMIT, 0), bits);
    raw.white_level = level;
    raw.black_levels = spread_blacks(
        &raw.cfa,
        codec,
        (
            first_ratio(tiff, root, BLACK_LEVEL_RED, 0),
            first_ratio(tiff, root, BLACK_LEVEL_GREEN, 0),
            first_ratio(tiff, root, BLACK_LEVEL_BLUE, 0),
        ),
        level,
    );
    raw.wb_coeffs = balance(
        (
            first_ratio(tiff, root, WB_RED_LEVEL, 0),
            first_ratio(tiff, root, WB_GREEN_LEVEL, 0),
            first_ratio(tiff, root, WB_BLUE_LEVEL, 0),
        ),
        (
            first_ratio(tiff, root, RED_BALANCE, 0),
            first_ratio(tiff, root, BLUE_BALANCE, 0),
        ),
    );
    raw.preview = preview_from(tiff);
    // Shutter, aperture, focal length and lens are only in the preview's
    // own data; so is the orientation, where the root leaves it out.
    match jpeg_exif(tiff) {
        Some(jpeg) => {
            raw.metadata = merge(metadata(tiff), metadata(&jpeg));
            raw.orientation = if root.has(ORIENTATION) {
                orientation(tiff)
            } else {
                orientation(&jpeg)
            };
        },
        None => {
            raw.metadata = metadata(tiff);
            raw.orientation = orientation(tiff);
        },
    }
    raw
}

/// Decodes the sensor frame of a parsed file.
pub fn decode_tiff(tiff: &Tiff<'_>) -> (r: Result<RawImage>)
    requires
        tiff@.well_formed(),
    ensures
        deep_outcome(r) == decoded(tiff@),
{
    assert(tiff.bytes@.len() == tiff.bytes.len());
    let root = tiff.root();
    let width: u32 = match first_number(tiff, root, SENSOR_WIDTH) {
        Some(n) => n,
        None => 0,
    };
    let height: u32 = match first_number(tiff, root, SENSOR_HEIGHT) {
        Some(n) => n,
        None => 0,
    };
    if width == 0 || height == 0 || width > 0x1_0000 || height > 0x1_0000 {
        let mut text = "RW2 sensor ".to_string();
        push_decimal(&mut text, width as u64);
        text.append("x");
        push_decimal(&mut text, height as u64);
        return Err(Error::Corrupt(text));
    }
    let (width, height): (usize, usize) = (width as usize, height as usize);
    match frame_samples(width, height, 1) {
        Ok(_) => {},
        Err(e) => return Err(e),
    }
    let bits: u32 = match first_number(tiff, root, PANASONIC_BITS) {
        Some(bits) => if 8 <= bits && bits <= 16 {
            bits
        } else {
            12
        },
        None => 12,
    };
    let codec = pick_codec(
        first_number(tiff, root, RAW_FORMAT),
        first_number(tiff, root, PANASONIC_COMPRESSION),
    );
    let start: usize = match find_start(
        first_number(tiff, root, RAW_DATA_OFFSET),
        first_number(tiff, root, STRIP_OFFSETS),
        tiff.bytes.len(),
    ) {
        Some(start) => start,
        None => return Err(corrupt("RW2 with no sensor data offset")),
    };
    let data = slice_subrange(tiff.bytes, start, tiff.bytes.len());
    assert(data@ =~= tiff.bytes@.skip(start as int));
    let frame = match decode_frame(data, codec, width, height, bits) {
        Ok(frame) => frame,
        Err(e) => return Err(e),
    };
    Ok(describe(tiff, codec, width, height, bits, frame))
}

/// Decodes an RW2 into its sensor frame and metadata.
pub fn decode(bytes: &[u8]) -> (r: Result<RawImage>)
    ensures
        deep_outcome(r) == match crate::raw::tiff::tiff_at(bytes@, 0) {
            Ok(tiff) => decoded(tiff),
            Err(fault) => Outcome::<RawModel>::Err(fault),
        },
{
    match Tiff::parse(bytes) {
        Ok(tiff) => decode_tiff(&tiff),
        Err(e) => Err(e),
    }
}

} // verus!
