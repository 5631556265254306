//! Samsung SRW: the ways its sensor strip is packed.
//!
//! The strip is one of four things: 16-bit little-endian words, samples
//! packed at their bit depth, the first lossless codec (see
//! [`decompress_v1`]) or the firmware-table Huffman codec (see
//! [`decompress_v2`]).

use crate::bytes::{le32, read_le32};
use crate::raw::common::{
    best_picture, camera_of, field_of, first_number, largest_jpeg, layout_of, make_model, metadata,
    metadata_of, orientation, orientation_of, pictured, strips_inside, ImageLayout, LayoutModel,
};
use crate::raw::frame::{full_scale, full_scale_of, plain_image, Gain, Ratio, RawImage, RawModel};
use crate::raw::formats::crx::{ceil_div, div_up};
use crate::raw::image::{grbg, rggb, Cfa, CfaColor, CfaKind, CfaModel};
use crate::raw::tiff::{
    bare_at, tiff_at, Ifd, IfdModel, Tiff, TiffModel, BITS_PER_SAMPLE, CFA_PATTERN,
    CFA_REPEAT_PATTERN_DIM, MAKER_NOTE, SAMPLES_PER_PIXEL, STRIP_OFFSETS,
};
use crate::raw::{
    corrupt, deep_outcome, frame_samples, frame_samples_spec, preview_outcome, unsupported, Error,
    Fault, Format, Outcome, Rect, Result,
};
use crate::text::{characters, decimal, is_upper, push_decimal, same_upper, trim, trimmed};
use crate::raw::bits::{
    after, from_category, from_twos_complement, lemma_after_after, lemma_word_bound, low_word,
    lsb_bits, msb32_bits, msb_bits, twos_complement, category_value, word, power_of_two, wrapped, BitPump,
    BitPumpLsb, BitPumpMsb, BitPumpMsb32, bits_of, two_complement_code, law_numbers_are_read_back,
    law_low_numbers_are_read_back, low_bits_of,
    law_twos_complement_is_read_back, category_code, category_of, law_categories_are_read_back,
    lemma_window,
};
use crate::raw::predict::{continued, Parity, ParityModel};
use crate::grid::{lemma_place, lemma_place_inverse, lemma_place_of, place, sample, sample_at};
use vstd::arithmetic::power2::{lemma2_to64, pow2};
use vstd::prelude::*;
use vstd::slice::slice_subrange;

verus! {

// ------------------------------------------------------------ codec v1

/// How many pixels of one row a block of the first codec covers.
pub const V1_BLOCK: usize = 16;

/// Where the decoder of one stream of the first codec stands.
pub struct V1Run {
    /// The frame as decoded so far.
    pub frame: Seq<u16>,
    /// The four difference lengths in force.
    pub lengths: Seq<int>,
    /// The bits of the stream that are left.
    pub rest: Seq<bool>,
    /// Whether every length met in the block at hand was in range.
    pub intact: bool,
}

/// One block of the first codec: which stream it belongs to, its first
/// column and its direction.
pub struct V1Block {
    pub width: int,
    pub height: int,
    pub stream: int,
    pub base: int,
    pub up: bool,
}

impl V1Block {
    /// The first row of the stream's pair.
    pub open spec fn pair(self) -> int {
        self.stream - self.stream % 2
    }

    /// Which columns the stream holds.
    pub open spec fn parity(self) -> int {
        self.stream % 2
    }

    /// The row of slot `c`: slots alternate between the pair's rows.
    pub open spec fn row(self, c: int) -> int {
        self.pair() + c % 2
    }

    /// The column of slot `c`.
    pub open spec fn col(self, c: int) -> int {
        self.base + c - c % 2 + self.parity()
    }

    /// What slot `c` is predicted from.
    pub open spec fn predictor(self, frame: Seq<u16>, c: int) -> int {
        if self.up {
            if c % 2 == 1 {
                if self.pair() >= 1 {
                    sample(frame, self.width, self.pair() - 1, self.col(c))
                } else {
                    0
                }
            } else if self.parity() == 1 {
                sample(frame, self.width, self.pair(), self.col(c) - 1)
            } else if self.pair() >= 2 && self.col(c) + 1 < self.width {
                sample(frame, self.width, self.pair() - 2, self.col(c) + 1)
            } else {
                0
            }
        } else if self.base >= 2 {
            sample(frame, self.width, self.row(c), self.base - 2 + self.parity())
        } else {
            128
        }
    }
}

/// The slot decoded as number `i` of a block: the pair's first row, then
/// its second.
pub open spec fn v1_slot(i: int) -> int {
    (i % 8) * 2 + i / 8
}

/// Which of the four lengths slot `c` uses: by row of the pair, then by
/// half of the block.
pub open spec fn v1_length_index(c: int) -> int {
    (c % 2) * 2 + c / 8
}

/// The decoder after value number `i` of a block.
pub open spec fn v1_value(run: V1Run, block: V1Block, i: int) -> V1Run {
    let c = v1_slot(i);
    let length = run.lengths[v1_length_index(c)];
    if !run.intact {
        run
    } else if length < 0 || length > 16 {
        V1Run { intact: false, ..run }
    } else {
        let diff = twos_complement(word(run.rest, length as nat) as int, length as nat);
        let rest = after(run.rest, length as nat);
        if block.col(c) >= block.width || block.row(c) >= block.height {
            V1Run { rest, ..run }
        } else {
            V1Run {
                rest,
                frame: run.frame.update(
                    place(block.width, block.row(c), block.col(c)),
                    ((block.predictor(run.frame, c) + diff) % 0x1_0000) as u16,
                ),
                ..run
            }
        }
    }
}

/// The decoder after the first `n` values of a block.
pub open spec fn v1_values(run: V1Run, block: V1Block, n: nat) -> V1Run
    decreases n,
{
    if n == 0 {
        run
    } else {
        v1_value(v1_values(run, block, (n - 1) as nat), block, n - 1)
    }
}

/// The four two-bit operations of a block's header, `rest` being at their
/// first bit.
pub open spec fn v1_operation(rest: Seq<bool>, k: int) -> int {
    word(after(rest, (2 * k) as nat), 2) as int
}

/// The lengths after the first `n` operations, and the bits left.
pub open spec fn v1_lengths(lengths: Seq<int>, rest: Seq<bool>, n: nat) -> (Seq<int>, Seq<bool>)
    decreases n,
{
    if n == 0 {
        (lengths, after(rest, 8))
    } else {
        let k = n - 1;
        let (before, left) = v1_lengths(lengths, rest, k as nat);
        let op = v1_operation(rest, k);
        if op == 3 {
            (before.update(k, word(left, 4) as int), after(left, 4))
        } else if op == 2 {
            (before.update(k, before[k] - 1), left)
        } else if op == 1 {
            (before.update(k, before[k] + 1), left)
        } else {
            (before, left)
        }
    }
}

/// The decoder after the block of `stream` that starts at column `base`.
pub open spec fn v1_block(run: V1Run, width: int, height: int, stream: int, base: int) -> V1Run {
    let up = word(run.rest, 1) == 1;
    let (lengths, rest) = v1_lengths(run.lengths, after(run.rest, 1), 4);
    v1_values(
        V1Run { lengths, rest, intact: true, ..run },
        V1Block { width, height, stream, base, up },
        16,
    )
}

/// The bytes a stream is read from.
pub open spec fn v1_source(strip: Seq<u8>, pointers: Seq<u32>, stream: int) -> Seq<u8> {
    let start = if stream < pointers.len() {
        pointers[stream] as int
    } else {
        0
    };
    if start <= strip.len() {
        strip.skip(start)
    } else {
        Seq::empty()
    }
}

/// The decoder of `stream` before its first block. The first two rows
/// have no row above to lean on and expect wider differences.
pub open spec fn v1_start(strip: Seq<u8>, pointers: Seq<u32>, frame: Seq<u16>, stream: int) -> V1Run {
    let length: int = if stream < 2 {
        7
    } else {
        4
    };
    V1Run {
        frame,
        lengths: seq![length, length, length, length],
        rest: msb32_bits(v1_source(strip, pointers, stream)),
        intact: true,
    }
}

/// The decoder of `stream` after its first `n` blocks.
pub open spec fn v1_stream(run: V1Run, width: int, height: int, stream: int, n: nat) -> V1Run
    decreases n,
{
    if n == 0 {
        run
    } else {
        v1_block(
            v1_stream(run, width, height, stream, (n - 1) as nat),
            width,
            height,
            stream,
            (n - 1) * 16,
        )
    }
}

/// The frame after the first `n` streams.
pub open spec fn v1_frame(
    strip: Seq<u8>,
    pointers: Seq<u32>,
    width: int,
    height: int,
    n: nat,
) -> Seq<u16>
    decreases n,
{
    if n == 0 {
        Seq::new((width * height) as nat, |i: int| 0u16)
    } else {
        let stream = n - 1;
        let frame = v1_frame(strip, pointers, width, height, stream as nat);
        v1_stream(
            v1_start(strip, pointers, frame, stream),
            width,
            height,
            stream,
            ((width + 15) / 16) as nat,
        ).frame
    }
}

proof fn lemma_row_fits(width: int, height: int)
    requires
        0 <= width,
        0 < height,
        width * height <= isize::MAX,
    ensures
        width <= isize::MAX,
{
    assert(width <= width * height) by (nonlinear_arith)
        requires
            0 <= width,
            1 <= height,
    ;
}

/// Decodes one value of a block; `false` when its length is out of range.
fn v1_decode_value(
    frame: &mut Vec<u16>,
    pump: &mut BitPumpMsb32,
    length: i32,
    width: usize,
    height: usize,
    stream: usize,
    base: usize,
    up: bool,
    c: usize,
    Ghost(lengths): Ghost<Seq<int>>,
    Ghost(i): Ghost<int>,
) -> (intact: bool)
    requires
        width * height <= isize::MAX,
        old(frame)@.len() == width * height,
        stream < height,
        base < width,
        c == v1_slot(i),
        0 <= i < 16,
        lengths.len() == 4,
        length == lengths[v1_length_index(c as int)],
    ensures
        ({
            let block = V1Block {
                width: width as int,
                height: height as int,
                stream: stream as int,
                base: base as int,
                up,
            };
            let run = V1Run {
                frame: old(frame)@,
                lengths,
                rest: old(pump).rest(),
                intact: true,
            };
            v1_value(run, block, i) == (V1Run {
                frame: final(frame)@,
                lengths,
                rest: final(pump).rest(),
                intact,
            })
        }),
        final(frame)@.len() == old(frame)@.len(),
{
    let ghost block = V1Block {
        width: width as int,
        height: height as int,
        stream: stream as int,
        base: base as int,
        up,
    };
    if length < 0 || length > 16 {
        return false;
    }
    let value: u32 = pump.get(length as u32);
    proof {
        lemma_word_bound(old(pump).rest(), length as nat);
        lemma_row_fits(width as int, height as int);
    }
    let diff: i32 = from_twos_complement(value, length as u32);
    let parity: usize = stream % 2;
    let pair: usize = stream - parity;
    let row: usize = pair + c % 2;
    let col: usize = base + (c - c % 2) + parity;
    if col >= width || row >= height {
        return true;
    }
    proof {
        let (w, h) = (width as int, height as int);
        lemma_place(w, h, row as int, col as int);
        lemma_place(w, h, pair as int, col as int);
        if pair >= 1 {
            lemma_place(w, h, pair - 1, col as int);
        }
        if pair >= 2 && col + 1 < width {
            lemma_place(w, h, pair - 2, col + 1);
        }
        if parity == 1 {
            lemma_place(w, h, pair as int, col - 1);
        }
        if base >= 2 {
            lemma_place(w, h, row as int, base - 2 + parity);
        }
    }
    let predictor: u16 = if up {
        if c % 2 == 1 {
            if pair >= 1 {
                sample_at(frame, width, pair - 1, col)
            } else {
                0
            }
        } else if parity == 1 {
            sample_at(frame, width, pair, col - 1)
        } else if pair >= 2 && col + 1 < width {
            sample_at(frame, width, pair - 2, col + 1)
        } else {
            0
        }
    } else if base >= 2 {
        sample_at(frame, width, row, base - 2 + parity)
    } else {
        128
    };
    assert(predictor == block.predictor(old(frame)@, c as int));
    frame.set(row * width + col, wrapped(predictor as i32 + diff));
    true
}

/// Decodes Samsung's first lossless codec.
///
/// The pointer table has an entry a row, but a *stream* is not a row:
/// stream `s` holds the columns of parity `s % 2` from both rows of the
/// pair it belongs to. Two streams therefore cover two rows. A stream is
/// read in blocks of sixteen values covering sixteen columns. Each block
/// opens with a direction bit and an operation on each of the four
/// difference lengths, and each value is that many bits, two's
/// complement, added to a predictor.
///
/// The frame must fit memory, and the width is bounded so that a length,
/// which moves by at most one a block, stays a machine integer.
pub fn decompress_v1(strip: &[u8], pointers: &[u32], width: usize, height: usize) -> (out: Vec<u16>)
    requires
        width * height <= isize::MAX,
        width < 0x7_ffff_0000,
    ensures
        out@ == v1_frame(strip@, pointers@, width as int, height as int, height as nat),
{
    let mut out: Vec<u16> = vec![0u16; width * height];
    assert(out@ =~= v1_frame(strip@, pointers@, width as int, height as int, 0));
    let mut stream: usize = 0;
    while stream < height
        invariant
            width * height <= isize::MAX,
            width < 0x7_ffff_0000,
            stream <= height,
            out@.len() == width * height,
            out@ == v1_frame(strip@, pointers@, width as int, height as int, stream as nat),
        decreases height - stream,
    {
        let start: usize = if stream < pointers.len() {
            pointers[stream] as usize
        } else {
            0
        };
        let source: &[u8] = if start <= strip.len() {
            slice_subrange(strip, start, strip.len())
        } else {
            slice_subrange(strip, 0, 0)
        };
        let ghost first = v1_start(strip@, pointers@, out@, stream as int);
        proof {
            assert(source@ =~= v1_source(strip@, pointers@, stream as int));
        }
        let mut pump = BitPumpMsb32::new(source);
        let length: i32 = if stream < 2 {
            7
        } else {
            4
        };
        let mut lengths: [i32; 4] = [length, length, length, length];
        let mut base: usize = 0;
        let ghost mut lens = first.lengths;
        let ghost mut n: nat = 0;
        while base < width
            invariant
                width * height <= isize::MAX,
                width < 0x7_ffff_0000,
                stream < height,
                out@.len() == width * height,
                base == 16 * n,
                base < width + 16,
                lens.len() == 4,
                forall|k: int| 0 <= k < 4 ==> lens[k] == lengths[k],
                forall|k: int| 0 <= k < 4 ==> -100 - n <= #[trigger] lengths[k] <= 100 + n,
                ({
                    let run = v1_stream(first, width as int, height as int, stream as int, n);
                    &&& run.frame == out@
                    &&& run.lengths == lens
                    &&& run.rest == pump.rest()
                }),
            decreases width + 16 - base,
        {
            let ghost run = v1_stream(first, width as int, height as int, stream as int, n);
            proof {
                lemma_row_fits(width as int, height as int);
            }
            let up: bool = pump.get(1) == 1;
            let ghost head = pump.rest();
            proof {
                lemma_after_after(head, 2, 2);
                lemma_after_after(head, 4, 2);
                lemma_after_after(head, 6, 2);
                assert(after(head, 0) =~= head);
            }
            let op0: u32 = pump.get(2);
            let op1: u32 = pump.get(2);
            let op2: u32 = pump.get(2);
            let op3: u32 = pump.get(2);
            let ops: [u32; 4] = [op0, op1, op2, op3];
            let mut k: usize = 0;
            while k < 4
                invariant
                    k <= 4,
                    base == 16 * n,
                    width < 0x7_ffff_0000,
                    base < width + 16,
                    lens.len() == 4,
                    forall|j: int| 0 <= j < 4 ==> #[trigger] ops[j] == v1_operation(head, j),
                    forall|j: int| 0 <= j < 4 ==> lens[j] == lengths[j],
                    forall|j: int| k <= j < 4 ==> -100 - n <= #[trigger] lengths[j] <= 100 + n,
                    forall|j: int| 0 <= j < k ==> -101 - n <= #[trigger] lengths[j] <= 101 + n,
                    run.lengths.len() == 4,
                    v1_lengths(run.lengths, head, k as nat) == (lens, pump.rest()),
                decreases 4 - k,
            {
                let op: u32 = ops[k];
                if op == 3 {
                    proof {
                        lemma_word_bound(pump.rest(), 4);
                        lemma2_to64();
                    }
                    let fresh: u32 = pump.get(4);
                    lengths[k] = fresh as i32;
                } else if op == 2 {
                    lengths[k] = lengths[k] - 1;
                } else if op == 1 {
                    lengths[k] = lengths[k] + 1;
                }
                proof {
                    lens = lens.update(k as int, lengths[k as int] as int);
                    assert(v1_lengths(run.lengths, head, (k + 1) as nat).0 =~= lens);
                }
                k = k + 1;
            }
            let ghost block = V1Block {
                width: width as int,
                height: height as int,
                stream: stream as int,
                base: base as int,
                up,
            };
            let ghost opened = V1Run {
                frame: out@,
                lengths: lens,
                rest: pump.rest(),
                intact: true,
            };
            let mut i: usize = 0;
            let mut intact: bool = true;
            while i < 16
                invariant
                    i <= 16,
                    width * height <= isize::MAX,
                    width < 0x7_ffff_0000,
                    stream < height,
                    base < width,
                    out@.len() == width * height,
                    lens.len() == 4,
                    forall|j: int| 0 <= j < 4 ==> lens[j] == lengths[j],
                    block == (V1Block {
                        width: width as int,
                        height: height as int,
                        stream: stream as int,
                        base: base as int,
                        up,
                    }),
                    v1_values(opened, block, i as nat) == (V1Run {
                        frame: out@,
                        lengths: lens,
                        rest: pump.rest(),
                        intact,
                    }),
                decreases 16 - i,
            {
                let c: usize = (i % 8) * 2 + i / 8;
                let index: usize = (c % 2) * 2 + c / 8;
                if intact {
                    intact = v1_decode_value(
                        &mut out,
                        &mut pump,
                        lengths[index],
                        width,
                        height,
                        stream,
                        base,
                        up,
                        c,
                        Ghost(lens),
                        Ghost(i as int),
                    );
                }
                i = i + 1;
            }
            proof {
                n = n + 1;
                assert(v1_stream(first, width as int, height as int, stream as int, n) == v1_block(
                    run,
                    width as int,
                    height as int,
                    stream as int,
                    base as int,
                ));
            }
            base = base + V1_BLOCK;
        }
        assert(n == (width + 15) / 16);
        stream = stream + 1;
    }
    out
}

// ---------------------------------------------------- writing codec v1

/// A frame and how it is written in the first codec: each block's
/// direction, by stream and number, and what is done to each of the four
/// difference lengths before it.
pub struct V1Writing {
    pub frame: Seq<u16>,
    pub width: int,
    pub height: int,
    /// Whether a block is predicted from above.
    pub up: spec_fn(int, int) -> bool,
    /// 0 leaves a length, 1 adds one, 2 takes one off, 3 sets it.
    pub op: spec_fn(int, int, int) -> int,
    /// What a length is set to.
    pub fresh: spec_fn(int, int, int) -> int,
}

impl V1Writing {
    /// The sample in row `row`, column `col`.
    pub open spec fn at(self, row: int, col: int) -> int {
        self.frame[row * self.width + col] as int
    }

    /// What a sample is written as a difference from. Along the row: the
    /// last sample of the same row and column parity before the block of
    /// sixteen columns, or 128. From above: in the second row of a pair,
    /// the sample two rows above; in the first, the sample to the left of
    /// an odd column, and the one two rows above and a column on of an even
    /// one; zero where there is none.
    pub open spec fn expected(self, up: bool, row: int, col: int) -> int {
        if !up {
            if col < 16 {
                128
            } else {
                self.at(row, col - col % 16 - 2 + col % 2)
            }
        } else if row % 2 == 1 {
            if row >= 2 {
                self.at(row - 2, col)
            } else {
                0
            }
        } else if col % 2 == 1 {
            self.at(row, col - 1)
        } else if row >= 2 && col + 1 < self.width {
            self.at(row - 2, col + 1)
        } else {
            0
        }
    }

    /// Length `k` of a stream in block `n`.
    pub open spec fn length(self, stream: int, n: nat, k: int) -> int
        decreases n,
    {
        let before = if n > 0 {
            self.length(stream, (n - 1) as nat, k)
        } else if stream < 2 {
            7
        } else {
            4
        };
        let op = (self.op)(stream, n as int, k);
        if op == 0 {
            before
        } else if op == 1 {
            before + 1
        } else if op == 2 {
            before - 1
        } else {
            (self.fresh)(stream, n as int, k)
        }
    }

    /// The row of value `j` of a block: eight of the pair's first row, then
    /// eight of its second.
    pub open spec fn row(self, stream: int, j: int) -> int {
        stream / 2 * 2 + j / 8
    }

    /// The column of value `j` of block `n`: every second one.
    pub open spec fn col(self, stream: int, n: int, j: int) -> int {
        16 * n + 2 * (j % 8) + stream % 2
    }

    /// How many bits value `j` of a block takes: each half of each row has
    /// a length of its own.
    pub open spec fn spent(self, stream: int, n: nat, j: int) -> int {
        self.length(stream, n, j / 4)
    }

    /// The difference of value `j` of a block; nothing past the last
    /// column.
    pub open spec fn difference(self, stream: int, n: nat, j: int) -> int {
        let (row, col) = (self.row(stream, j), self.col(stream, n as int, j));
        if col < self.width {
            self.at(row, col) - self.expected((self.up)(stream, n as int), row, col)
        } else {
            0
        }
    }

    /// Whether every difference fits the length in force.
    pub open spec fn fits(self) -> bool {
        &&& 0 < self.width
        &&& 0 <= self.height
        &&& self.height % 2 == 0
        &&& self.frame.len() == self.width * self.height
        &&& forall|stream: int, n: int, k: int|
            0 <= #[trigger] (self.op)(stream, n, k) <= 3 && 0 <= (self.fresh)(stream, n, k) <= 15
        &&& forall|stream: int, n: nat, j: int|
            0 <= stream < self.height && 16 * n < self.width && 0 <= j < 16
                ==> #[trigger] self.value_fits(stream, n, j)
    }

    pub open spec fn value_fits(self, stream: int, n: nat, j: int) -> bool {
        let (diff, length) = (self.difference(stream, n, j), self.spent(stream, n, j));
        &&& 0 <= length <= 16
        &&& length == 0 ==> diff == 0
        &&& length > 0 ==> -pow2((length - 1) as nat) <= diff < pow2((length - 1) as nat)
    }

    /// The values of a block from number `j` on, and then `tail`.
    pub open spec fn values(self, stream: int, n: nat, j: int, tail: Seq<bool>) -> Seq<bool>
        decreases 16 - j,
    {
        if j >= 16 {
            tail
        } else {
            let length = self.spent(stream, n, j) as nat;
            bits_of(two_complement_code(self.difference(stream, n, j), length), length)
                + self.values(stream, n, j + 1, tail)
        }
    }

    /// The lengths that are set before a block, from number `k` on, and
    /// then `tail`.
    pub open spec fn settings(self, stream: int, n: nat, k: int, tail: Seq<bool>) -> Seq<bool>
        decreases 4 - k,
    {
        if k >= 4 {
            tail
        } else if (self.op)(stream, n as int, k) == 3 {
            bits_of((self.fresh)(stream, n as int, k), 4) + self.settings(stream, n, k + 1, tail)
        } else {
            self.settings(stream, n, k + 1, tail)
        }
    }

    /// A stream from block `n` on, and then `tail`: the direction, the four
    /// operations, the lengths they set, the sixteen values.
    pub open spec fn blocks(self, stream: int, n: nat, tail: Seq<bool>) -> Seq<bool>
        decreases self.width + 16 - 16 * n,
    {
        if 16 * n >= self.width {
            tail
        } else {
            let op = |k: int| bits_of((self.op)(stream, n as int, k), 2);
            seq![(self.up)(stream, n as int)] + (op(0) + (op(1) + (op(2) + (op(3) + self.settings(
                stream,
                n,
                0,
                self.values(stream, n, 0, self.blocks(stream, n + 1, tail)),
            )))))
        }
    }

    /// Whether value `i` of block `n` of a stream comes after a sample.
    spec fn follows(self, stream: int, n: int, i: int, row: int, col: int) -> bool {
        let own = row / 2 * 2 + col % 2;
        own < stream || (own == stream && (col / 16 < n || (col / 16 == n && row % 2 * 8 + col
            % 16 / 2 < i)))
    }

    /// Whether a frame holds what comes before value `i` of block `n` of a
    /// stream.
    spec fn reached(self, frame: Seq<u16>, stream: int, n: int, i: int) -> bool {
        &&& frame.len() == self.frame.len()
        &&& forall|row: int, col: int|
            0 <= row < self.height && 0 <= col < self.width && self.follows(stream, n, i, row, col)
                ==> #[trigger] frame[place(self.width, row, col)] == self.at(row, col)
    }

    spec fn block(self, stream: int, n: nat) -> V1Block {
        V1Block {
            width: self.width,
            height: self.height,
            stream,
            base: (16 * n) as int,
            up: (self.up)(stream, n as int),
        }
    }

    /// Whether the decoder has the lengths of block `n`.
    spec fn has_lengths(self, lengths: Seq<int>, stream: int, n: nat) -> bool {
        &&& lengths.len() == 4
        &&& forall|k: int| 0 <= k < 4 ==> #[trigger] lengths[k] == self.length(stream, n, k)
    }

    proof fn lemma_predictor(self, frame: Seq<u16>, stream: int, n: nat, i: int)
        requires
            self.fits(),
            0 <= stream < self.height,
            16 * n < self.width,
            0 <= i < 16,
            self.reached(frame, stream, n as int, i),
            self.col(stream, n as int, i) < self.width,
        ensures
            ({
                let c = v1_slot(i);
                let (row, col) = (self.row(stream, i), self.col(stream, n as int, i));
                let block = self.block(stream, n);
                &&& block.row(c) == row
                &&& block.col(c) == col
                &&& 0 <= row < self.height
                &&& block.predictor(frame, c) == self.expected(block.up, row, col)
            }),
    {
        let c = v1_slot(i);
        let (row, col) = (self.row(stream, i), self.col(stream, n as int, i));
        let block = self.block(stream, n);
        let (w, h) = (self.width, self.height);
        assert(c % 2 == i / 8 && c - c % 2 == 2 * (i % 8));
        assert(block.row(c) == row && block.col(c) == col);
        if block.up {
            if row % 2 == 1 {
                if row >= 2 {
                    lemma_place(w, h, row - 2, col);
                    assert(self.follows(stream, n as int, i, row - 2, col));
                    assert(frame[place(w, row - 2, col)] == self.at(row - 2, col));
                }
            } else if col % 2 == 1 {
                lemma_place(w, h, row, col - 1);
                assert(self.follows(stream, n as int, i, row, col - 1));
                assert(frame[place(w, row, col - 1)] == self.at(row, col - 1));
            } else if row >= 2 && col + 1 < w {
                lemma_place(w, h, row - 2, col + 1);
                assert(self.follows(stream, n as int, i, row - 2, col + 1));
                assert(frame[place(w, row - 2, col + 1)] == self.at(row - 2, col + 1));
            }
        } else if n > 0 {
            let left = 16 * n - 2 + stream % 2;
            assert(col - col % 16 == 16 * n && col % 2 == stream % 2);
            lemma_place(w, h, row, left);
            assert(self.follows(stream, n as int, i, row, left));
            assert(frame[place(w, row, left)] == self.at(row, left));
        }
    }

    proof fn lemma_value(self, run: V1Run, stream: int, n: nat, i: int, tail: Seq<bool>)
        requires
            self.fits(),
            0 <= stream < self.height,
            16 * n < self.width,
            0 <= i < 16,
            run.intact,
            self.reached(run.frame, stream, n as int, i),
            self.has_lengths(run.lengths, stream, n),
            run.rest == self.values(stream, n, i, tail),
        ensures
            ({
                let next = v1_value(run, self.block(stream, n), i);
                &&& next.intact
                &&& next.lengths == run.lengths
                &&& next.rest == self.values(stream, n, i + 1, tail)
                &&& self.reached(next.frame, stream, n as int, i + 1)
            }),
    {
        let c = v1_slot(i);
        let block = self.block(stream, n);
        let diff = self.difference(stream, n, i);
        let length = self.spent(stream, n, i);
        let (row, col) = (self.row(stream, i), self.col(stream, n as int, i));
        assert(self.value_fits(stream, n, i));
        assert(v1_length_index(c) == i / 4);
        assert(run.lengths[i / 4] == length);
        law_twos_complement_is_read_back(diff, length as nat);
        law_numbers_are_read_back(
            two_complement_code(diff, length as nat),
            length as nat,
            self.values(stream, n, i + 1, tail),
        );
        let next = v1_value(run, block, i);
        assert(c % 2 == i / 8 && c - c % 2 == 2 * (i % 8));
        assert(block.row(c) == row && block.col(c) == col);
        assert(next.rest == self.values(stream, n, i + 1, tail));
        if col < self.width {
            self.lemma_predictor(run.frame, stream, n, i);
            lemma_place(self.width, self.height, row, col);
            let value = self.at(row, col);
            assert(block.predictor(run.frame, c) + diff == value);
            assert(value % 0x1_0000 == value);
        }
        assert forall|r: int, k: int|
            0 <= r < self.height && 0 <= k < self.width && self.follows(
                stream,
                n as int,
                i + 1,
                r,
                k,
            ) implies #[trigger] next.frame[place(self.width, r, k)] == self.at(r, k) by {
            lemma_place(self.width, self.height, r, k);
            lemma_place_inverse(self.width, r, k);
            if self.follows(stream, n as int, i, r, k) {
                assert(run.frame[place(self.width, r, k)] == self.at(r, k));
                if col < self.width {
                    lemma_place_inverse(self.width, row, col);
                    assert(r != row || k != col);
                }
            } else {
                assert(r / 2 * 2 + k % 2 == stream && k / 16 == n && r % 2 * 8 + k % 16 / 2 == i);
                assert(r == row && k == col);
            }
        }
    }

    proof fn lemma_values(self, run: V1Run, stream: int, n: nat, i: nat, tail: Seq<bool>)
        requires
            self.fits(),
            0 <= stream < self.height,
            16 * n < self.width,
            i <= 16,
            run.intact,
            self.reached(run.frame, stream, n as int, 0),
            self.has_lengths(run.lengths, stream, n),
            run.rest == self.values(stream, n, 0, tail),
        ensures
            ({
                let next = v1_values(run, self.block(stream, n), i);
                &&& next.intact
                &&& next.lengths == run.lengths
                &&& next.rest == self.values(stream, n, i as int, tail)
                &&& self.reached(next.frame, stream, n as int, i as int)
            }),
        decreases i,
    {
        if i > 0 {
            let j = (i - 1) as nat;
            self.lemma_values(run, stream, n, j, tail);
            self.lemma_value(
                v1_values(run, self.block(stream, n), j),
                stream,
                n,
                j as int,
                tail,
            );
        }
    }

    proof fn lemma_lengths(
        self,
        lengths: Seq<int>,
        stream: int,
        n: nat,
        k: nat,
        rest: Seq<bool>,
        tail: Seq<bool>,
    )
        requires
            self.fits(),
            k <= 4,
            lengths.len() == 4,
            forall|j: int|
                0 <= j < 4 ==> #[trigger] lengths[j] == if n > 0 {
                    self.length(stream, (n - 1) as nat, j)
                } else if stream < 2 {
                    7
                } else {
                    4
                },
            after(rest, 8) == self.settings(stream, n, 0, tail),
            forall|j: int| 0 <= j < 4 ==> v1_operation(rest, j) == #[trigger] (self.op)(stream, n as int, j),
        ensures
            ({
                let (next, left) = v1_lengths(lengths, rest, k);
                &&& next.len() == 4
                &&& left == self.settings(stream, n, k as int, tail)
                &&& forall|j: int| 0 <= j < k ==> #[trigger] next[j] == self.length(stream, n, j)
                &&& forall|j: int| k <= j < 4 ==> #[trigger] next[j] == lengths[j]
            }),
        decreases k,
    {
        if k > 0 {
            let j = (k - 1) as nat;
            self.lemma_lengths(lengths, stream, n, j, rest, tail);
            let fresh = (self.fresh)(stream, n as int, j as int);
            lemma2_to64();
            assert(0 <= (self.op)(stream, n as int, j as int) <= 3 && 0 <= fresh <= 15);
            law_numbers_are_read_back(fresh, 4, self.settings(stream, n, k as int, tail));
            assert(v1_operation(rest, j as int) == (self.op)(stream, n as int, j as int));
            assert(lengths[j as int] == v1_lengths(lengths, rest, j).0[j as int]);
        }
    }

    proof fn lemma_block(self, run: V1Run, stream: int, n: nat, tail: Seq<bool>)
        requires
            self.fits(),
            0 <= stream < self.height,
            16 * n < self.width,
            self.reached(run.frame, stream, n as int, 0),
            run.lengths.len() == 4,
            forall|j: int|
                0 <= j < 4 ==> #[trigger] run.lengths[j] == if n > 0 {
                    self.length(stream, (n - 1) as nat, j)
                } else if stream < 2 {
                    7
                } else {
                    4
                },
            run.rest == self.blocks(stream, n, tail),
        ensures
            ({
                let next = v1_block(run, self.width, self.height, stream, (16 * n) as int);
                &&& self.has_lengths(next.lengths, stream, n)
                &&& next.rest == self.blocks(stream, n + 1, tail)
                &&& self.reached(next.frame, stream, (n + 1) as int, 0)
            }),
    {
        lemma2_to64();
        let up = (self.up)(stream, n as int);
        let more = self.blocks(stream, n + 1, tail);
        let after_ops = self.settings(stream, n, 0, self.values(stream, n, 0, more));
        let op = |k: int| bits_of((self.op)(stream, n as int, k), 2);
        let r3 = op(3) + after_ops;
        let r2 = op(2) + r3;
        let r1 = op(1) + r2;
        let r0 = op(0) + r1;
        assert(run.rest == seq![up] + r0);
        assert(bits_of(if up { 1 } else { 0 }, 1) =~= seq![up]) by {
            reveal_with_fuel(bits_of, 2);
        }
        law_numbers_are_read_back(if up { 1 } else { 0 }, 1, r0);
        assert(0 <= (self.op)(stream, n as int, 0) <= 3);
        assert(0 <= (self.op)(stream, n as int, 1) <= 3);
        assert(0 <= (self.op)(stream, n as int, 2) <= 3);
        assert(0 <= (self.op)(stream, n as int, 3) <= 3);
        law_numbers_are_read_back((self.op)(stream, n as int, 0), 2, r1);
        law_numbers_are_read_back((self.op)(stream, n as int, 1), 2, r2);
        law_numbers_are_read_back((self.op)(stream, n as int, 2), 2, r3);
        law_numbers_are_read_back((self.op)(stream, n as int, 3), 2, after_ops);
        assert(after(r0, 0) =~= r0);
        lemma_after_after(r0, 2, 2);
        lemma_after_after(r0, 4, 2);
        lemma_after_after(r0, 6, 2);
        assert(v1_operation(r0, 0) == (self.op)(stream, n as int, 0));
        assert(v1_operation(r0, 1) == (self.op)(stream, n as int, 1));
        assert(v1_operation(r0, 2) == (self.op)(stream, n as int, 2));
        assert(v1_operation(r0, 3) == (self.op)(stream, n as int, 3));
        assert forall|j: int| 0 <= j < 4 implies v1_operation(r0, j) == #[trigger] (self.op)(
            stream,
            n as int,
            j,
        ) by {
            assert(j == 0 || j == 1 || j == 2 || j == 3);
        }
        self.lemma_lengths(run.lengths, stream, n, 4, r0, self.values(stream, n, 0, more));
        let (lengths, rest) = v1_lengths(run.lengths, r0, 4);
        let opened = V1Run { lengths, rest, intact: true, ..run };
        self.lemma_values(opened, stream, n, 16, more);
        let next = v1_values(opened, self.block(stream, n), 16);
        assert(next == v1_block(run, self.width, self.height, stream, (16 * n) as int));
        assert forall|r: int, k: int|
            0 <= r < self.height && 0 <= k < self.width && self.follows(stream, (n + 1) as int, 0, r, k)
                implies #[trigger] next.frame[place(self.width, r, k)] == self.at(r, k) by {
            assert(self.follows(stream, n as int, 16, r, k));
        }
    }

    proof fn lemma_stream(self, run: V1Run, stream: int, n: nat, tail: Seq<bool>)
        requires
            self.fits(),
            0 <= stream < self.height,
            16 * n < self.width + 16,
            self.reached(run.frame, stream, 0, 0),
            run.lengths == if stream < 2 {
                seq![7int, 7, 7, 7]
            } else {
                seq![4int, 4, 4, 4]
            },
            run.rest == self.blocks(stream, 0, tail),
        ensures
            ({
                let next = v1_stream(run, self.width, self.height, stream, n);
                &&& n > 0 ==> self.has_lengths(next.lengths, stream, (n - 1) as nat)
                &&& n == 0 ==> next.lengths == run.lengths
                &&& next.rest == self.blocks(stream, n, tail)
                &&& self.reached(next.frame, stream, n as int, 0)
            }),
        decreases n,
    {
        if n > 0 {
            let m = (n - 1) as nat;
            self.lemma_stream(run, stream, m, tail);
            self.lemma_block(
                v1_stream(run, self.width, self.height, stream, m),
                stream,
                m,
                tail,
            );
        }
    }

    proof fn lemma_streams(
        self,
        strip: Seq<u8>,
        pointers: Seq<u32>,
        tails: spec_fn(int) -> Seq<bool>,
        n: nat,
    )
        requires
            self.fits(),
            n <= self.height,
            pointers.len() >= self.height,
            forall|stream: int| 0 <= stream < self.height ==> #[trigger] pointers[stream] <= strip.len(),
            forall|stream: int|
                0 <= stream < self.height ==> msb32_bits(
                    strip.skip(#[trigger] pointers[stream] as int),
                ) == self.blocks(stream, 0, tails(stream)),
        ensures
            self.reached(v1_frame(strip, pointers, self.width, self.height, n), n as int, 0, 0),
        decreases n,
    {
        if n > 0 {
            let stream = n - 1;
            self.lemma_streams(strip, pointers, tails, stream as nat);
            let frame = v1_frame(strip, pointers, self.width, self.height, stream as nat);
            let run = v1_start(strip, pointers, frame, stream);
            let count = ((self.width + 15) / 16) as nat;
            assert(pointers[stream] <= strip.len());
            self.lemma_stream(run, stream, count, tails(stream));
            let next = v1_stream(run, self.width, self.height, stream, count).frame;
            assert forall|r: int, k: int|
                0 <= r < self.height && 0 <= k < self.width && self.follows(n as int, 0, 0, r, k)
                    implies #[trigger] next[place(self.width, r, k)] == self.at(r, k) by {
                assert(self.follows(stream, count as int, 0, r, k));
            }
        } else {
            assert(v1_frame(strip, pointers, self.width, self.height, 0).len()
                == self.frame.len());
        }
    }
}

/// The first codec undoes its writing: whatever the directions and the
/// lengths, a frame of an even number of rows whose differences fit the
/// lengths is read back from its streams, each of them where its row
/// pointer says, whatever follows it.
pub proof fn law_v1_undoes_writing(
    writing: V1Writing,
    strip: Seq<u8>,
    pointers: Seq<u32>,
    tails: spec_fn(int) -> Seq<bool>,
)
    requires
        writing.fits(),
        pointers.len() >= writing.height,
        forall|stream: int| 0 <= stream < writing.height ==> #[trigger] pointers[stream] <= strip.len(),
        forall|stream: int|
            0 <= stream < writing.height ==> msb32_bits(
                strip.skip(#[trigger] pointers[stream] as int),
            ) == writing.blocks(stream, 0, tails(stream)),
    ensures
        v1_frame(strip, pointers, writing.width, writing.height, writing.height as nat)
            == writing.frame,
{
    let (w, h) = (writing.width, writing.height);
    writing.lemma_streams(strip, pointers, tails, h as nat);
    let frame = v1_frame(strip, pointers, w, h, h as nat);
    assert forall|i: int| 0 <= i < frame.len() implies frame[i] == writing.frame[i] by {
        lemma_place_of(w, h, i);
        let (row, col) = (i / w, i % w);
        assert(writing.follows(h, 0, 0, row, col));
        assert(frame[place(w, row, col)] == writing.at(row, col));
    }
    assert(frame =~= writing.frame);
}

/// Any frame of samples below 2^14 can be written in the first codec,
/// whatever its blocks' directions: with fifteen bits for every difference.
pub proof fn law_v1_holds_fourteen_bits(
    frame: Seq<u16>,
    width: int,
    height: int,
    up: spec_fn(int, int) -> bool,
)
    requires
        0 < width,
        0 <= height,
        height % 2 == 0,
        frame.len() == width * height,
        forall|i: int| 0 <= i < frame.len() ==> #[trigger] frame[i] < 0x4000,
    ensures
        (V1Writing {
            frame,
            width,
            height,
            up,
            op: |stream: int, n: int, k: int| 3int,
            fresh: |stream: int, n: int, k: int| 15int,
        }).fits(),
{
    let writing = V1Writing {
        frame,
        width,
        height,
        up,
        op: |stream: int, n: int, k: int| 3int,
        fresh: |stream: int, n: int, k: int| 15int,
    };
    lemma2_to64();
    assert forall|row: int, col: int|
        0 <= row < height && 0 <= col < width implies 0 <= #[trigger] writing.at(row, col)
        < 0x4000 by {
        lemma_place(width, height, row, col);
    }
    assert forall|stream: int, n: nat, j: int|
        0 <= stream < height && 16 * n < width && 0 <= j < 16 implies #[trigger] writing.value_fits(
        stream,
        n,
        j,
    ) by {
        let (row, col) = (writing.row(stream, j), writing.col(stream, n as int, j));
        assert(writing.spent(stream, n, j) == 15);
        if col < width {
            let e = writing.expected((writing.up)(stream, n as int), row, col);
            assert(0 <= writing.at(row, col) < 0x4000);
            assert(0 <= e < 0x4000);
        }
    }
}

// ------------------------------------------------------------ codec v2

/// The fixed Huffman code of the second codec, as `(code length, symbol)`
/// in the order the codes are handed out.
///
/// The symbol is the number of extra bits the difference is written in.
/// The lengths are not monotonic, so this is *not* a canonical table.
pub const V2_CODE: [(u8, u8); 14] = [
    (3, 4),
    (3, 7),
    (2, 6),
    (2, 5),
    (4, 3),
    (6, 0),
    (7, 9),
    (8, 10),
    (9, 11),
    (10, 12),
    (10, 13),
    (5, 1),
    (4, 8),
    (4, 2),
];

/// The longest code in [`V2_CODE`].
pub const V2_BITS: u32 = 10;

/// The first ten-bit window that begins with code number `k`: the codes
/// before it own one window for every way to fill ten bits.
pub open spec fn v2_first_window(k: nat) -> nat
    decreases k,
{
    if k == 0 {
        0
    } else {
        v2_first_window((k - 1) as nat) + pow2((10 - V2_CODE[k - 1].0) as nat)
    }
}

/// The code that a ten-bit window begins with, `k` being at most its
/// number.
pub open spec fn v2_owner(window: int, k: nat) -> (u8, u8)
    decreases 14 - k,
{
    if k >= 13 || window < v2_first_window(k + 1) {
        V2_CODE[k as int]
    } else {
        v2_owner(window, k + 1)
    }
}

/// Whether some code stands for a difference of `symbol` bits.
pub open spec fn v2_has_symbol(symbol: u8) -> bool {
    exists|k: int| 0 <= k < 14 && (#[trigger] V2_CODE[k]).1 == symbol
}

/// The fourteen codes tile the ten-bit window exactly, and every symbol
/// up to thirteen has one of them.
pub proof fn law_v2_code_is_complete()
    ensures
        v2_first_window(14) == 1024,
        forall|symbol: u8| symbol < 14 ==> #[trigger] v2_has_symbol(symbol),
{
    lemma2_to64();
    reveal_with_fuel(v2_first_window, 15);
    assert(V2_CODE[5].1 == 0 && V2_CODE[11].1 == 1 && V2_CODE[13].1 == 2 && V2_CODE[4].1 == 3);
    assert(V2_CODE[0].1 == 4 && V2_CODE[3].1 == 5 && V2_CODE[2].1 == 6 && V2_CODE[1].1 == 7);
    assert(V2_CODE[12].1 == 8 && V2_CODE[6].1 == 9 && V2_CODE[7].1 == 10 && V2_CODE[8].1 == 11);
    assert(V2_CODE[9].1 == 12 && V2_CODE[10].1 == 13);
}

/// A complete lookup for [`V2_CODE`]: every ten-bit window maps straight
/// to `(code length, symbol)`.
pub struct V2Huffman {
    lookup: Vec<(u8, u8)>,
}

/// The difference a stream begins with, and the bits left after it.
pub open spec fn v2_difference<P: BitPump>(bits: Seq<bool>) -> (int, Seq<bool>) {
    let (length, symbol) = v2_owner(P::number(bits, 10) as int, 0);
    let rest = after(bits, length as nat);
    (
        category_value(P::number(rest, symbol as nat) as int, symbol as nat),
        after(rest, symbol as nat),
    )
}

proof fn lemma_v2_owner(window: int, k: nat, j: nat)
    requires
        k <= j < 14,
        v2_first_window(j) <= window < v2_first_window(j + 1),
    ensures
        v2_owner(window, k) == V2_CODE[j as int],
    decreases j - k,
{
    if k < j {
        lemma_v2_first_window_grows(k + 1, j);
        lemma_v2_owner(window, k + 1, j);
    }
}

proof fn lemma_v2_first_window_grows(a: nat, b: nat)
    requires
        a <= b,
    ensures
        v2_first_window(a) <= v2_first_window(b),
    decreases b - a,
{
    if a < b {
        lemma_v2_first_window_grows(a, (b - 1) as nat);
    }
}

proof fn lemma_v2_code_in_range(window: int, k: nat)
    requires
        k < 14,
    ensures
        1 <= v2_owner(window, k).0 <= 10,
        v2_owner(window, k).1 <= 13,
    decreases 14 - k,
{
    if k < 13 && window >= v2_first_window(k + 1) {
        lemma_v2_code_in_range(window, k + 1);
    }
}

impl V2Huffman {
    #[verifier::type_invariant]
    spec fn well_formed(self) -> bool {
        &&& self.lookup@.len() == 1024
        &&& forall|w: int| 0 <= w < 1024 ==> #[trigger] self.lookup@[w] == v2_owner(w, 0)
    }

    /// The code that each ten-bit window begins with.
    pub closed spec fn table(&self) -> Seq<(u8, u8)> {
        self.lookup@
    }

    /// Builds the lookup: the codes are handed out in order, so filling
    /// the table in order places them.
    pub fn new() -> (huffman: V2Huffman)
        ensures
            huffman.table().len() == 1024,
            forall|w: int| 0 <= w < 1024 ==> #[trigger] huffman.table()[w] == v2_owner(w, 0),
    {
        let mut lookup: Vec<(u8, u8)> = Vec::with_capacity(1024);
        proof {
            law_v2_code_is_complete();
        }
        let mut k: usize = 0;
        while k < 14
            invariant
                k <= 14,
                lookup@.len() == v2_first_window(k as nat),
                v2_first_window(14) == 1024,
                forall|w: int| 0 <= w < lookup@.len() ==> #[trigger] lookup@[w] == v2_owner(w, 0),
            decreases 14 - k,
        {
            let code: (u8, u8) = V2_CODE[k];
            assert(2 <= code.0 <= 10);
            let windows: usize = power_of_two(V2_BITS - code.0 as u32) as usize;
            proof {
                lemma_v2_first_window_grows((k + 1) as nat, 14);
            }
            let ghost begin = lookup@.len();
            let mut filled: usize = 0;
            while filled < windows
                invariant
                    filled <= windows,
                    k < 14,
                    code == V2_CODE[k as int],
                    begin == v2_first_window(k as nat),
                    begin + windows == v2_first_window((k + 1) as nat),
                    lookup@.len() == begin + filled,
                    forall|w: int|
                        0 <= w < lookup@.len() ==> #[trigger] lookup@[w] == v2_owner(w, 0),
                decreases windows - filled,
            {
                proof {
                    lemma_v2_owner(lookup@.len() as int, 0, k as nat);
                }
                lookup.push(code);
                filled = filled + 1;
            }
            k = k + 1;
        }
        V2Huffman { lookup }
    }

    /// The next difference: a length symbol, then that many bits, the
    /// bottom half of their range being negative.
    pub fn diff<P: BitPump>(&self, pump: &mut P) -> (diff: i32)
        ensures
            (diff as int, final(pump).rest()) == v2_difference::<P>(old(pump).rest()),
            -0x1_0000 < diff < 0x1_0000,
    {
        proof {
            use_type_invariant(self);
            lemma2_to64();
        }
        let window: u32 = pump.peek(V2_BITS);
        let (length, symbol) = self.lookup[window as usize];
        proof {
            lemma_v2_code_in_range(window as int, 0);
        }
        pump.consume(length as u32);
        let value: u32 = pump.get(symbol as u32);
        from_category(value, symbol as u32)
    }
}

/// Where the decoder of the second codec stands: the samples so far, the
/// predictor, and the bits left.
pub struct V2Run {
    pub frame: Seq<u16>,
    pub parity: ParityModel,
    pub rest: Seq<bool>,
}

/// The decoder after the first `n` pixels of a strip, row by row.
pub open spec fn v2_pixels(strip: Seq<u8>, width: int, n: nat) -> V2Run
    decreases n,
{
    if n == 0 {
        V2Run {
            frame: Seq::empty(),
            parity: ParityModel::seeded(0),
            rest: msb_bits(strip),
        }
    } else {
        let run = v2_pixels(strip, width, (n - 1) as nat);
        let (row, col) = ((n - 1) / width, (n - 1) % width);
        let (diff, rest) = v2_difference::<BitPumpMsb>(run.rest);
        V2Run {
            frame: run.frame.push(run.parity.sample(row, col, diff)),
            parity: run.parity.after(row, col, diff),
            rest,
        }
    }
}

/// Decodes the second codec: one Huffman-coded difference a pixel over a
/// single stream, predicted from the pixel two to the left, with the
/// first two pixels of each row continuing a total kept per row parity
/// and column.
pub fn decompress_v2(strip: &[u8], width: usize, height: usize) -> (out: Vec<u16>)
    requires
        0 < width,
        width * height <= usize::MAX,
    ensures
        out@ == v2_pixels(strip@, width as int, (width * height) as nat).frame,
{
    let huffman = V2Huffman::new();
    let mut pump = BitPumpMsb::new(strip);
    let mut out: Vec<u16> = Vec::new();
    let mut parity = Parity::new(0);
    let ghost (w, h) = (width as int, height as int);
    let mut row: usize = 0;
    while row < height
        invariant
            0 < width,
            w == width,
            h == height,
            w * h <= usize::MAX,
            row <= height,
            out@.len() == row * w,
            v2_pixels(strip@, w, out@.len()) == (V2Run {
                frame: out@,
                parity: parity@,
                rest: pump.rest(),
            }),
        decreases height - row,
    {
        let mut col: usize = 0;
        while col < width
            invariant
                0 < width,
                w == width,
                h == height,
                w * h <= usize::MAX,
                row < height,
                col <= width,
                out@.len() == row * w + col,
                v2_pixels(strip@, w, out@.len()) == (V2Run {
                    frame: out@,
                    parity: parity@,
                    rest: pump.rest(),
                }),
            decreases width - col,
        {
            proof {
                lemma_place_inverse(w, row as int, col as int);
            }
            let diff: i32 = huffman.diff(&mut pump);
            out.push(parity.step(row, col, diff));
            col = col + 1;
        }
        proof {
            assert((row + 1) * w == row * w + w) by (nonlinear_arith);
        }
        row = row + 1;
    }
    proof {
        assert(row * w == w * h) by (nonlinear_arith)
            requires
                row == h,
        ;
    }
    out
}

// ---------------------------------------------------- writing codec v2

/// The code that the second codec writes in front of a difference of
/// `size` bits, as a number and its length.
pub open spec fn v2_code_of(size: nat) -> (int, nat) {
    if size == 0 {
        (0b110100, 6)
    } else if size == 1 {
        (0b11011, 5)
    } else if size == 2 {
        (0b1111, 4)
    } else if size == 3 {
        (0b1100, 4)
    } else if size == 4 {
        (0b000, 3)
    } else if size == 5 {
        (0b10, 2)
    } else if size == 6 {
        (0b01, 2)
    } else if size == 7 {
        (0b001, 3)
    } else if size == 8 {
        (0b1110, 4)
    } else if size == 9 {
        (0b1101010, 7)
    } else if size == 10 {
        (0b11010110, 8)
    } else if size == 11 {
        (0b110101110, 9)
    } else if size == 12 {
        (0b1101011110, 10)
    } else {
        (0b1101011111, 10)
    }
}

/// The difference that pixel `n` of a frame is written as.
pub open spec fn v2_written_difference(frame: Seq<u16>, width: int, n: int) -> int {
    frame[n] - continued(frame, width, 0, n / width, n % width)
}

/// A frame from pixel `n` on in the second codec, and then `tail`: of each
/// pixel the code of its difference's size, and then the difference.
pub open spec fn v2_written(frame: Seq<u16>, width: int, n: nat, tail: Seq<bool>) -> Seq<bool>
    decreases frame.len() - n,
{
    if n >= frame.len() {
        tail
    } else {
        let diff = v2_written_difference(frame, width, n as int);
        let (code, length) = v2_code_of(category_of(diff));
        bits_of(code, length) + (bits_of(category_code(diff), category_of(diff)) + v2_written(
            frame,
            width,
            n + 1,
            tail,
        ))
    }
}

proof fn lemma_v2_code(size: nat, tail: Seq<bool>)
    requires
        size <= 13,
    ensures
        ({
            let (code, length) = v2_code_of(size);
            let rest = bits_of(code, length) + tail;
            &&& v2_owner(word(rest, 10) as int, 0) == (length as u8, size as u8)
            &&& after(rest, length) == tail
            &&& length <= 10
        }),
{
    lemma2_to64();
    let (code, length) = v2_code_of(size);
    law_numbers_are_read_back(code, length, tail);
    lemma_window(code, length, 10, tail);
    let w = word(bits_of(code, length) + tail, 10) as int;
    reveal_with_fuel(v2_first_window, 15);
    let k: nat = if size == 0 {
        assert(832 <= w < 848);
        5
    } else if size == 1 {
        assert(864 <= w < 896);
        11
    } else if size == 2 {
        assert(960 <= w < 1024);
        13
    } else if size == 3 {
        assert(768 <= w < 832);
        4
    } else if size == 4 {
        assert(0 <= w < 128);
        0
    } else if size == 5 {
        assert(512 <= w < 768);
        3
    } else if size == 6 {
        assert(256 <= w < 512);
        2
    } else if size == 7 {
        assert(128 <= w < 256);
        1
    } else if size == 8 {
        assert(896 <= w < 960);
        12
    } else if size == 9 {
        assert(848 <= w < 856);
        6
    } else if size == 10 {
        assert(856 <= w < 860);
        7
    } else if size == 11 {
        assert(860 <= w < 862);
        8
    } else if size == 12 {
        assert(862 <= w < 863);
        9
    } else {
        assert(863 <= w < 864);
        10
    };
    assert(v2_first_window(1) == 128 && v2_first_window(2) == 256 && v2_first_window(3) == 512
        && v2_first_window(4) == 768 && v2_first_window(5) == 832 && v2_first_window(6) == 848
        && v2_first_window(7) == 856 && v2_first_window(8) == 860 && v2_first_window(9) == 862
        && v2_first_window(10) == 863 && v2_first_window(11) == 864 && v2_first_window(12) == 896
        && v2_first_window(13) == 960 && v2_first_window(14) == 1024);
    assert(v2_first_window(k) <= w < v2_first_window(k + 1));
    lemma_v2_owner(w, 0, k);
}

proof fn lemma_v2_difference(diff: int, more: Seq<bool>)
    requires
        category_of(diff) <= 13,
    ensures
        ({
            let (code, length) = v2_code_of(category_of(diff));
            v2_difference::<BitPumpMsb>(
                bits_of(code, length) + (bits_of(category_code(diff), category_of(diff)) + more),
            ) == (diff, more)
        }),
{
    let k = category_of(diff);
    lemma_v2_code(k, bits_of(category_code(diff), k) + more);
    law_categories_are_read_back(diff);
    law_numbers_are_read_back(category_code(diff), k, more);
}

#[verifier::rlimit(40)]
proof fn lemma_v2_is_read(frame: Seq<u16>, width: int, strip: Seq<u8>, tail: Seq<bool>, n: nat)
    requires
        0 < width,
        n <= frame.len(),
        forall|i: int|
            0 <= i < frame.len() ==> category_of(
                #[trigger] v2_written_difference(frame, width, i),
            ) <= 13,
        msb_bits(strip) == v2_written(frame, width, 0, tail),
    ensures
        ({
            let run = v2_pixels(strip, width, n);
            &&& run.frame == frame.take(n as int)
            &&& run.parity.has_seen(frame, width, 0, n as int / width, n as int % width)
            &&& run.rest == v2_written(frame, width, n, tail)
        }),
    decreases n,
{
    if n == 0 {
        ParityModel::lemma_seeded(frame, width, 0);
        assert(frame.take(0) =~= Seq::empty());
        assert(0int / width == 0 && 0int % width == 0) by (nonlinear_arith)
            requires
                0 < width,
        ;
    } else {
        let m = (n - 1) as nat;
        lemma_v2_is_read(frame, width, strip, tail, m);
        let run = v2_pixels(strip, width, m);
        let diff = v2_written_difference(frame, width, m as int);
        let k = category_of(diff);
        let more = v2_written(frame, width, n, tail);
        let (row, col) = (m as int / width, m as int % width);
        lemma_v2_difference(diff, more);
        vstd::arithmetic::div_mod::lemma_fundamental_div_mod(m as int, width);
        assert(row >= 0 && 0 <= col < width) by (nonlinear_arith)
            requires
                row == m as int / width,
                col == m as int % width,
                0 < width,
                0 <= m,
        ;
        assert(width * row == row * width) by (nonlinear_arith);
        assert(row * width + col == m);
        run.parity.lemma_step(frame, width, 0, row, col, diff);
        assert(frame.take(n as int) =~= frame.take(m as int).push(frame[m as int]));
        if col + 1 < width {
            lemma_place_inverse(width, row, col + 1);
        } else {
            lemma_place_inverse(width, row + 1, 0);
            assert((row + 1) * width == row * width + width) by (nonlinear_arith);
        }
    }
}

/// The second codec undoes its writing: a frame whose differences have at
/// most thirteen bits is read back, each pixel being written as its
/// difference from the one two to its left, or in the first two columns
/// from the one two rows above, if there is one.
pub proof fn law_v2_undoes_writing(frame: Seq<u16>, width: int, strip: Seq<u8>, tail: Seq<bool>)
    requires
        0 < width,
        forall|i: int|
            0 <= i < frame.len() ==> category_of(
                #[trigger] v2_written_difference(frame, width, i),
            ) <= 13,
        msb_bits(strip) == v2_written(frame, width, 0, tail),
    ensures
        v2_pixels(strip, width, frame.len()).frame == frame,
{
    lemma_v2_is_read(frame, width, strip, tail, frame.len());
    assert(frame.take(frame.len() as int) =~= frame);
}

// ------------------------------------------------------- uncompressed

/// A strip as 16-bit little-endian words; zeros where it runs out.
pub open spec fn plain_frame(strip: Seq<u8>, pixels: nat) -> Seq<u16> {
    Seq::new(
        pixels,
        |i: int|
            if 2 * i + 1 < strip.len() {
                (strip[2 * i] + 0x100 * strip[2 * i + 1]) as u16
            } else {
                0u16
            },
    )
}

/// One 16-bit little-endian word a pixel.
pub fn plain(strip: &[u8], pixels: usize) -> (out: Vec<u16>)
    ensures
        out@ == plain_frame(strip@, pixels as nat),
{
    let mut out: Vec<u16> = Vec::new();
    let whole: usize = strip.len() / 2;
    let mut i: usize = 0;
    while i < pixels
        invariant
            i <= pixels,
            whole == strip@.len() / 2,
            strip@.len() <= usize::MAX,
            out@ == plain_frame(strip@, i as nat),
        decreases pixels - i,
    {
        let value: u16 = if i < whole {
            strip[2 * i] as u16 + 0x100 * strip[2 * i + 1] as u16
        } else {
            0
        };
        out.push(value);
        i = i + 1;
        assert(out@ =~= plain_frame(strip@, i as nat));
    }
    out
}

/// The bytes of one packed row; rows start on byte boundaries.
pub open spec fn packed_row(strip: Seq<u8>, stride: int, row: int) -> Seq<u8> {
    let from = row * stride;
    if from + stride <= strip.len() {
        strip.subrange(from, from + stride)
    } else if from <= strip.len() {
        strip.skip(from)
    } else {
        Seq::empty()
    }
}

/// One packed sample of a row.
pub open spec fn packed_sample(source: Seq<u8>, bits: nat, msb_first: bool, col: int) -> u16 {
    if msb_first {
        word(after(msb_bits(source), (col * bits) as nat), bits) as u16
    } else {
        low_word(after(lsb_bits(source), (col * bits) as nat), bits) as u16
    }
}

/// A frame of samples packed at `bits`.
pub open spec fn packed_frame(
    strip: Seq<u8>,
    width: int,
    n: nat,
    bits: nat,
    msb_first: bool,
) -> Seq<u16> {
    Seq::new(
        n,
        |i: int|
            packed_sample(
                packed_row(strip, (width * bits + 7) / 8, i / width),
                bits,
                msb_first,
                i % width,
            ),
    )
}

/// Samples packed at `bits`, rows starting on byte boundaries.
pub fn packed(strip: &[u8], width: usize, height: usize, bits: u32, msb_first: bool) -> (out: Vec<
    u16,
>)
    requires
        0 < width,
        bits <= 16,
        width * height <= usize::MAX,
        width * bits + 7 <= usize::MAX,
        (width * bits + 7) / 8 * height <= usize::MAX,
    ensures
        out@ == packed_frame(strip@, width as int, (width * height) as nat, bits as nat, msb_first),
{
    let stride: usize = (width * bits as usize + 7) / 8;
    let ghost (w, h, b, s) = (width as int, height as int, bits as nat, stride as int);
    let mut out: Vec<u16> = Vec::new();
    let mut row: usize = 0;
    while row < height
        invariant
            0 < w,
            w == width,
            h == height,
            b == bits,
            s == stride,
            s == (w * b + 7) / 8,
            bits <= 16,
            s * h <= usize::MAX,
            w * h <= usize::MAX,
            row <= height,
            out@.len() == row * w,
            out@ == packed_frame(strip@, w, out@.len(), b, msb_first),
        decreases height - row,
    {
        proof {
            assert(row * s + s <= s * h) by (nonlinear_arith)
                requires
                    row + 1 <= h,
                    0 <= s,
            ;
            assert(0 <= row * s) by (nonlinear_arith)
                requires
                    0 <= row,
                    0 <= s,
            ;
        }
        let from: usize = row * stride;
        let source: &[u8] = if from <= strip.len() {
            if stride <= strip.len() - from {
                slice_subrange(strip, from, from + stride)
            } else {
                slice_subrange(strip, from, strip.len())
            }
        } else {
            slice_subrange(strip, 0, 0)
        };
        assert(source@ =~= packed_row(strip@, s, row as int));
        let mut msb = BitPumpMsb::new(source);
        let mut lsb = BitPumpLsb::new(source);
        let mut col: usize = 0;
        proof {
            assert(after(msb_bits(source@), 0) =~= msb_bits(source@));
            assert(after(lsb_bits(source@), 0) =~= lsb_bits(source@));
            assert(0 * b == 0);
        }
        while col < width
            invariant
                0 < w,
                w == width,
                h == height,
                b == bits,
                s == (w * b + 7) / 8,
                bits <= 16,
                w * h <= usize::MAX,
                row < height,
                col <= width,
                source@ == packed_row(strip@, s, row as int),
                msb_first ==> msb.rest() == after(msb_bits(source@), (col * b) as nat),
                !msb_first ==> lsb.rest() == after(lsb_bits(source@), (col * b) as nat),
                out@.len() == row * w + col,
                out@ == packed_frame(strip@, w, out@.len(), b, msb_first),
            decreases width - col,
        {
            proof {
                lemma_place_inverse(w, row as int, col as int);
                assert((col + 1) * b == col * b + b) by (nonlinear_arith);
                assert(0 <= col * b) by (nonlinear_arith);
                lemma_after_after(msb_bits(source@), (col * b) as nat, b);
                lemma_after_after(lsb_bits(source@), (col * b) as nat, b);
            }
            let value: u32 = if msb_first {
                msb.get(bits)
            } else {
                lsb.get(bits)
            };
            out.push(value as u16);
            assert(out@ =~= packed_frame(strip@, w, out@.len(), b, msb_first));
            col = col + 1;
        }
        proof {
            assert((row + 1) * w == row * w + w) by (nonlinear_arith);
        }
        row = row + 1;
    }
    proof {
        assert(row * w == w * h) by (nonlinear_arith)
            requires
                row == h,
        ;
    }
    out
}

/// Samples from number `n` on, packed at `bits` each, and then `tail`.
pub open spec fn packed_bits(
    samples: Seq<u16>,
    bits: nat,
    msb_first: bool,
    n: nat,
    tail: Seq<bool>,
) -> Seq<bool>
    decreases samples.len() - n,
{
    if n >= samples.len() {
        tail
    } else if msb_first {
        bits_of(samples[n as int] as int, bits) + packed_bits(samples, bits, msb_first, n + 1, tail)
    } else {
        low_bits_of(samples[n as int] as int, bits) + packed_bits(
            samples,
            bits,
            msb_first,
            n + 1,
            tail,
        )
    }
}

/// Where a packed sample starts.
pub proof fn lemma_packed_bits(
    samples: Seq<u16>,
    bits: nat,
    msb_first: bool,
    n: nat,
    tail: Seq<bool>,
)
    requires
        n <= samples.len(),
        forall|i: int| 0 <= i < samples.len() ==> #[trigger] samples[i] < pow2(bits),
    ensures
        after(packed_bits(samples, bits, msb_first, 0, tail), n * bits) == packed_bits(
            samples,
            bits,
            msb_first,
            n,
            tail,
        ),
    decreases n,
{
    let all = packed_bits(samples, bits, msb_first, 0, tail);
    if n == 0 {
        assert(0 * bits == 0);
        assert(after(all, 0) =~= all);
    } else {
        let m = (n - 1) as nat;
        lemma_packed_bits(samples, bits, msb_first, m, tail);
        assert(n * bits == m * bits + bits) by (nonlinear_arith)
            requires
                n == m + 1,
        ;
        lemma_after_after(all, m * bits, bits);
        let rest = packed_bits(samples, bits, msb_first, n, tail);
        if msb_first {
            law_numbers_are_read_back(samples[m as int] as int, bits, rest);
        } else {
            law_low_numbers_are_read_back(samples[m as int] as int, bits, rest);
        }
    }
}

/// Unpacking undoes packing: a frame whose samples fit `bits` is read back
/// where each row of bytes holds the row's samples one after another, from
/// the top of each byte or from its bottom, whatever fills the last byte.
pub proof fn law_unpacking_undoes_packing(
    frame: Seq<u16>,
    strip: Seq<u8>,
    width: int,
    height: int,
    bits: nat,
    msb_first: bool,
    tails: spec_fn(int) -> Seq<bool>,
)
    requires
        0 < width,
        0 <= height,
        frame.len() == width * height,
        strip.len() >= (width * bits + 7) / 8 * height,
        forall|i: int| 0 <= i < frame.len() ==> #[trigger] frame[i] < pow2(bits),
        forall|row: int|
            0 <= row < height ==> ({
                let stride = (width * bits + 7) / 8;
                let source = strip.subrange(row * stride, row * stride + stride);
                (if msb_first {
                    msb_bits(source)
                } else {
                    lsb_bits(source)
                }) == packed_bits(
                    frame.subrange(row * width, row * width + width),
                    bits,
                    msb_first,
                    0,
                    #[trigger] tails(row),
                )
            }),
    ensures
        packed_frame(strip, width, (width * height) as nat, bits, msb_first) == frame,
{
    let stride = (width * bits + 7) / 8;
    let read = packed_frame(strip, width, (width * height) as nat, bits, msb_first);
    assert(stride >= 0) by {
        assert(width * bits >= 0) by (nonlinear_arith)
            requires
                0 < width,
                0 <= bits,
        ;
    }
    assert forall|i: int| 0 <= i < frame.len() implies read[i] == frame[i] by {
        lemma_place_of(width, height, i);
        let (row, col) = (i / width, i % width);
        assert(row * stride + stride <= stride * height && 0 <= row * stride) by (nonlinear_arith)
            requires
                0 <= row < height,
                0 <= stride,
        ;
        assert(0 <= row * width && row * width + width <= width * height) by (nonlinear_arith)
            requires
                0 <= row < height,
                0 < width,
        ;
        let source = strip.subrange(row * stride, row * stride + stride);
        assert(packed_row(strip, stride, row) == source);
        let samples = frame.subrange(row * width, row * width + width);
        assert forall|j: int| 0 <= j < samples.len() implies #[trigger] samples[j] < pow2(bits) by {
            assert(samples[j] == frame[row * width + j]);
        }
        lemma_packed_bits(samples, bits, msb_first, col as nat, tails(row));
        let rest = packed_bits(samples, bits, msb_first, (col + 1) as nat, tails(row));
        assert(samples[col] == frame[i]);
        assert(col * bits == (col as nat) * bits);
        if msb_first {
            law_numbers_are_read_back(samples[col] as int, bits, rest);
        } else {
            law_low_numbers_are_read_back(samples[col] as int, bits, rest);
        }
    }
    assert(read =~= frame);
}

/// Words are read back from a strip that holds the low byte and then the
/// high byte of each.
pub proof fn law_plain_words_are_read_back(frame: Seq<u16>, strip: Seq<u8>)
    requires
        strip.len() >= 2 * frame.len(),
        forall|i: int|
            0 <= i < frame.len() ==> strip[2 * i] == #[trigger] frame[i] % 0x100 && strip[2 * i + 1]
                == frame[i] / 0x100,
    ensures
        plain_frame(strip, frame.len()) == frame,
{
    assert forall|i: int| 0 <= i < frame.len() implies plain_frame(strip, frame.len())[i]
        == frame[i] by {
        let v = frame[i];
        assert(strip[2 * i] == v % 0x100 && strip[2 * i + 1] == v / 0x100);
    }
    assert(plain_frame(strip, frame.len()) =~= frame);
}

// ------------------------------------------------------------- the file

/// Uncompressed, one 16-bit word a pixel.
pub const COMPRESSION_PLAIN: u32 = 32769;

/// The first lossless codec, and also what some bodies write on a frame
/// that is merely packed; so the strip's size decides.
pub const COMPRESSION_V1: u32 = 32770;

/// The firmware-table Huffman codec.
pub const COMPRESSION_V2: u32 = 32772;

/// The codec of the last bodies, which is not read.
pub const COMPRESSION_V3: u32 = 32773;

/// Makernote: two rectangles, the second of which is the active area.
pub const SENSOR_AREAS: u16 = 0xA010;

/// Makernote: what is added to the levels below.
pub const ENCRYPTION_KEY: u16 = 0xA020;

/// Makernote: the as-shot balance, R G1 G2 B.
pub const WB_LEVELS: u16 = 0xA021;

/// Makernote: the black point, R G1 G2 B.
pub const BLACK_LEVELS: u16 = 0xA028;

/// Where the per-row offsets of a v1 stream are.
pub const RAW_POINTERS_OFFSET: u16 = 0xA010;

/// The first directory from the `i`th on that holds sensor samples: one
/// with strips of more than eight bits a sample.
pub open spec fn sensor_ifd(tiff: TiffModel, i: int) -> Option<int>
    decreases tiff.ifds.len() - i,
{
    if i < 0 || i >= tiff.ifds.len() {
        None
    } else if tiff.ifds[i].field(STRIP_OFFSETS) is Some && (tiff.number(
        tiff.ifds[i],
        BITS_PER_SAMPLE,
    ) matches Some(bits) && bits > 8) {
        Some(i)
    } else {
        sensor_ifd(tiff, i + 1)
    }
}

fn raw_ifd(tiff: &Tiff<'_>) -> (r: Option<usize>)
    requires
        tiff@.well_formed(),
    ensures
        match r {
            Some(i) => sensor_ifd(tiff@, 0) == Some(i as int) && i < tiff.ifds@.len(),
            None => sensor_ifd(tiff@, 0) is None,
        },
{
    let mut i: usize = 0;
    while i < tiff.ifds.len()
        invariant
            tiff@.well_formed(),
            i <= tiff.ifds@.len(),
            sensor_ifd(tiff@, 0) == sensor_ifd(tiff@, i as int),
        decreases tiff.ifds@.len() - i,
    {
        let ifd = &tiff.ifds[i];
        assert(tiff@.ifds[i as int] == ifd@);
        assert(tiff@.ifds[i as int].inside(tiff.bytes@));
        if ifd.has(STRIP_OFFSETS) {
            if let Some(bits) = first_number(tiff, ifd, BITS_PER_SAMPLE) {
                if bits > 8 {
                    return Some(i);
                }
            }
        }
        i = i + 1;
    }
    None
}

/// The per-row byte offsets of a v1 stream: four bytes a row.
pub open spec fn pointers_of(tiff: TiffModel, ifd: IfdModel, height: int) -> Outcome<Seq<u32>> {
    match tiff.number(ifd, RAW_POINTERS_OFFSET) {
        Some(offset) => if offset == 0 {
            Err(Fault::Corrupt("compressed SRW without a row-pointer table"@))
        } else if tiff.base + offset + 4 * height > tiff.bytes.len() {
            Err(Fault::Corrupt("SRW row-pointer table outside the file"@))
        } else {
            Ok(
                Seq::new(
                    height as nat,
                    |i: int| le32(tiff.bytes, tiff.base + offset + 4 * i) as u32,
                ),
            )
        },
        None => Err(Fault::Corrupt("compressed SRW without a row-pointer table"@)),
    }
}

fn row_pointers(tiff: &Tiff<'_>, ifd: &Ifd, height: usize) -> (r: Result<Vec<u32>>)
    requires
        tiff@.well_formed(),
        ifd@.inside(tiff.bytes@),
    ensures
        deep_outcome(r) == pointers_of(tiff@, ifd@, height as int),
{
    assert(tiff.bytes@.len() == tiff.bytes.len());
    let offset: u32 = match first_number(tiff, ifd, RAW_POINTERS_OFFSET) {
        Some(offset) => offset,
        None => return Err(corrupt("compressed SRW without a row-pointer table")),
    };
    if offset == 0 {
        return Err(corrupt("compressed SRW without a row-pointer table"));
    }
    let start: u128 = tiff.base as u128 + offset as u128;
    if start + 4 * height as u128 > tiff.bytes.len() as u128 {
        return Err(corrupt("SRW row-pointer table outside the file"));
    }
    let start: usize = start as usize;
    let ghost goal = pointers_of(tiff@, ifd@, height as int)->Ok_0;
    let mut out: Vec<u32> = Vec::new();
    let mut i: usize = 0;
    while i < height
        invariant
            tiff.bytes@.len() == tiff.bytes.len(),
            i <= height,
            start == tiff.base + offset,
            start + 4 * height <= tiff.bytes@.len(),
            goal == Seq::new(
                height as nat,
                |i: int| le32(tiff.bytes@, tiff.base + offset + 4 * i) as u32,
            ),
            out@ == goal.take(i as int),
        decreases height - i,
    {
        out.push(read_le32(tiff.bytes, start + 4 * i));
        i = i + 1;
        assert(out@ =~= goal.take(i as int));
    }
    assert(out@ =~= goal);
    Ok(out)
}

/// The samples of a strip. What its size leaves possible is decided
/// first, and only then does the compression count.
pub open spec fn strip_samples(
    tiff: TiffModel,
    ifd: IfdModel,
    layout: LayoutModel,
    strip: Seq<u8>,
) -> Outcome<Seq<u16>> {
    let (width, height, bits) = (layout.width, layout.height, layout.bits_per_sample);
    let pixels = width * height;
    if strip.len() >= pixels * 2 {
        Ok(plain_frame(strip, pixels as nat))
    } else if strip.len() >= ceil_div(width * bits, 8) * height {
        Ok(
            packed_frame(
                strip,
                width,
                pixels as nat,
                bits as nat,
                tiff.number(ifd, SAMPLES_PER_PIXEL) == Some(1int),
            ),
        )
    } else if layout.compression == COMPRESSION_PLAIN {
        Err(
            Fault::Corrupt(
                "SRW says uncompressed but its "@ + decimal(strip.len() as int)
                    + "-byte strip cannot hold "@ + decimal(pixels) + " samples"@,
            ),
        )
    } else if layout.compression == COMPRESSION_V1 {
        match pointers_of(tiff, ifd, height) {
            Err(fault) => Err(fault),
            Ok(pointers) => Ok(v1_frame(strip, pointers, width, height, height as nat)),
        }
    } else if layout.compression == COMPRESSION_V2 {
        Ok(v2_pixels(strip, width, pixels as nat).frame)
    } else if layout.compression == COMPRESSION_V3 {
        Err(Fault::Unsupported("SRW compression 32773, the NX1 and NX500 codec"@))
    } else {
        Err(
            Fault::Unsupported(
                "SRW compression "@ + decimal(layout.compression)
                    + " with a strip too small to be plain samples"@,
            ),
        )
    }
}

fn read_strip(tiff: &Tiff<'_>, ifd: &Ifd, layout: &ImageLayout, strip: &[u8]) -> (r: Result<
    Vec<u16>,
>)
    requires
        tiff@.well_formed(),
        ifd@.inside(tiff.bytes@),
        0 < layout.width <= 0x1_0000,
        0 < layout.height <= 0x1_0000,
        layout.width * layout.height <= 0x1900_0000,
        8 <= layout.bits_per_sample <= 16,
    ensures
        deep_outcome(r) == strip_samples(tiff@, ifd@, layout@, strip@),
{
    assert(strip@.len() == strip.len());
    let (width, height) = (layout.width, layout.height);
    let pixels: usize = width * height;
    let bits: u32 = layout.bits_per_sample;
    proof {
        assert(8 * 1 <= width * bits <= 0x1_0000 * 16) by (nonlinear_arith)
            requires
                1 <= width <= 0x1_0000,
                8 <= bits <= 16,
        ;
    }
    let row: usize = div_up(width * bits as usize, 8);
    proof {
        assert(row == (width * bits + 7) / 8);
        assert(row <= 2 * width) by (nonlinear_arith)
            requires
                row == (width * bits + 7) / 8,
                1 <= width,
                8 <= bits <= 16,
        ;
        assert(0 <= row * height <= 2 * pixels) by (nonlinear_arith)
            requires
                0 <= row <= 2 * width,
                pixels == width * height,
                0 <= height,
        ;
    }
    let packed_bytes: usize = row * height;
    if strip.len() >= pixels * 2 {
        // The sensor words are little-endian whatever the file's order.
        return Ok(plain(strip, pixels));
    }
    if strip.len() >= packed_bytes {
        // The bodies that set one sample a pixel write the frame from the
        // top of each byte; nothing else in the file tracks the split.
        let msb_first: bool = match first_number(tiff, ifd, SAMPLES_PER_PIXEL) {
            Some(1) => true,
            _ => false,
        };
        return Ok(packed(strip, width, height, bits, msb_first));
    }
    if layout.compression == COMPRESSION_PLAIN {
        let mut text = "SRW says uncompressed but its ".to_string();
        push_decimal(&mut text, strip.len() as u64);
        text.append("-byte strip cannot hold ");
        push_decimal(&mut text, pixels as u64);
        text.append(" samples");
        Err(Error::Corrupt(text))
    } else if layout.compression == COMPRESSION_V1 {
        match row_pointers(tiff, ifd, height) {
            Ok(pointers) => Ok(decompress_v1(strip, pointers.as_slice(), width, height)),
            Err(e) => Err(e),
        }
    } else if layout.compression == COMPRESSION_V2 {
        Ok(decompress_v2(strip, width, height))
    } else if layout.compression == COMPRESSION_V3 {
        Err(unsupported("SRW compression 32773, the NX1 and NX500 codec"))
    } else {
        let mut text = "SRW compression ".to_string();
        push_decimal(&mut text, layout.compression as u64);
        text.append(" with a strip too small to be plain samples");
        Err(Error::Unsupported(text))
    }
}

/// The colour that a pattern byte stands for.
pub open spec fn pattern_color(v: u8) -> Option<CfaColor> {
    if v == 0 {
        Some(CfaColor::Red)
    } else if v == 1 {
        Some(CfaColor::Green)
    } else if v == 2 {
        Some(CfaColor::Blue)
    } else {
        None
    }
}

/// The colours of the first `n` pattern bytes, if all of them stand for
/// one.
pub open spec fn pattern_colors(bytes: Seq<u8>, n: int) -> Option<Seq<CfaColor>> {
    if forall|i: int| 0 <= i < n ==> pattern_color(#[trigger] bytes[i]) is Some {
        Some(Seq::new(n as nat, |i: int| pattern_color(bytes[i])->0))
    } else {
        None
    }
}

/// The filter array that a directory's dimensions and pattern give, at
/// the frame's own origin.
pub open spec fn array_of(tiff: TiffModel, ifd: IfdModel) -> Option<CfaModel> {
    match (ifd.field(CFA_REPEAT_PATTERN_DIM), ifd.field(CFA_PATTERN)) {
        (Some(dim), Some(pattern)) => match (
            dim.natural(tiff.bytes, tiff.little, 0),
            dim.natural(tiff.bytes, tiff.little, 1),
        ) {
            (Some(width), Some(height)) => {
                let bytes = pattern.raw(tiff.bytes);
                if (pattern.kind != 1 && pattern.kind != 7) || width == 0 || height == 0
                    || bytes.len() < width * height {
                    None
                } else {
                    match pattern_colors(bytes, width * height) {
                        None => None,
                        Some(colors) => Some(
                            CfaModel {
                                kind: if width == 2 && height == 2 {
                                    CfaKind::Bayer
                                } else {
                                    CfaKind::Pattern
                                },
                                width: width as nat,
                                height: height as nat,
                                colors,
                            },
                        ),
                    }
                }
            },
            _ => None,
        },
        _ => None,
    }
}

fn read_colors(bytes: &[u8], n: usize) -> (r: Option<Vec<CfaColor>>)
    requires
        n <= bytes@.len(),
    ensures
        match r {
            Some(colors) => pattern_colors(bytes@, n as int) == Some(colors@),
            None => pattern_colors(bytes@, n as int) is None,
        },
{
    let mut colors: Vec<CfaColor> = Vec::new();
    let mut i: usize = 0;
    while i < n
        invariant
            n <= bytes@.len(),
            i <= n,
            colors@.len() == i,
            forall|k: int|
                0 <= k < i ==> pattern_color(#[trigger] bytes@[k]) == Some(colors@[k]),
        decreases n - i,
    {
        let color: CfaColor = match bytes[i] {
            0 => CfaColor::Red,
            1 => CfaColor::Green,
            2 => CfaColor::Blue,
            _ => {
                assert(pattern_color(bytes@[i as int]) is None);
                return None;
            },
        };
        colors.push(color);
        i = i + 1;
    }
    assert(colors@ =~= Seq::new(n as nat, |i: int| pattern_color(bytes@[i])->0));
    Some(colors)
}

fn cfa(tiff: &Tiff<'_>, ifd: &Ifd) -> (r: Option<Cfa>)
    requires
        ifd@.inside(tiff.bytes@),
    ensures
        match r {
            Some(cfa) => array_of(tiff@, ifd@) == Some(cfa@),
            None => array_of(tiff@, ifd@) is None,
        },
{
    let dim = match field_of(tiff, ifd, CFA_REPEAT_PATTERN_DIM) {
        Some(dim) => dim,
        None => return None,
    };
    let pattern = match field_of(tiff, ifd, CFA_PATTERN) {
        Some(pattern) => pattern,
        None => return None,
    };
    let (width, height): (u32, u32) = match (tiff.u32(dim, 0), tiff.u32(dim, 1)) {
        (Some(width), Some(height)) => (width, height),
        _ => return None,
    };
    if pattern.kind != 1 && pattern.kind != 7 {
        return None;
    }
    let bytes = tiff.raw(pattern);
    assert(bytes@.len() == bytes.len());
    if width == 0 || height == 0 {
        return None;
    }
    proof {
        assert(0 <= width * height <= 0xffff_ffff * 0xffff_ffff) by (nonlinear_arith)
            requires
                0 <= width <= 0xffff_ffff,
                0 <= height <= 0xffff_ffff,
        ;
    }
    let cells: u64 = width as u64 * height as u64;
    if (bytes.len() as u64) < cells {
        return None;
    }
    match read_colors(bytes, cells as usize) {
        None => None,
        Some(colors) => {
            if width == 2 && height == 2 {
                assert(width * height == 4) by (nonlinear_arith)
                    requires
                        width == 2,
                        height == 2,
                ;
                let p: [CfaColor; 4] = [colors[0], colors[1], colors[2], colors[3]];
                assert(p@ =~= colors@);
                Some(Cfa::Bayer(p))
            } else {
                Some(Cfa::Pattern { width: width as usize, height: height as usize, colors })
            }
        },
    }
}

/// The array of a body whose own tag does not describe its frame.
pub open spec fn override_of(model: Seq<char>) -> Option<CfaModel> {
    let name = trimmed(model);
    if is_upper(name, "NX2000"@) || is_upper(name, "NX300"@) || is_upper(name, "EK-GN120"@)
        || is_upper(name, "NX3000"@) {
        Some(grbg())
    } else if is_upper(name, "NX MINI"@) {
        Some(rggb())
    } else {
        None
    }
}

/// The array of a body whose own tag does not describe its frame, by its
/// normalised name.
pub fn cfa_override(clean_model: &str) -> (r: Option<Cfa>)
    ensures
        match r {
            Some(cfa) => override_of(clean_model@) == Some(cfa@),
            None => override_of(clean_model@) is None,
        },
{
    let all = characters(clean_model);
    let name = trim(all.as_slice());
    let name = name.as_slice();
    if same_upper(name, "NX2000") || same_upper(name, "NX300") || same_upper(name, "EK-GN120")
        || same_upper(name, "NX3000") {
        Some(Cfa::grbg())
    } else if same_upper(name, "NX MINI") {
        Some(Cfa::rggb())
    } else {
        None
    }
}

/// How many of the first `n` filter positions are green.
pub open spec fn greens_before(cfa: CfaModel, n: int) -> int
    decreases n,
{
    if n <= 0 {
        0
    } else {
        let color = cfa.color((n - 1) % 2, (n - 1) / 2);
        greens_before(cfa, n - 1) + if color == Some(CfaColor::Green) || color == Some(
            CfaColor::Green2,
        ) {
            1int
        } else {
            0
        }
    }
}

/// The value of filter position `i` from an R G1 G2 B quad.
pub open spec fn quad_at<T>(cfa: CfaModel, values: Seq<T>, i: int) -> T {
    match cfa.color(i % 2, i / 2) {
        Some(CfaColor::Blue) => values[3],
        Some(CfaColor::Green) | Some(CfaColor::Green2) => if greens_before(cfa, i) == 0 {
            values[1]
        } else {
            values[2]
        },
        _ => values[0],
    }
}

/// The values of a quad go to the filters of their colours: the first to
/// red, the last to blue, the second to the first green in reading order
/// and the third to every later one.
pub proof fn law_quads_go_to_their_filters<T>(cfa: CfaModel, values: Seq<T>, i: int, j: int)
    requires
        0 <= i < j < 4,
    ensures
        ({
            let (a, b) = (cfa.color(i % 2, i / 2), cfa.color(j % 2, j / 2));
            &&& a == Some(CfaColor::Red) ==> quad_at(cfa, values, i) == values[0]
            &&& b == Some(CfaColor::Red) ==> quad_at(cfa, values, j) == values[0]
            &&& a == Some(CfaColor::Blue) ==> quad_at(cfa, values, i) == values[3]
            &&& b == Some(CfaColor::Blue) ==> quad_at(cfa, values, j) == values[3]
            &&& is_green(cfa, i) && is_green(cfa, j) ==> quad_at(cfa, values, j) == values[2]
            &&& is_green(cfa, i) && (forall|k: int| 0 <= k < i ==> !is_green(cfa, k)) ==> quad_at(
                cfa,
                values,
                i,
            ) == values[1]
        }),
{
    lemma_greens_before(cfa, i);
    lemma_greens_before(cfa, j);
}

/// Whether a position of a Bayer tile is green.
pub open spec fn is_green(cfa: CfaModel, i: int) -> bool {
    let color = cfa.color(i % 2, i / 2);
    color == Some(CfaColor::Green) || color == Some(CfaColor::Green2)
}

proof fn lemma_greens_before(cfa: CfaModel, n: int)
    requires
        0 <= n,
    ensures
        greens_before(cfa, n) >= 0,
        greens_before(cfa, n) == 0 <==> (forall|k: int| 0 <= k < n ==> !is_green(cfa, k)),
    decreases n,
{
    if n > 0 {
        lemma_greens_before(cfa, n - 1);
        assert(is_green(cfa, n - 1) ==> greens_before(cfa, n) > 0);
        if greens_before(cfa, n) == 0 {
            assert forall|k: int| 0 <= k < n implies !is_green(cfa, k) by {
                if k < n - 1 {
                    assert(!is_green(cfa, k));
                }
            }
        } else if forall|k: int| 0 <= k < n ==> !is_green(cfa, k) {
            assert(forall|k: int| 0 <= k < n - 1 ==> !is_green(cfa, k));
            assert(!is_green(cfa, n - 1));
        }
    }
}

/// Spreads an R G1 G2 B quad over the frame's four filter positions.
pub fn by_position<T: Copy>(cfa: &Cfa, values: [T; 4]) -> (out: [T; 4])
    ensures
        forall|i: int| 0 <= i < 4 ==> #[trigger] out[i] == quad_at(cfa@, values@, i),
{
    let mut out: [T; 4] = [values[0], values[0], values[0], values[0]];
    let mut greens: usize = 0;
    let mut i: usize = 0;
    while i < 4
        invariant
            i <= 4,
            greens == greens_before(cfa@, i as int),
            greens <= i,
            forall|k: int| 0 <= k < i ==> #[trigger] out[k] == quad_at(cfa@, values@, k),
        decreases 4 - i,
    {
        reveal_with_fuel(greens_before, 2);
        match cfa.color_at(i % 2, i / 2) {
            Some(CfaColor::Blue) => {
                out[i] = values[3];
            },
            Some(CfaColor::Green) | Some(CfaColor::Green2) => {
                out[i] = if greens == 0 {
                    values[1]
                } else {
                    values[2]
                };
                greens = greens + 1;
            },
            _ => {
                out[i] = values[0];
            },
        }
        i = i + 1;
    }
    out
}

/// Four numbers of a makernote field; none for a field that is shorter or
/// not of numbers.
pub open spec fn quad_of(maker: TiffModel, tag: u16) -> Option<Seq<Ratio>> {
    match maker.field(tag) {
        Some(e) => match (
            e.ratio(maker.bytes, maker.little, 0),
            e.ratio(maker.bytes, maker.little, 1),
            e.ratio(maker.bytes, maker.little, 2),
            e.ratio(maker.bytes, maker.little, 3),
        ) {
            (Some(a), Some(b), Some(c), Some(d)) => Some(seq![a, b, c, d]),
            _ => None,
        },
        None => None,
    }
}

/// Whether both halves of a quotient are ones that a field can hold.
pub open spec fn readable(level: Ratio) -> bool {
    -0x8000_0000 <= level.num <= 0xffff_ffff && 0 < level.den <= 0xffff_ffff
}

/// Whether all of a quad is as a field can hold it.
pub open spec fn all_readable(quad: Seq<Ratio>) -> bool {
    quad.len() == 4 && forall|i: int| 0 <= i < 4 ==> readable(#[trigger] quad[i])
}

fn quad(maker: &Tiff<'_>, tag: u16) -> (r: Option<[Ratio; 4]>)
    requires
        maker@.well_formed(),
    ensures
        maybe_quad(r) == quad_of(maker@, tag),
        r matches Some(q) ==> all_readable(q@),
{
    let e = match maker.find(tag) {
        Some(e) => e,
        None => return None,
    };
    match (maker.ratio(e, 0), maker.ratio(e, 1), maker.ratio(e, 2), maker.ratio(e, 3)) {
        (Some(a), Some(b), Some(c), Some(d)) => {
            let q: [Ratio; 4] = [a, b, c, d];
            assert(q@ =~= seq![a, b, c, d]);
            Some(q)
        },
        _ => None,
    }
}

/// One number less another. It is exact, but where the numerator would
/// not fit: there both halves lose their last two bits, and the lower one
/// still has more than a single-precision number holds.
pub open spec fn difference(level: Ratio, key: Ratio) -> Ratio {
    let num = level.num * key.den - key.num * level.den;
    let den = level.den * key.den;
    if i64::MIN <= num <= i64::MAX {
        Ratio { num: num as i64, den: den as u64 }
    } else {
        Ratio { num: (num / 4) as i64, den: (den / 4) as u64 }
    }
}

/// What is left of a level when a key comes off is exact wherever it can
/// be held: the two add up to the level again.
pub proof fn law_keys_come_off_exactly(level: Ratio, key: Ratio)
    requires
        readable(level),
        readable(key),
        i64::MIN <= level.num * key.den - key.num * level.den <= i64::MAX,
    ensures
        ({
            let rest = difference(level, key);
            &&& rest.den == level.den * key.den
            &&& rest.num + key.num * level.den == level.num * key.den
        }),
{
    lemma_products_fit(level, key);
}

proof fn lemma_products_fit(level: Ratio, key: Ratio)
    requires
        readable(level),
        readable(key),
    ensures
        -0x8000_0000_0000_0000 <= level.num * key.den < 0x1_0000_0000_0000_0000,
        -0x8000_0000_0000_0000 <= key.num * level.den < 0x1_0000_0000_0000_0000,
        0 < level.den * key.den < 0x1_0000_0000_0000_0000,
{
    assert forall|n: int, d: int|
        -0x8000_0000 <= n <= 0xffff_ffff && 0 < d <= 0xffff_ffff implies -0x8000_0000_0000_0000
        <= #[trigger] (n * d) < 0x1_0000_0000_0000_0000 by {
        assert(-0x8000_0000 * 0xffff_ffff <= n * d <= 0xffff_ffff * 0xffff_ffff)
            by (nonlinear_arith)
            requires
                -0x8000_0000 <= n <= 0xffff_ffff,
                0 < d <= 0xffff_ffff,
        ;
    }
    assert(0 < level.den * key.den <= 0xffff_ffff * 0xffff_ffff) by (nonlinear_arith)
        requires
            0 < level.den <= 0xffff_ffff,
            0 < key.den <= 0xffff_ffff,
    ;
    let (n, d) = (level.num as int, key.den as int);
    assert(-0x8000_0000_0000_0000 <= n * d < 0x1_0000_0000_0000_0000);
    let (n, d) = (key.num as int, level.den as int);
    assert(-0x8000_0000_0000_0000 <= n * d < 0x1_0000_0000_0000_0000);
}

fn subtract(level: Ratio, key: Ratio) -> (out: Ratio)
    requires
        readable(level),
        readable(key),
    ensures
        out == difference(level, key),
{
    proof {
        lemma_products_fit(level, key);
    }
    let num: i128 = level.num as i128 * key.den as i128 - key.num as i128 * level.den as i128;
    let den: u64 = level.den * key.den;
    if -0x8000_0000_0000_0000 <= num && num <= 0x7fff_ffff_ffff_ffff {
        Ratio { num: num as i64, den }
    } else if num > 0 {
        Ratio { num: (num as u128 / 4) as i64, den: den / 4 }
    } else {
        let up: u128 = ((-num) as u128 + 3) / 4;
        assert(-(up as int) == num as int / 4);
        Ratio { num: -(up as i64), den: den / 4 }
    }
}

/// A quad with the key taken off.
pub open spec fn keyed(quad: Seq<Ratio>, key: Option<Seq<Ratio>>) -> Seq<Ratio> {
    match key {
        Some(key) => Seq::new(4, |i: int| difference(quad[i], key[i])),
        None => quad,
    }
}

fn take_key(quad: [Ratio; 4], key: Option<[Ratio; 4]>) -> (out: [Ratio; 4])
    requires
        all_readable(quad@),
        key matches Some(k) ==> all_readable(k@),
    ensures
        out@ == keyed(quad@, maybe_quad(key)),
{
    match key {
        Some(k) => {
            assert(readable(quad@[0]) && readable(quad@[1]) && readable(quad@[2]) && readable(
                quad@[3],
            ));
            assert(readable(k@[0]) && readable(k@[1]) && readable(k@[2]) && readable(k@[3]));
            let out: [Ratio; 4] = [
                subtract(quad[0], k[0]),
                subtract(quad[1], k[1]),
                subtract(quad[2], k[2]),
                subtract(quad[3], k[3]),
            ];
            assert(out@ =~= keyed(quad@, Some(k@)));
            out
        },
        None => quad,
    }
}

/// Black levels by position.
pub open spec fn dark_levels(cfa: CfaModel, levels: Seq<Ratio>) -> Seq<Ratio> {
    Seq::new(4, |i: int| quad_at(cfa, levels, i))
}

/// One level over another.
pub open spec fn relative(level: Ratio, green: Ratio) -> Gain {
    if level.den == green.den {
        Gain::Exact(Ratio { num: level.num, den: green.num as u64 })
    } else {
        Gain::Quotient { over: level, under: green }
    }
}

fn over(level: Ratio, green: Ratio) -> (gain: Gain)
    requires
        green.num > 0,
    ensures
        gain == relative(level, green),
{
    if level.den == green.den {
        Gain::Exact(Ratio { num: level.num, den: green.num as u64 })
    } else {
        Gain::Quotient { over: level, under: green }
    }
}

/// A level over another is their quotient, and no quotient of a level with
/// itself is but one.
pub proof fn law_relative_levels_are_quotients(level: Ratio, green: Ratio)
    requires
        level.den > 0,
        green.den > 0,
        green.num > 0,
    ensures
        match relative(level, green) {
            Gain::Exact(q) => q.num * (green.num * level.den) == (level.num * green.den) * q.den,
            Gain::Quotient { over, under } => over == level && under == green,
            Gain::Floats { .. } => false,
        },
{
    if level.den == green.den {
        let (n, g, d) = (level.num as int, green.num as int, level.den as int);
        assert(n * (g * d) == (n * d) * g) by (nonlinear_arith);
    }
}

/// White balance from levels in R G1 G2 B order, relative to the first
/// green; none where any level is not positive.
pub open spec fn gains_of(levels: Seq<Ratio>) -> Option<Seq<Gain>> {
    if levels[0].num > 0 && levels[1].num > 0 && levels[2].num > 0 && levels[3].num > 0 {
        Some(
            seq![
                relative(levels[0], levels[1]),
                Gain::unit(),
                relative(levels[3], levels[1]),
                relative(levels[2], levels[1]),
            ],
        )
    } else {
        None
    }
}

/// The active area: the second rectangle of the sensor's, where it lies
/// inside the frame.
pub open spec fn area_of(maker: TiffModel, width: int, height: int) -> Rect {
    let whole = Rect { x: 0, y: 0, width: width as usize, height: height as usize };
    match maker.field(SENSOR_AREAS) {
        Some(e) => match (
            e.natural(maker.bytes, maker.little, 4),
            e.natural(maker.bytes, maker.little, 5),
            e.natural(maker.bytes, maker.little, 6),
            e.natural(maker.bytes, maker.little, 7),
        ) {
            (Some(x0), Some(y0), Some(x1), Some(y1)) => if x1 <= x0 || y1 <= y0 || x1 > width || y1
                > height {
                whole
            } else {
                Rect {
                    x: x0 as usize,
                    y: y0 as usize,
                    width: (x1 - x0) as usize,
                    height: (y1 - y0) as usize,
                }
            },
            _ => whole,
        },
        None => whole,
    }
}

fn active_area(maker: &Tiff<'_>, width: usize, height: usize) -> (r: Rect)
    requires
        maker@.well_formed(),
    ensures
        r == area_of(maker@, width as int, height as int),
{
    let whole = Rect { x: 0, y: 0, width, height };
    let e = match maker.find(SENSOR_AREAS) {
        Some(e) => e,
        None => return whole,
    };
    match (maker.u32(e, 4), maker.u32(e, 5), maker.u32(e, 6), maker.u32(e, 7)) {
        (Some(x0), Some(y0), Some(x1), Some(y1)) => {
            if x1 <= x0 || y1 <= y0 || x1 as u64 > width as u64 || y1 as u64 > height as u64 {
                whole
            } else {
                Rect {
                    x: x0 as usize,
                    y: y0 as usize,
                    width: (x1 - x0) as usize,
                    height: (y1 - y0) as usize,
                }
            }
        },
        _ => whole,
    }
}

/// The makernote: a bare directory in the file's byte order whose offsets
/// count from its own start.
pub open spec fn maker_of(tiff: TiffModel) -> Option<TiffModel> {
    match tiff.field(MAKER_NOTE) {
        Some(e) => match bare_at(tiff.bytes, e.offset as int, e.offset as int, tiff.little) {
            Ok(maker) => Some(maker),
            Err(_) => None,
        },
        None => None,
    }
}

fn makernote<'a>(tiff: &Tiff<'a>) -> (r: Option<Tiff<'a>>)
    requires
        tiff@.well_formed(),
    ensures
        match r {
            Some(maker) => maker_of(tiff@) == Some(maker@) && maker@.well_formed(),
            None => maker_of(tiff@) is None,
        },
{
    match tiff.find(MAKER_NOTE) {
        Some(e) => match Tiff::parse_at_relative(tiff.bytes, e.offset, e.offset, tiff.little) {
            Ok(maker) => Some(maker),
            Err(_) => None,
        },
        None => None,
    }
}

/// The levels and the crop that a makernote adds to a frame.
pub open spec fn with_maker(raw: RawModel, maker: TiffModel) -> RawModel {
    let key = quad_of(maker, ENCRYPTION_KEY);
    RawModel {
        black_levels: match quad_of(maker, BLACK_LEVELS) {
            Some(levels) => dark_levels(raw.cfa, keyed(levels, key)),
            None => raw.black_levels,
        },
        wb_coeffs: match quad_of(maker, WB_LEVELS) {
            Some(levels) => match gains_of(keyed(levels, key)) {
                Some(gains) => gains,
                None => raw.wb_coeffs,
            },
            None => raw.wb_coeffs,
        },
        crop: area_of(maker, raw.width, raw.height),
        ..raw
    }
}

fn read_blacks(cfa: &Cfa, levels: [Ratio; 4]) -> (out: [Ratio; 4])
    ensures
        out@ == dark_levels(cfa@, levels@),
{
    let out = by_position(cfa, levels);
    assert forall|i: int| 0 <= i < 4 implies out@[i] == dark_levels(cfa@, levels@)[i] by {
        assert(out[i] == quad_at(cfa@, levels@, i));
    }
    assert(out@ =~= dark_levels(cfa@, levels@));
    out
}

fn read_gains(levels: [Ratio; 4]) -> (r: Option<[Gain; 4]>)
    ensures
        match r {
            Some(gains) => gains_of(levels@) == Some(gains@),
            None => gains_of(levels@) is None,
        },
{
    if levels[0].num > 0 && levels[1].num > 0 && levels[2].num > 0 && levels[3].num > 0 {
        let green = levels[1];
        let gains: [Gain; 4] = [
            over(levels[0], green),
            Gain::unit(),
            over(levels[3], green),
            over(levels[2], green),
        ];
        assert(gains@ =~= gains_of(levels@)->0);
        Some(gains)
    } else {
        None
    }
}

/// A quad as a mathematical value.
pub open spec fn maybe_quad(quad: Option<[Ratio; 4]>) -> Option<Seq<Ratio>> {
    match quad {
        Some(quad) => Some(quad@),
        None => None,
    }
}

fn apply_maker(raw: &mut RawImage, maker: &Tiff<'_>)
    requires
        maker@.well_formed(),
    ensures
        final(raw)@ == with_maker(old(raw)@, maker@),
{
    let key = quad(maker, ENCRYPTION_KEY);
    assert(maybe_quad(key) == quad_of(maker@, ENCRYPTION_KEY));
    if let Some(levels) = quad(maker, BLACK_LEVELS) {
        raw.black_levels = read_blacks(&raw.cfa, take_key(levels, key));
    }
    if let Some(levels) = quad(maker, WB_LEVELS) {
        if let Some(gains) = read_gains(take_key(levels, key)) {
            raw.wb_coeffs = gains;
        }
    }
    raw.crop = active_area(maker, raw.width, raw.height);
}

/// A decoded frame with everything the file says of it.
pub open spec fn described(
    tiff: TiffModel,
    ifd: IfdModel,
    clean_model: Seq<char>,
    layout: LayoutModel,
    data: Seq<u16>,
) -> RawModel {
    let cfa = match override_of(clean_model) {
        Some(cfa) => cfa,
        None => match array_of(tiff, ifd) {
            Some(cfa) => cfa,
            None => grbg(),
        },
    };
    let plain = plain_image(
        Format::Srw,
        layout.width as usize,
        layout.height as usize,
        1,
        data,
        cfa,
    );
    let raw = RawModel {
        make: trimmed(camera_of(tiff).0),
        model: trimmed(camera_of(tiff).1),
        orientation: orientation_of(tiff),
        metadata: metadata_of(tiff),
        preview: best_picture(tiff, tiff.ifds.len() as int),
        white_level: full_scale_of(layout.bits_per_sample),
        ..plain
    };
    match maker_of(tiff) {
        Some(maker) => with_maker(raw, maker),
        None => raw,
    }
}

/// The one strip of a plausible frame. It bounds the frame: every layout
/// stores at least a bit a sample.
pub open spec fn strip_of(tiff: TiffModel, layout: LayoutModel) -> Outcome<Seq<u8>> {
    let (width, height, bits) = (layout.width, layout.height, layout.bits_per_sample);
    if width == 0 || height == 0 || width > 0x1_0000 || height > 0x1_0000 {
        Err(Fault::Corrupt("SRW frame is "@ + decimal(width) + "x"@ + decimal(height)))
    } else if bits < 8 || bits > 16 {
        Err(Fault::Unsupported("SRW with "@ + decimal(bits) + " bits a sample"@))
    } else if layout.chunks.len() != 1 {
        Err(
            Fault::Unsupported(
                "SRW frame in "@ + decimal(layout.chunks.len() as int) + " strips, not one"@,
            ),
        )
    } else {
        let (start, len) = layout.chunks[0];
        match frame_samples_spec(width as usize, height as usize, 1) {
            Err(fault) => Err(fault),
            Ok(pixels) => if len * 8 < pixels {
                Err(
                    Fault::Corrupt(
                        "SRW frame of "@ + decimal(pixels as int) + " samples in "@ + decimal(
                            len as int,
                        ) + " bytes"@,
                    ),
                )
            } else {
                Ok(tiff.bytes.subrange(start as int, start + len))
            },
        }
    }
}

fn find_strip<'a>(tiff: &Tiff<'a>, layout: &ImageLayout) -> (r: Result<&'a [u8]>)
    requires
        strips_inside(tiff.bytes@, layout.chunks@),
    ensures
        match r {
            Ok(strip) => strip_of(tiff@, layout@) == Outcome::<Seq<u8>>::Ok(strip@) && layout.width
                * layout.height <= 0x1900_0000,
            Err(e) => strip_of(tiff@, layout@) == Outcome::<Seq<u8>>::Err(e@),
        },
{
    let (width, height) = (layout.width, layout.height);
    if width == 0 || height == 0 || width > 0x1_0000 || height > 0x1_0000 {
        let mut text = "SRW frame is ".to_string();
        push_decimal(&mut text, width as u64);
        text.append("x");
        push_decimal(&mut text, height as u64);
        return Err(Error::Corrupt(text));
    }
    let bits: u32 = layout.bits_per_sample;
    if bits < 8 || bits > 16 {
        let mut text = "SRW with ".to_string();
        push_decimal(&mut text, bits as u64);
        text.append(" bits a sample");
        return Err(Error::Unsupported(text));
    }
    if layout.chunks.len() != 1 {
        let mut text = "SRW frame in ".to_string();
        push_decimal(&mut text, layout.chunks.len() as u64);
        text.append(" strips, not one");
        return Err(Error::Unsupported(text));
    }
    let (start, len): (usize, usize) = layout.chunks[0];
    let pixels: usize = match frame_samples(width, height, 1) {
        Ok(pixels) => pixels,
        Err(e) => return Err(e),
    };
    if len as u128 * 8 < pixels as u128 {
        let mut text = "SRW frame of ".to_string();
        push_decimal(&mut text, pixels as u64);
        text.append(" samples in ");
        push_decimal(&mut text, len as u64);
        text.append(" bytes");
        return Err(Error::Corrupt(text));
    }
    assert(tiff.bytes@.len() == tiff.bytes.len());
    assert(start + len <= tiff.bytes@.len()) by {
        assert(layout.chunks@[0] == (start, len));
    }
    Ok(slice_subrange(tiff.bytes, start, start + len))
}

/// What a parsed file decodes to, of a body with a normalised name.
pub open spec fn decoded(tiff: TiffModel, clean_model: Seq<char>) -> Outcome<RawModel> {
    match sensor_ifd(tiff, 0) {
        None => Err(Fault::Corrupt("SRW with no sensor SubIFD"@)),
        Some(i) => match layout_of(tiff, tiff.ifds[i]) {
            Err(fault) => Err(fault),
            Ok(layout) => match strip_of(tiff, layout) {
                Err(fault) => Err(fault),
                Ok(strip) => match strip_samples(tiff, tiff.ifds[i], layout, strip) {
                    Err(fault) => Err(fault),
                    Ok(data) => Ok(described(tiff, tiff.ifds[i], clean_model, layout, data)),
                },
            },
        },
    }
}

fn describe(
    tiff: &Tiff<'_>,
    ifd: &Ifd,
    clean_model: &str,
    layout: &ImageLayout,
    data: Vec<u16>,
) -> (raw: RawImage)
    requires
        tiff@.well_formed(),
        ifd@.inside(tiff.bytes@),
        layout.bits_per_sample <= 16,
    ensures
        raw@ == described(tiff@, ifd@, clean_model@, layout@, data@),
{
    // The sensor directory's own pattern is wrong on several bodies, so
    // those are corrected by name.
    let cfa = match cfa_override(clean_model) {
        Some(cfa) => cfa,
        None => match cfa(tiff, ifd) {
            Some(cfa) => cfa,
            None => Cfa::grbg(),
        },
    };
    let mut raw = RawImage::new(Format::Srw, layout.width, layout.height, 1, data, cfa);
    let (make, model) = make_model(tiff);
    raw.set_camera(make.as_str(), model.as_str());
    raw.orientation = orientation(tiff);
    raw.metadata = metadata(tiff);
    raw.preview = largest_jpeg(tiff);
    // No saturation point is recorded anywhere; the bit depth is it.
    raw.white_level = full_scale(layout.bits_per_sample);
    if let Some(maker) = makernote(tiff) {
        apply_maker(&mut raw, &maker);
    }
    raw
}

/// Decodes the sensor frame of a parsed file. `clean_model` is the body's
/// normalised name.
pub fn decode_tiff(tiff: &Tiff<'_>, clean_model: &str) -> (r: Result<RawImage>)
    requires
        tiff@.well_formed(),
    ensures
        deep_outcome(r) == decoded(tiff@, clean_model@),
{
    let i: usize = match raw_ifd(tiff) {
        Some(i) => i,
        None => return Err(corrupt("SRW with no sensor SubIFD")),
    };
    let ifd = &tiff.ifds[i];
    assert(tiff@.ifds[i as int] == ifd@);
    assert(tiff@.ifds[i as int].inside(tiff.bytes@));
    let layout = match ImageLayout::of(tiff, ifd) {
        Ok(layout) => layout,
        Err(e) => return Err(e),
    };
    let strip = match find_strip(tiff, &layout) {
        Ok(strip) => strip,
        Err(e) => return Err(e),
    };
    match read_strip(tiff, ifd, &layout, strip) {
        Ok(data) => Ok(describe(tiff, ifd, clean_model, &layout, data)),
        Err(e) => Err(e),
    }
}

/// Decodes an SRW into its sensor frame and metadata. `clean_model` is
/// the body's normalised name.
pub fn decode(bytes: &[u8], clean_model: &str) -> (r: Result<RawImage>)
    ensures
        deep_outcome(r) == match tiff_at(bytes@, 0) {
            Ok(tiff) => decoded(tiff, clean_model@),
            Err(fault) => Outcome::<RawModel>::Err(fault),
        },
{
    match Tiff::parse(bytes) {
        Ok(tiff) => decode_tiff(&tiff, clean_model),
        Err(e) => Err(e),
    }
}

/// The largest embedded JPEG: a full-size one in the first child
/// directory, a thumbnail in the second one's.
pub fn preview(bytes: &[u8]) -> (r: Result<Option<Vec<u8>>>)
    ensures
        preview_outcome(r) == pictured(bytes@),
{
    match Tiff::parse(bytes) {
        Ok(tiff) => Ok(largest_jpeg(&tiff)),
        Err(e) => Err(e),
    }
}

} // verus!
