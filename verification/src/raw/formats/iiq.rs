//! Phase One IIQ.
//!
//! Everything that matters hangs off a private structure that starts at
//! byte 8 with the signature `IIIICwaR`, and **every offset inside that
//! structure is relative to byte 8**. A plain 16-bit raster and the
//! lossless code, one bit stream a row, are read.

use crate::bytes::{
    find_word32, has_tag, holds, holds_number, law_numbers_are_read_from_their_bytes, le32, read_le32,
    tagged, word32_in,
};
use crate::raw::bits::{
    after, bit_at, bits_of, law_numbers_are_read_back, lemma_after_after, msb32_bits, power_of_two,
    word, BitPump, BitPumpMsb32,
};
use crate::raw::common::{
    best_picture, camera_of, largest_jpeg, make_model, metadata, metadata_of, orientation,
    orientation_of, pictured,
};
use crate::raw::formats::kodak::{crop_inside, crop_within};
use crate::raw::formats::srw::{plain, plain_frame};
use crate::raw::frame::{plain_image, trimmed_text, Gain, Ratio, RawImage, RawModel};
use crate::raw::image::{rggb, Cfa};
use crate::raw::tiff::{tiff_at, Tiff, TiffModel};
use crate::raw::{
    corrupt, deep_outcome, frame_samples, frame_samples_spec, preview_outcome, unsupported, Error,
    Fault, Format, Outcome, Rect, Result,
};
use crate::text::{
    characters, decimal, joined, lossy_text, push_decimal, text_of, trim, trimmed,
};
use vstd::arithmetic::power2::{lemma2_to64, lemma_pow2_unfold, pow2};
use vstd::prelude::*;
use vstd::slice::slice_subrange;

verus! {

/// Everything in the private structure is addressed from here.
pub const BASE: usize = 8;

/// Three floats: the as-shot R, G and B multipliers.
pub const WHITE_BALANCE: u32 = 0x0107;

pub const RAW_WIDTH: u32 = 0x0108;

pub const RAW_HEIGHT: u32 = 0x0109;

pub const CROP_LEFT: u32 = 0x010A;

pub const CROP_TOP: u32 = 0x010B;

pub const CROP_WIDTH: u32 = 0x010C;

pub const CROP_HEIGHT: u32 = 0x010D;

pub const FORMAT: u32 = 0x010E;

/// The sensor data: length in the length field, offset in the value field.
pub const RAW_DATA: u32 = 0x010F;

/// One word a row: where that row's bits start, counted from the beginning
/// of the sensor data.
pub const ROW_OFFSETS: u32 = 0x021C;

/// The back's name and firmware, ASCII.
pub const MODEL_FIRMWARE: u32 = 0x0301;

/// The difference lengths a selector can choose between. Entry 14 is not a
/// length but the escape: the sample is sixteen raw bits, absolute rather
/// than a difference.
pub const LENGTHS: [u32; 10] = [8, 7, 6, 9, 11, 10, 5, 12, 14, 13];

pub const ESCAPE: u32 = 14;

// ------------------------------------------------------ the row codec

/// The zero bits a selector opens with, at most five, `k` being counted
/// already.
pub open spec fn leading_zeros(rest: Seq<bool>, k: int) -> int
    decreases 5 - k,
{
    if k >= 5 || word(after(rest, k as nat), 1) != 0 {
        k
    } else {
        leading_zeros(rest, k + 1)
    }
}

/// The length that a selector leaves in force, and the bits left after it.
/// A selector is unary: up to five zero bits, then (unless five were read)
/// a one, and finally a single bit that picks between the pair the run
/// reached. A leading one bit keeps the length in force.
pub open spec fn selected(length: int, rest: Seq<bool>) -> (int, Seq<bool>) {
    let zeros = leading_zeros(rest, 0);
    let after_run = if zeros < 5 {
        after(rest, (zeros + 1) as nat)
    } else {
        after(rest, 5)
    };
    if zeros == 0 {
        (length, after_run)
    } else {
        (
            LENGTHS[(zeros - 1) * 2 + word(after_run, 1) as int] as int,
            after(after_run, 1),
        )
    }
}

/// Where the decoder of a row stands: its samples, the previous value of
/// each column parity, the difference length in force for each, and the
/// bits left.
pub struct RowRun {
    pub samples: Seq<u16>,
    pub pred: Seq<int>,
    pub lengths: Seq<int>,
    pub rest: Seq<bool>,
}

/// The lengths in force and the bits left when column `col` is reached.
/// Every group of eight columns opens with two selectors; the columns past
/// the last whole group are always escapes.
pub open spec fn column_lengths(run: RowRun, width: int, col: int) -> (Seq<int>, Seq<bool>) {
    if col >= width - width % 8 {
        (seq![14, 14], run.rest)
    } else if col % 8 == 0 {
        let (even, rest) = selected(run.lengths[0], run.rest);
        let (odd, left) = selected(run.lengths[1], rest);
        (seq![even, odd], left)
    } else {
        (run.lengths, run.rest)
    }
}

/// A 14-bit sample on the scale of a 16-bit raster.
pub open spec fn row_sample(value: int) -> u16 {
    if value < 0 {
        0
    } else if value > 0x3fff {
        0xfffc
    } else {
        (value * 4) as u16
    }
}

/// The decoder of a row after its first `n` columns.
pub open spec fn row_run(data: Seq<u8>, width: int, n: nat) -> RowRun
    decreases n,
{
    if n == 0 {
        RowRun {
            samples: Seq::empty(),
            pred: seq![0, 0],
            lengths: seq![14, 14],
            rest: msb32_bits(data),
        }
    } else {
        let run = row_run(data, width, (n - 1) as nat);
        let col = n - 1;
        let (lengths, rest) = column_lengths(run, width, col);
        let bits = lengths[col % 2];
        let value = if bits == 14 {
            word(rest, 16) as int
        } else {
            run.pred[col % 2] + word(rest, bits as nat) + 1 - pow2((bits - 1) as nat)
        };
        RowRun {
            samples: run.samples.push(row_sample(value)),
            pred: run.pred.update(col % 2, value),
            lengths,
            rest: after(rest, if bits == 14 {
                16
            } else {
                bits as nat
            }),
        }
    }
}

/// A length that a selector can choose.
pub open spec fn is_length(length: int) -> bool {
    5 <= length <= 14
}

fn select(pump: &mut BitPumpMsb32, length: u32) -> (chosen: u32)
    requires
        is_length(length as int),
    ensures
        (chosen as int, final(pump).rest()) == selected(length as int, old(pump).rest()),
        is_length(chosen as int),
{
    let ghost start = pump.rest();
    let mut zeros: usize = 0;
    proof {
        assert(after(start, 0) =~= start);
        lemma2_to64();
    }
    let mut done: bool = false;
    while zeros < 5 && !done
        invariant
            zeros <= 5,
            leading_zeros(start, 0) == if done {
                zeros as int
            } else {
                leading_zeros(start, zeros as int)
            },
            done ==> zeros < 5,
            pump.rest() == if done {
                after(start, (zeros + 1) as nat)
            } else {
                after(start, zeros as nat)
            },
        decreases if done {
            0
        } else {
            6 - zeros
        },
    {
        proof {
            lemma_after_after(start, zeros as nat, 1);
        }
        if pump.get(1) == 0 {
            zeros = zeros + 1;
        } else {
            done = true;
        }
    }
    if zeros == 0 {
        return length;
    }
    let pick: u32 = pump.get(1);
    let index: usize = (zeros - 1) * 2 + pick as usize;
    LENGTHS[index]
}

/// One row of a lossless stream. `pred` holds the previous sample of each
/// column parity and the lengths are in force for each; both are per row.
///
/// The row is bounded, far past what memory holds, so that the running
/// values stay machine integers.
pub fn decode_row(bytes: &[u8], out: &mut [u16])
    requires
        old(out)@.len() <= 0x1_0000_0000_0000,
    ensures
        final(out)@ == row_run(bytes@, old(out)@.len() as int, old(out)@.len()).samples,
{
    let width: usize = out.len();
    let mut pump = BitPumpMsb32::new(bytes);
    let mut even: i64 = 0;
    let mut odd: i64 = 0;
    let mut even_len: u32 = ESCAPE;
    let mut odd_len: u32 = ESCAPE;
    let tail: usize = width - width % 8;
    let mut col: usize = 0;
    while col < width
        invariant
            col <= width <= 0x1_0000_0000_0000,
            width == out@.len(),
            tail == width - width % 8,
            is_length(even_len as int),
            is_length(odd_len as int),
            -0x1000 * col <= even <= 0x1_0000 + 0x1000 * col,
            -0x1000 * col <= odd <= 0x1_0000 + 0x1000 * col,
            ({
                let run = row_run(bytes@, width as int, col as nat);
                &&& run.samples == out@.take(col as int)
                &&& run.pred == seq![even as int, odd as int]
                &&& run.lengths == seq![even_len as int, odd_len as int]
                &&& run.rest == pump.rest()
            }),
        decreases width - col,
    {
        let ghost run = row_run(bytes@, width as int, col as nat);
        if col >= tail {
            even_len = ESCAPE;
            odd_len = ESCAPE;
        } else if col % 8 == 0 {
            even_len = select(&mut pump, even_len);
            odd_len = select(&mut pump, odd_len);
        }
        let ghost rest = pump.rest();
        proof {
            assert(column_lengths(run, width as int, col as int).0 =~= seq![
                even_len as int,
                odd_len as int,
            ]);
            lemma2_to64();
        }
        let bits: u32 = if col % 2 == 0 {
            even_len
        } else {
            odd_len
        };
        let last: i64 = if col % 2 == 0 {
            even
        } else {
            odd
        };
        let value: i64;
        if bits == ESCAPE {
            value = pump.get(16) as i64;
        } else {
            let stored: u32 = pump.get(bits);
            proof {
                lemma_half(bits as nat);
            }
            let half: u32 = power_of_two(bits - 1);
            value = last + (stored as i64 + 1 - half as i64);
        }
        if col % 2 == 0 {
            even = value;
        } else {
            odd = value;
        }
        let ghost was = out@;
        out[col] = if value < 0 {
            0
        } else if value > 0x3fff {
            0xfffc
        } else {
            (value as u16) * 4
        };
        col = col + 1;
        proof {
            let next = row_run(bytes@, width as int, col as nat);
            assert(next.pred =~= seq![even as int, odd as int]);
            assert(out@.take(col as int) =~= was.take(col - 1).push(out@[col - 1]));
        }
    }
    assert(out@.take(width as int) =~= out@);
}

proof fn lemma_half(bits: nat)
    requires
        5 <= bits <= 13,
    ensures
        pow2(bits) == 2 * pow2((bits - 1) as nat),
        pow2((bits - 1) as nat) <= 0x1000,
{
    lemma2_to64();
}

proof fn lemma_samples_saturate(data: Seq<u8>, width: int, n: nat)
    ensures
        row_run(data, width, n).samples.len() == n,
        forall|i: int|
            0 <= i < n ==> (#[trigger] row_run(data, width, n).samples[i]) <= 65532 && row_run(
                data,
                width,
                n,
            ).samples[i] as int % 4 == 0,
    decreases n,
{
    if n > 0 {
        lemma_samples_saturate(data, width, (n - 1) as nat);
    }
}

/// Every sample of a lossless row is one of fourteen bits on the scale of
/// sixteen: a multiple of four, and at most what a frame saturates at.
pub proof fn law_lossless_samples_saturate(data: Seq<u8>, width: int, n: nat, i: int)
    requires
        0 <= i < n,
    ensures
        row_run(data, width, n).samples.len() == n,
        row_run(data, width, n).samples[i] <= 65532,
        row_run(data, width, n).samples[i] as int % 4 == 0,
{
    lemma_samples_saturate(data, width, n);
}

// ------------------------------------------------------ writing a row

/// The selector that sets a difference length: a run of zeros, a one unless
/// there are five of them, and a bit for which of a pair it is.
pub open spec fn selector_of(length: int) -> Seq<bool> {
    if length == 8 {
        seq![false, true, false]
    } else if length == 7 {
        seq![false, true, true]
    } else if length == 6 {
        seq![false, false, true, false]
    } else if length == 9 {
        seq![false, false, true, true]
    } else if length == 11 {
        seq![false, false, false, true, false]
    } else if length == 10 {
        seq![false, false, false, true, true]
    } else if length == 5 {
        seq![false, false, false, false, true, false]
    } else if length == 12 {
        seq![false, false, false, false, true, true]
    } else if length == 14 {
        seq![false, false, false, false, false, false]
    } else {
        seq![false, false, false, false, false, true]
    }
}

/// A row of 14-bit values and how it is written: for each group of eight
/// columns and each column parity, whether the length in force is kept, and
/// what it is set to if not. Fourteen stands for whole samples.
pub struct RowWriting {
    pub values: Seq<int>,
    pub keep: spec_fn(int, int) -> bool,
    pub length: spec_fn(int, int) -> int,
}

impl RowWriting {
    /// The length in force in a group for a column parity.
    pub open spec fn in_force(self, group: nat, side: int) -> int
        decreases group,
    {
        if !(self.keep)(group as int, side) {
            (self.length)(group as int, side)
        } else if group > 0 {
            self.in_force((group - 1) as nat, side)
        } else {
            14
        }
    }

    /// The length that column `col` is written in: past the last whole group
    /// of eight, whole samples.
    pub open spec fn spent(self, col: int) -> int {
        if col >= self.values.len() - self.values.len() % 8 {
            14
        } else {
            self.in_force((col / 8) as nat, col % 2)
        }
    }

    /// A column's difference from the one two before it, or from zero.
    pub open spec fn difference(self, col: int) -> int {
        self.values[col] - if col >= 2 {
            self.values[col - 2]
        } else {
            0
        }
    }

    /// The bits of column `col`: a whole sample, or a difference lifted into
    /// the numbers from zero on.
    pub open spec fn own(self, col: int) -> Seq<bool> {
        let length = self.spent(col);
        if length == 14 {
            bits_of(self.values[col], 16)
        } else {
            bits_of(self.difference(col) + pow2((length - 1) as nat) - 1, length as nat)
        }
    }

    /// The selector of a group for a column parity.
    pub open spec fn selector(self, group: int, side: int) -> Seq<bool> {
        if (self.keep)(group, side) {
            seq![true]
        } else {
            selector_of((self.length)(group, side))
        }
    }

    pub open spec fn column_fits(self, col: int) -> bool {
        &&& 0 <= self.values[col] <= 0x3fff
        &&& self.spent(col) != 14 ==> -pow2((self.spent(col) - 1) as nat) < self.difference(col)
            <= pow2((self.spent(col) - 1) as nat)
    }

    /// Whether the row can be written.
    pub open spec fn fits(self) -> bool {
        &&& forall|group: int, side: int| 5 <= #[trigger] (self.length)(group, side) <= 14
        &&& forall|col: int| 0 <= col < self.values.len() ==> #[trigger] self.column_fits(col)
    }

    /// The row from column `col` on, and then `tail`: each whole group of
    /// eight columns is led by a selector for either column parity.
    pub open spec fn bits(self, col: nat, tail: Seq<bool>) -> Seq<bool>
        decreases self.values.len() - col,
    {
        if col >= self.values.len() {
            tail
        } else if col % 8 == 0 && col < self.values.len() - self.values.len() % 8 {
            self.selector(col as int / 8, 0) + (self.selector(col as int / 8, 1) + (self.own(
                col as int,
            ) + self.bits(col + 1, tail)))
        } else {
            self.own(col as int) + self.bits(col + 1, tail)
        }
    }

    proof fn lemma_in_force(self, group: nat, side: int)
        requires
            self.fits(),
        ensures
            5 <= self.in_force(group, side) <= 14,
        decreases group,
    {
        assert(5 <= (self.length)(group as int, side) <= 14);
        if group > 0 {
            self.lemma_in_force((group - 1) as nat, side);
        }
    }

    /// Whether a decoder has the lengths of the columns before column `n`.
    spec fn lengths_seen(self, lengths: Seq<int>, n: int) -> bool {
        let width = self.values.len() as int;
        &&& lengths.len() == 2
        &&& n == 0 ==> lengths[0] == 14 && lengths[1] == 14
        &&& 0 < n <= width - width % 8 ==> lengths[0] == self.in_force(((n - 1) / 8) as nat, 0)
            && lengths[1] == self.in_force(((n - 1) / 8) as nat, 1)
    }

    /// Whether a decoder has the values of the columns before column `n`.
    spec fn values_seen(self, pred: Seq<int>, n: int) -> bool {
        &&& pred.len() == 2
        &&& n >= 1 ==> pred[(n - 1) % 2] == self.values[n - 1]
        &&& pred[n % 2] == if n >= 2 {
            self.values[n - 2]
        } else {
            0
        }
        &&& n == 0 ==> pred[1] == 0
    }

    #[verifier::rlimit(40)]
    proof fn lemma_lengths(self, run: RowRun, col: int, tail: Seq<bool>)
        requires
            self.fits(),
            0 <= col < self.values.len(),
            self.lengths_seen(run.lengths, col),
            run.rest == self.bits(col as nat, tail),
        ensures
            ({
                let (lengths, rest) = column_lengths(run, self.values.len() as int, col);
                &&& self.lengths_seen(lengths, col + 1)
                &&& lengths[col % 2] == self.spent(col)
                &&& 5 <= self.spent(col) <= 14
                &&& rest == self.own(col) + self.bits((col + 1) as nat, tail)
            }),
    {
        let width = self.values.len() as int;
        let more = self.bits((col + 1) as nat, tail);
        let group = (col / 8) as nat;
        if col < width - width % 8 {
            self.lemma_in_force(group, 0);
            self.lemma_in_force(group, 1);
            if col % 8 == 0 {
                if col > 0 {
                    assert((col - 1) / 8 == group - 1);
                }
                self.lemma_selector(
                    group,
                    0,
                    run.lengths[0],
                    self.selector(group as int, 1) + (self.own(col) + more),
                );
                self.lemma_selector(group, 1, run.lengths[1], self.own(col) + more);
            } else {
                assert((col - 1) / 8 == group);
            }
        }
    }

    proof fn lemma_value(self, col: int, pred: Seq<int>, more: Seq<bool>)
        requires
            self.fits(),
            0 <= col < self.values.len(),
            5 <= self.spent(col) <= 14,
            self.values_seen(pred, col),
        ensures
            ({
                let rest = self.own(col) + more;
                let bits = self.spent(col);
                &&& bits == 14 ==> word(rest, 16) == self.values[col] && after(rest, 16) == more
                &&& bits != 14 ==> pred[col % 2] + word(rest, bits as nat) + 1 - pow2(
                    (bits - 1) as nat,
                ) == self.values[col] && after(rest, bits as nat) == more
                &&& row_sample(self.values[col]) == 4 * self.values[col]
            }),
    {
        assert(self.column_fits(col));
        let length = self.spent(col);
        lemma2_to64();
        if length == 14 {
            law_numbers_are_read_back(self.values[col], 16, more);
        } else {
            let code = self.difference(col) + pow2((length - 1) as nat) - 1;
            lemma_pow2_unfold(length as nat);
            law_numbers_are_read_back(code, length as nat, more);
        }
    }

    #[verifier::rlimit(40)]
    proof fn lemma_column(self, data: Seq<u8>, tail: Seq<bool>, n: nat)
        requires
            self.fits(),
            n <= self.values.len(),
            msb32_bits(data) == self.bits(0, tail),
        ensures
            ({
                let run = row_run(data, self.values.len() as int, n);
                &&& run.samples.len() == n
                &&& forall|i: int| 0 <= i < n ==> #[trigger] run.samples[i] == 4 * self.values[i]
                &&& self.values_seen(run.pred, n as int)
                &&& self.lengths_seen(run.lengths, n as int)
                &&& run.rest == self.bits(n, tail)
            }),
        decreases n,
    {
        if n > 0 {
            let m = (n - 1) as nat;
            let col = m as int;
            self.lemma_column(data, tail, m);
            let run = row_run(data, self.values.len() as int, m);
            self.lemma_lengths(run, col, tail);
            self.lemma_value(col, run.pred, self.bits(n, tail));
            assert((col + 1) % 2 != col % 2);
            assert((col - 1) % 2 == (col + 1) % 2);
        }
    }

    proof fn lemma_selector(self, group: nat, side: int, before: int, more: Seq<bool>)
        requires
            self.fits(),
            before == if group > 0 {
                self.in_force((group - 1) as nat, side)
            } else {
                14
            },
        ensures
            selected(before, self.selector(group as int, side) + more) == (
                self.in_force(group, side),
                more,
            ),
    {
        assert(5 <= (self.length)(group as int, side) <= 14);
        lemma_selected(before, self.selector(group as int, side), more);
    }
}

proof fn lemma_next_bit(bits: Seq<bool>, k: nat)
    ensures
        word(after(bits, k), 1) == bit_at(bits, k as int),
{
    reveal_with_fuel(word, 2);
}

proof fn lemma_selected(before: int, selector: Seq<bool>, more: Seq<bool>)
    requires
        selector == seq![true] || exists|length: int|
            5 <= length <= 14 && selector == #[trigger] selector_of(length),
    ensures
        selector == seq![true] ==> selected(before, selector + more) == (before, more),
        forall|length: int|
            5 <= length <= 14 && selector == #[trigger] selector_of(length) ==> selected(
                before,
                selector + more,
            ) == (length, more),
{
    let rest = selector + more;
    reveal_with_fuel(leading_zeros, 7);
    lemma_next_bit(rest, 0);
    lemma_next_bit(rest, 1);
    lemma_next_bit(rest, 2);
    lemma_next_bit(rest, 3);
    lemma_next_bit(rest, 4);
    lemma_next_bit(rest, 5);
    lemma_after_after(rest, 2, 1);
    lemma_after_after(rest, 3, 1);
    lemma_after_after(rest, 4, 1);
    lemma_after_after(rest, 5, 1);
    assert(after(rest, selector.len()) =~= more);
    if selector == seq![true] {
        assert(rest[0]);
    }
    assert forall|length: int|
        5 <= length <= 14 && selector == #[trigger] selector_of(length) implies selected(
        before,
        selector + more,
    ) == (length, more) by {
        assert(!rest[0]);
        assert(rest[1] == selector[1] && rest[2] == selector[2]);
        if selector.len() > 3 {
            assert(rest[3] == selector[3]);
        }
        if selector.len() > 4 {
            assert(rest[4] == selector[4]);
        }
        if selector.len() > 5 {
            assert(rest[5] == selector[5]);
        }
    }
}

/// A row undoes its writing: whatever the lengths and where they change, a
/// row of 14-bit values is read back, each four times over.
pub proof fn law_a_row_undoes_its_writing(row: RowWriting, data: Seq<u8>, tail: Seq<bool>)
    requires
        row.fits(),
        msb32_bits(data) == row.bits(0, tail),
    ensures
        row_run(data, row.values.len() as int, row.values.len()).samples.len() == row.values.len(),
        forall|i: int|
            0 <= i < row.values.len() ==> #[trigger] row_run(
                data,
                row.values.len() as int,
                row.values.len(),
            ).samples[i] == 4 * row.values[i],
{
    row.lemma_column(data, tail, row.values.len());
}

// ------------------------------------------------------------ frames

/// Row `row` of a lossless frame. A row pointing outside the data is left
/// black.
pub open spec fn frame_row(data: Seq<u8>, offsets: Seq<u8>, width: int, row: int) -> Seq<u16> {
    let start = le32(offsets, 4 * row);
    if start <= data.len() {
        row_run(data.skip(start), width, width as nat).samples
    } else {
        Seq::new(width as nat, |i: int| 0u16)
    }
}

/// The first `n` rows of a lossless frame.
pub open spec fn frame_rows(data: Seq<u8>, offsets: Seq<u8>, width: int, n: nat) -> Seq<u16>
    decreases n,
{
    if n == 0 {
        Seq::empty()
    } else {
        frame_rows(data, offsets, width, (n - 1) as nat) + frame_row(data, offsets, width, n - 1)
    }
}

/// A lossless frame: one independent bit stream a row, found through the
/// row-offset table.
pub open spec fn lossless_frame(data: Seq<u8>, offsets: Seq<u8>, width: usize, height: usize) -> Outcome<
    Seq<u16>,
> {
    if offsets.len() < height * 4 {
        Err(
            Fault::Corrupt(
                "Phase One row table holds "@ + decimal(offsets.len() as int) + " bytes for "@
                    + decimal(height as int) + " rows"@,
            ),
        )
    } else {
        match frame_samples_spec(width, height, 1) {
            Err(e) => Err(e),
            Ok(samples) => if data.len() * 8 < samples {
                Err(
                    Fault::Corrupt(
                        "Phase One frame of "@ + decimal(samples as int) + " samples in "@
                            + decimal(data.len() as int) + " bytes"@,
                    ),
                )
            } else {
                Ok(frame_rows(data, offsets, width as int, height as nat))
            },
        }
    }
}

proof fn lemma_frame_row_length(data: Seq<u8>, offsets: Seq<u8>, width: int, row: int)
    requires
        0 <= width,
    ensures
        frame_row(data, offsets, width, row).len() == width,
{
    let start = le32(offsets, 4 * row);
    if start <= data.len() {
        lemma_samples_saturate(data.skip(start), width, width as nat);
    }
}

proof fn lemma_frame_rows(data: Seq<u8>, offsets: Seq<u8>, width: int, n: nat, row: int)
    requires
        0 <= width,
        0 <= row < n,
    ensures
        frame_rows(data, offsets, width, n).len() == n * width,
        0 <= row * width,
        row * width + width <= n * width,
        frame_rows(data, offsets, width, n).subrange(row * width, row * width + width) == frame_row(
            data,
            offsets,
            width,
            row,
        ),
    decreases n,
{
    let m = (n - 1) as nat;
    let most = frame_rows(data, offsets, width, m);
    lemma_frame_row_length(data, offsets, width, n - 1);
    assert(m * width + width == n * width) by (nonlinear_arith)
        requires
            m == n - 1,
    ;
    assert(0 <= row * width && row * width + width <= n * width) by (nonlinear_arith)
        requires
            0 <= row,
            row + 1 <= n,
            0 <= width,
    ;
    let all = frame_rows(data, offsets, width, n);
    if row < n - 1 {
        lemma_frame_rows(data, offsets, width, m, row);
        assert(all.subrange(row * width, row * width + width) =~= most.subrange(
            row * width,
            row * width + width,
        ));
    } else {
        if m > 0 {
            lemma_frame_rows(data, offsets, width, m, 0);
        } else {
            assert(m * width == 0) by (nonlinear_arith)
                requires
                    m == 0,
            ;
        }
        assert(most.len() == m * width);
        assert(all.subrange(row * width, row * width + width) =~= frame_row(
            data,
            offsets,
            width,
            row,
        ));
    }
}

/// The rows of a lossless frame stand alone: two row tables that agree on
/// one row give it the same samples, whatever they say of the others. A row
/// that the table puts outside the data is black.
pub proof fn law_rows_stand_alone(
    data: Seq<u8>,
    offsets: Seq<u8>,
    other: Seq<u8>,
    width: usize,
    height: usize,
    row: int,
)
    requires
        lossless_frame(data, offsets, width, height) is Ok,
        lossless_frame(data, other, width, height) is Ok,
        0 <= row < height,
        le32(offsets, 4 * row) == le32(other, 4 * row),
    ensures
        ({
            let at = row * width;
            let frame = lossless_frame(data, offsets, width, height)->Ok_0;
            let line = frame.subrange(at, at + width);
            &&& frame.len() == width * height
            &&& line == lossless_frame(data, other, width, height)->Ok_0.subrange(at, at + width)
            &&& le32(offsets, 4 * row) > data.len() ==> line == Seq::new(
                width as nat,
                |i: int| 0u16,
            )
        }),
{
    lemma_frame_rows(data, offsets, width as int, height as nat, row);
    lemma_frame_rows(data, other, width as int, height as nat, row);
    assert(height * width == width * height) by (nonlinear_arith);
}

/// A lossless frame undoes its writing: the table of little-endian words
/// says where in the data the stream of each row starts.
pub proof fn law_lossless_frames_undo_their_writing(
    data: Seq<u8>,
    offsets: Seq<u8>,
    width: usize,
    height: usize,
    rows: spec_fn(int) -> RowWriting,
    tails: spec_fn(int) -> Seq<bool>,
    row: int,
    col: int,
)
    requires
        offsets.len() >= 4 * height,
        frame_samples_spec(width, height, 1) is Ok,
        data.len() * 8 >= width * height,
        0 <= row < height,
        0 <= col < width,
        ({
            let start = offsets[4 * row] + 0x100 * offsets[4 * row + 1] + 0x1_0000 * offsets[4 * row
                + 2] + 0x100_0000 * offsets[4 * row + 3];
            &&& rows(row).fits()
            &&& rows(row).values.len() == width
            &&& start <= data.len()
            &&& msb32_bits(data.skip(start)) == rows(row).bits(0, tails(row))
        }),
    ensures
        lossless_frame(data, offsets, width, height) matches Ok(frame) && frame.len() == width
            * height && frame[row * width + col] == 4 * rows(row).values[col],
{
    assert(width * height * 1 == width * height) by (nonlinear_arith);
    lemma_frame_rows(data, offsets, width as int, height as nat, row);
    assert(height * width == width * height) by (nonlinear_arith);
    law_a_row_undoes_its_writing(rows(row), data.skip(le32(offsets, 4 * row)), tails(row));
    let frame = lossless_frame(data, offsets, width, height)->Ok_0;
    assert(frame.subrange(row * width, row * width + width)[col] == frame[row * width + col]);
}

/// Decodes a lossless frame, one independent bit stream a row.
pub fn decompress(data: &[u8], offsets: &[u8], width: usize, height: usize) -> (r: Result<Vec<u16>>)
    requires
        0 < width <= 0x1_0000_0000_0000,
    ensures
        deep_outcome(r) == lossless_frame(data@, offsets@, width, height),
{
    if offsets.len() / 4 < height {
        let mut text = "Phase One row table holds ".to_string();
        push_decimal(&mut text, offsets.len() as u64);
        text.append(" bytes for ");
        push_decimal(&mut text, height as u64);
        text.append(" rows");
        return Err(Error::Corrupt(text));
    }
    let samples: usize = match frame_samples(width, height, 1) {
        Ok(samples) => samples,
        Err(e) => return Err(e),
    };
    if (data.len() as u128) * 8 < samples as u128 {
        let mut text = "Phase One frame of ".to_string();
        push_decimal(&mut text, samples as u64);
        text.append(" samples in ");
        push_decimal(&mut text, data.len() as u64);
        text.append(" bytes");
        return Err(Error::Corrupt(text));
    }
    let mut out: Vec<u16> = Vec::new();
    let mut row: usize = 0;
    assert(offsets@.len() == offsets.len());
    while row < height
        invariant
            row <= height,
            height * 4 <= offsets@.len() <= usize::MAX,
            width <= 0x1_0000_0000_0000,
            out@ == frame_rows(data@, offsets@, width as int, row as nat),
        decreases height - row,
    {
        let start: usize = read_le32(offsets, row * 4) as usize;
        let mut line: Vec<u16> = vec![0u16; width];
        if start <= data.len() {
            let bits = slice_subrange(data, start, data.len());
            assert(bits@ =~= data@.skip(start as int));
            decode_row(bits, line.as_mut_slice());
        }
        assert(line@ =~= frame_row(data@, offsets@, width as int, row as int));
        out.append(&mut line);
        row = row + 1;
    }
    Ok(out)
}

/// An uncompressed frame: little-endian 16-bit, no padding.
pub open spec fn raster(data: Seq<u8>, samples: int) -> Outcome<Seq<u16>> {
    if data.len() < samples * 2 {
        Err(
            Fault::Corrupt(
                "Phase One raster holds "@ + decimal(data.len() as int) + " bytes for "@ + decimal(
                    samples,
                ) + " samples"@,
            ),
        )
    } else {
        Ok(plain_frame(data, samples as nat))
    }
}

/// Reads the uncompressed format.
pub fn unpack(data: &[u8], width: usize, height: usize) -> (r: Result<Vec<u16>>)
    requires
        width * height <= usize::MAX,
    ensures
        deep_outcome(r) == raster(data@, width * height),
{
    let samples: usize = width * height;
    if data.len() / 2 < samples {
        let mut text = "Phase One raster holds ".to_string();
        push_decimal(&mut text, data.len() as u64);
        text.append(" bytes for ");
        push_decimal(&mut text, samples as u64);
        text.append(" samples");
        return Err(Error::Corrupt(text));
    }
    Ok(plain(data, samples))
}

// ------------------------------------------------------ the directory

/// One entry of the private directory.
#[derive(Debug, Clone, Copy)]
pub struct Entry {
    pub tag: u32,
    /// Bytes of value, whether inline or out of line.
    pub length: u32,
    /// The value itself when it fits in four bytes, else its offset from
    /// [`BASE`].
    pub value: u32,
}

/// The entries of the directory at `start`: the first `n`, as far as they
/// lie in the file. The second word of an entry is its type.
pub open spec fn entries_of(bytes: Seq<u8>, start: int, n: nat) -> Seq<Entry>
    decreases n,
{
    if n == 0 {
        Seq::empty()
    } else {
        let before = entries_of(bytes, start, (n - 1) as nat);
        let at = start + 8 + (n - 1) * 16;
        if before.len() == n - 1 && holds(bytes, at, 16) {
            before.push(
                Entry {
                    tag: le32(bytes, at) as u32,
                    length: le32(bytes, at + 8) as u32,
                    value: le32(bytes, at + 12) as u32,
                },
            )
        } else {
            before
        }
    }
}

/// The private directory of a file.
pub open spec fn directory_of(bytes: Seq<u8>) -> Outcome<Seq<Entry>> {
    if !tagged(bytes, 8, "IIIICwaR"@) {
        Err(Fault::Corrupt("no IIIICwaR signature at byte 8: not a Phase One raw"@))
    } else {
        match word32_in(bytes, 16, true) {
            None => Err(Fault::Corrupt("truncated Phase One header"@)),
            Some(offset) => match word32_in(bytes, offset + 8, true) {
                None => Err(Fault::Corrupt("Phase One directory outside the file"@)),
                Some(stored) => {
                    let room = bytes.len() as int / 16;
                    let count = if stored <= room {
                        stored
                    } else {
                        room
                    };
                    let entries = entries_of(bytes, offset + 8, count as nat);
                    if entries.len() == 0 {
                        Err(Fault::Corrupt("empty Phase One directory"@))
                    } else {
                        Ok(entries)
                    }
                },
            },
        }
    }
}

/// The first of the entries from `n` on with a tag.
pub open spec fn entry_of(entries: Seq<Entry>, tag: u32, n: nat) -> Option<Entry>
    decreases entries.len() - n,
{
    if n >= entries.len() {
        None
    } else if entries[n as int].tag == tag {
        Some(entries[n as int])
    } else {
        entry_of(entries, tag, n + 1)
    }
}

/// A tag whose value fits in the entry.
pub open spec fn int_of(entries: Seq<Entry>, tag: u32) -> Option<u32> {
    match entry_of(entries, tag, 0) {
        Some(entry) => if entry.length <= 4 {
            Some(entry.value)
        } else {
            None
        },
        None => None,
    }
}

/// The bytes a tag points at; `None` when they are inline or fall outside
/// the file.
pub open spec fn blob_of(bytes: Seq<u8>, entries: Seq<Entry>, tag: u32) -> Option<Seq<u8>> {
    match entry_of(entries, tag, 0) {
        Some(entry) => if entry.length > 4 && entry.value + 8 + entry.length <= bytes.len() {
            Some(bytes.subrange(entry.value + 8, entry.value + 8 + entry.length))
        } else {
            None
        },
        None => None,
    }
}

/// The bytes before the first NUL.
pub open spec fn until_nul(blob: Seq<u8>, n: nat) -> Seq<u8>
    decreases blob.len() - n,
{
    if n >= blob.len() || blob[n as int] == 0 {
        blob.take(n as int)
    } else {
        until_nul(blob, n + 1)
    }
}

/// The entries of a directory are read back from their sixteen bytes: the
/// tag, four bytes of anything, the length and the value, least significant
/// byte first.
pub proof fn law_directories_list_their_entries(bytes: Seq<u8>, start: int, entries: Seq<Entry>)
    requires
        0 <= start,
        start + 8 + 16 * entries.len() <= bytes.len(),
        forall|k: int|
            #![trigger entries[k]]
            0 <= k < entries.len() ==> {
                let at = start + 8 + 16 * k;
                &&& holds_number(bytes, at, entries[k].tag as int, 4, true)
                &&& holds_number(bytes, at + 8, entries[k].length as int, 4, true)
                &&& holds_number(bytes, at + 12, entries[k].value as int, 4, true)
            },
    ensures
        entries_of(bytes, start, entries.len()) == entries,
    decreases entries.len(),
{
    if entries.len() == 0 {
        assert(entries =~= Seq::empty());
    } else {
        let before = entries.drop_last();
        let n = entries.len();
        assert forall|k: int| #![trigger before[k]] 0 <= k < before.len() implies before[k]
            == entries[k] by {}
        law_directories_list_their_entries(bytes, start, before);
        let last = entries[n - 1];
        let at = start + 8 + 16 * (n - 1);
        law_numbers_are_read_from_their_bytes(bytes, at, last.tag as int, true);
        law_numbers_are_read_from_their_bytes(bytes, at + 8, last.length as int, true);
        law_numbers_are_read_from_their_bytes(bytes, at + 12, last.value as int, true);
        assert(start + 8 + (n - 1) * 16 == at);
        assert(before.push(last) =~= entries);
    }
}

/// The entry that is found is the first with its tag; none is found only
/// where none has it.
pub proof fn law_the_first_entry_is_found(entries: Seq<Entry>, tag: u32, n: nat)
    requires
        n <= entries.len(),
    ensures
        match entry_of(entries, tag, n) {
            Some(entry) => exists|k: int|
                n <= k < entries.len() && #[trigger] entries[k] == entry && entry.tag == tag && (
                forall|j: int| n <= j < k ==> (#[trigger] entries[j]).tag != tag),
            None => forall|k: int|
                n <= k < entries.len() ==> (#[trigger] entries[k]).tag != tag,
        },
    decreases entries.len() - n,
{
    if n < entries.len() && entries[n as int].tag != tag {
        law_the_first_entry_is_found(entries, tag, n + 1);
    }
}

/// What stands before the first NUL has none, and is all that does.
pub proof fn law_texts_end_at_their_nul(blob: Seq<u8>, n: nat)
    requires
        n <= blob.len(),
        forall|i: int| 0 <= i < n ==> #[trigger] blob[i] != 0,
    ensures
        until_nul(blob, n).len() <= blob.len(),
        until_nul(blob, n) == blob.take(until_nul(blob, n).len() as int),
        !until_nul(blob, n).contains(0),
        until_nul(blob, n).len() < blob.len() ==> blob[until_nul(blob, n).len() as int] == 0,
    decreases blob.len() - n,
{
    if n < blob.len() && blob[n as int] != 0 {
        law_texts_end_at_their_nul(blob, n + 1);
    } else {
        assert(until_nul(blob, n) == blob.take(n as int));
    }
}

/// The private directory, and the file it points into.
pub struct Directory<'a> {
    pub bytes: &'a [u8],
    pub entries: Vec<Entry>,
}

impl<'a> Directory<'a> {
    /// Reads the private directory of a file.
    pub fn parse(bytes: &'a [u8]) -> (r: Result<Directory<'a>>)
        ensures
            match r {
                Ok(dir) => directory_of(bytes@) == Outcome::<Seq<Entry>>::Ok(dir.entries@)
                    && dir.bytes@ == bytes@,
                Err(e) => directory_of(bytes@) == Outcome::<Seq<Entry>>::Err(e@),
            },
    {
        if !has_tag(bytes, BASE, "IIIICwaR") {
            return Err(corrupt("no IIIICwaR signature at byte 8: not a Phase One raw"));
        }
        let offset: u32 = match find_word32(bytes, 16, true) {
            Some(offset) => offset,
            None => return Err(corrupt("truncated Phase One header")),
        };
        let start: u64 = offset as u64 + 8;
        let stored: u32 = match find_word32(bytes, start, true) {
            Some(stored) => stored,
            None => return Err(corrupt("Phase One directory outside the file")),
        };
        let room: usize = bytes.len() / 16;
        let count: usize = if stored as usize <= room {
            stored as usize
        } else {
            room
        };
        let mut entries: Vec<Entry> = Vec::new();
        let mut i: usize = 0;
        while i < count
            invariant
                i <= count <= bytes@.len() / 16,
                count <= u32::MAX,
                start + 4 <= bytes@.len() <= usize::MAX,
                entries@.len() <= i,
                entries@ == entries_of(bytes@, start as int, i as nat),
            decreases count - i,
        {
            if entries.len() == i {
                let first: usize = start as usize;
                let left: usize = bytes.len() - first;
                if left >= 8 && left - 8 >= i * 16 && left - 8 - i * 16 >= 16 {
                    let at: usize = first + 8 + i * 16;
                    entries.push(
                        Entry {
                            tag: read_le32(bytes, at),
                            length: read_le32(bytes, at + 8),
                            value: read_le32(bytes, at + 12),
                        },
                    );
                }
            }
            i = i + 1;
        }
        if entries.len() == 0 {
            return Err(corrupt("empty Phase One directory"));
        }
        Ok(Directory { bytes, entries })
    }

    /// The first entry of a tag.
    pub fn entry(&self, tag: u32) -> (r: Option<Entry>)
        ensures
            r == entry_of(self.entries@, tag, 0),
    {
        let mut i: usize = 0;
        while i < self.entries.len()
            invariant
                i <= self.entries@.len(),
                entry_of(self.entries@, tag, 0) == entry_of(self.entries@, tag, i as nat),
            decreases self.entries@.len() - i,
        {
            if self.entries[i].tag == tag {
                return Some(self.entries[i]);
            }
            i = i + 1;
        }
        None
    }

    /// A tag whose value fits in the entry.
    pub fn number(&self, tag: u32) -> (r: Option<u32>)
        ensures
            r == int_of(self.entries@, tag),
    {
        match self.entry(tag) {
            Some(entry) => if entry.length <= 4 {
                Some(entry.value)
            } else {
                None
            },
            None => None,
        }
    }

    /// The bytes a tag points at; `None` when they are inline or fall
    /// outside the file.
    pub fn blob(&self, tag: u32) -> (r: Option<&'a [u8]>)
        ensures
            match r {
                Some(blob) => blob_of(self.bytes@, self.entries@, tag) == Some(blob@),
                None => blob_of(self.bytes@, self.entries@, tag) is None,
            },
    {
        let entry = match self.entry(tag) {
            Some(entry) => entry,
            None => return None,
        };
        let end: u64 = entry.value as u64 + 8 + entry.length as u64;
        if entry.length > 4 && end <= self.bytes.len() as u64 {
            Some(slice_subrange(self.bytes, entry.value as usize + 8, end as usize))
        } else {
            None
        }
    }

    /// The bit patterns of the first `count` floats a tag points at.
    pub fn floats(&self, tag: u32, count: usize) -> (r: Option<Vec<u32>>)
        ensures
            match r {
                Some(floats) => blob_of(self.bytes@, self.entries@, tag) matches Some(blob)
                    && blob.len() >= count * 4 && floats@ == Seq::new(
                    count as nat,
                    |i: int| le32(blob, 4 * i) as u32,
                ),
                None => match blob_of(self.bytes@, self.entries@, tag) {
                    Some(blob) => blob.len() < count * 4,
                    None => true,
                },
            },
    {
        let blob = match self.blob(tag) {
            Some(blob) => blob,
            None => return None,
        };
        if blob.len() / 4 < count {
            return None;
        }
        let mut floats: Vec<u32> = Vec::new();
        let mut i: usize = 0;
        while i < count
            invariant
                i <= count,
                count * 4 <= blob@.len() <= usize::MAX,
                floats@ == Seq::new(i as nat, |i: int| le32(blob@, 4 * i) as u32),
            decreases count - i,
        {
            floats.push(read_le32(blob, i * 4));
            i = i + 1;
            assert(floats@ =~= Seq::new(i as nat, |i: int| le32(blob@, 4 * i) as u32));
        }
        Some(floats)
    }

    /// The text a tag points at, without white space around it; `None`
    /// when there is none or it is blank.
    pub fn text(&self, tag: u32) -> (r: Option<Vec<char>>)
        ensures
            match r {
                Some(text) => blob_of(self.bytes@, self.entries@, tag) matches Some(blob) && text@
                    == trimmed(lossy_text(until_nul(blob, 0))) && text@.len() > 0,
                None => match blob_of(self.bytes@, self.entries@, tag) {
                    Some(blob) => trimmed(lossy_text(until_nul(blob, 0))).len() == 0,
                    None => true,
                },
            },
    {
        let blob = match self.blob(tag) {
            Some(blob) => blob,
            None => return None,
        };
        let mut end: usize = 0;
        while end < blob.len() && blob[end] != 0
            invariant
                end <= blob@.len(),
                until_nul(blob@, 0) == until_nul(blob@, end as nat),
            decreases blob@.len() - end,
        {
            end = end + 1;
        }
        let stored = slice_subrange(blob, 0, end);
        assert(stored@ =~= blob@.take(end as int));
        let text = trim(characters(text_of(stored).as_str()).as_slice());
        if text.len() > 0 {
            Some(text)
        } else {
            None
        }
    }
}

// ------------------------------------------------------------ decoding

/// The number of a tag, or zero.
pub open spec fn number_of(entries: Seq<Entry>, tag: u32) -> int {
    match int_of(entries, tag) {
        Some(n) => n as int,
        None => 0,
    }
}

fn number_or_zero(dir: &Directory<'_>, tag: u32) -> (n: u32)
    ensures
        n == number_of(dir.entries@, tag),
{
    match dir.number(tag) {
        Some(n) => n,
        None => 0,
    }
}

/// The sensor data: what the file holds of it.
pub open spec fn sensor_data(bytes: Seq<u8>, entries: Seq<Entry>) -> Outcome<Seq<u8>> {
    match entry_of(entries, RAW_DATA, 0) {
        None => Err(Fault::Corrupt("Phase One file with no sensor data"@)),
        Some(raw) => if raw.value + 8 > bytes.len() {
            Err(Fault::Corrupt("Phase One data starts past the end of the file"@))
        } else if raw.value + 8 + raw.length <= bytes.len() {
            Ok(bytes.subrange(raw.value + 8, raw.value + 8 + raw.length))
        } else {
            Ok(bytes.skip(raw.value + 8))
        },
    }
}

fn find_data<'a>(dir: &Directory<'a>) -> (r: Result<&'a [u8]>)
    ensures
        match r {
            Ok(data) => sensor_data(dir.bytes@, dir.entries@) == Outcome::<Seq<u8>>::Ok(data@),
            Err(e) => sensor_data(dir.bytes@, dir.entries@) == Outcome::<Seq<u8>>::Err(e@),
        },
{
    assert(dir.bytes@.len() == dir.bytes.len());
    let raw = match dir.entry(RAW_DATA) {
        Some(raw) => raw,
        None => return Err(corrupt("Phase One file with no sensor data")),
    };
    let start: u64 = raw.value as u64 + 8;
    let len: u64 = dir.bytes.len() as u64;
    if start > len {
        return Err(corrupt("Phase One data starts past the end of the file"));
    }
    let end: u64 = if start + raw.length as u64 <= len {
        start + raw.length as u64
    } else {
        len
    };
    let data = slice_subrange(dir.bytes, start as usize, end as usize);
    assert(start + raw.length > len ==> data@ =~= dir.bytes@.skip(start as int));
    Ok(data)
}

/// The samples of a frame and where they saturate. A lossless sample has
/// fourteen bits, shifted up by two.
pub open spec fn samples_of(
    bytes: Seq<u8>,
    entries: Seq<Entry>,
    data: Seq<u8>,
    width: int,
    height: int,
) -> Outcome<(Seq<u16>, u32)> {
    let format = number_of(entries, FORMAT);
    if format == 0 {
        match raster(data, width * height) {
            Ok(samples) => Ok((samples, 65535)),
            Err(fault) => Err(fault),
        }
    } else if format == 3 {
        match blob_of(bytes, entries, ROW_OFFSETS) {
            None => Err(Fault::Corrupt("IIQ L with no row-offset table"@)),
            Some(offsets) => match lossless_frame(data, offsets, width as usize, height as usize) {
                Ok(samples) => Ok((samples, 65532)),
                Err(fault) => Err(fault),
            },
        }
    } else if format == 5 || format == 6 {
        Err(
            Fault::Unsupported(
                "Phase One IIQ S (compression 5 and 6): a lossy code this decoder cannot read"@,
            ),
        )
    } else {
        Err(Fault::Unsupported("Phase One compression "@ + decimal(format)))
    }
}

fn read_samples(dir: &Directory<'_>, data: &[u8], width: usize, height: usize) -> (r: Result<
    (Vec<u16>, u32),
>)
    requires
        0 < width <= 0x1_0000,
        0 < height <= 0x1_0000,
    ensures
        match r {
            Ok((samples, white)) => samples_of(
                dir.bytes@,
                dir.entries@,
                data@,
                width as int,
                height as int,
            ) == Outcome::<(Seq<u16>, u32)>::Ok((samples@, white)),
            Err(e) => samples_of(dir.bytes@, dir.entries@, data@, width as int, height as int)
                == Outcome::<(Seq<u16>, u32)>::Err(e@),
        },
{
    assert(data@.len() == data.len());
    let format: u32 = number_or_zero(dir, FORMAT);
    if format == 0 {
        proof {
            assert(0 <= width * height <= 0x1_0000 * 0x1_0000) by (nonlinear_arith)
                requires
                    0 <= width <= 0x1_0000,
                    0 <= height <= 0x1_0000,
            ;
        }
        let count: u64 = width as u64 * height as u64;
        if count > usize::MAX as u64 {
            let mut text = "Phase One raster holds ".to_string();
            push_decimal(&mut text, data.len() as u64);
            text.append(" bytes for ");
            push_decimal(&mut text, count);
            text.append(" samples");
            return Err(Error::Corrupt(text));
        }
        return match unpack(data, width, height) {
            Ok(samples) => Ok((samples, 65535)),
            Err(e) => Err(e),
        };
    }
    if format == 3 {
        let offsets = match dir.blob(ROW_OFFSETS) {
            Some(offsets) => offsets,
            None => return Err(corrupt("IIQ L with no row-offset table")),
        };
        return match decompress(data, offsets, width, height) {
            Ok(samples) => Ok((samples, 65532)),
            Err(e) => Err(e),
        };
    }
    if format == 5 || format == 6 {
        return Err(
            unsupported(
                "Phase One IIQ S (compression 5 and 6): a lossy code this decoder cannot read",
            ),
        );
    }
    let mut text = "Phase One compression ".to_string();
    push_decimal(&mut text, format as u64);
    Err(Error::Unsupported(text))
}

/// Whether the bits of a single-precision number are those of a finite
/// positive one.
pub open spec fn is_positive(bits: u32) -> bool {
    0 < bits < 0x7f80_0000
}

/// White balance relative to green, from the bits of three numbers, if
/// all are finite and positive.
pub open spec fn balance_of(blob: Option<Seq<u8>>) -> Option<Seq<Gain>> {
    match blob {
        Some(blob) => {
            let (r, g, b) = (le32(blob, 0) as u32, le32(blob, 4) as u32, le32(blob, 8) as u32);
            if blob.len() >= 12 && is_positive(r) && is_positive(g) && is_positive(b) {
                Some(
                    seq![
                        Gain::Floats { over_bits: r, under_bits: g },
                        Gain::unit(),
                        Gain::Floats { over_bits: b, under_bits: g },
                        Gain::unit(),
                    ],
                )
            } else {
                None
            }
        },
        None => None,
    }
}

fn balance(dir: &Directory<'_>) -> (r: Option<[Gain; 4]>)
    ensures
        match r {
            Some(gains) => balance_of(blob_of(dir.bytes@, dir.entries@, WHITE_BALANCE)) == Some(
                gains@,
            ),
            None => balance_of(blob_of(dir.bytes@, dir.entries@, WHITE_BALANCE)) is None,
        },
{
    let ghost blob = blob_of(dir.bytes@, dir.entries@, WHITE_BALANCE);
    let floats = match dir.floats(WHITE_BALANCE, 3) {
        Some(floats) => floats,
        None => return None,
    };
    let (r, g, b): (u32, u32, u32) = (floats[0], floats[1], floats[2]);
    assert(r == le32(blob->0, 0) as u32);
    assert(g == le32(blob->0, 4) as u32);
    assert(b == le32(blob->0, 8) as u32);
    if 0 < r && r < 0x7f80_0000 && 0 < g && g < 0x7f80_0000 && 0 < b && b < 0x7f80_0000 {
        let gains: [Gain; 4] = [
            Gain::Floats { over_bits: r, under_bits: g },
            Gain::unit(),
            Gain::Floats { over_bits: b, under_bits: g },
            Gain::unit(),
        ];
        assert(gains@ =~= balance_of(blob)->0);
        Some(gains)
    } else {
        None
    }
}

/// What a text holds before its first comma, from character `n` on.
pub open spec fn before_comma(text: Seq<char>, n: nat) -> Seq<char>
    decreases text.len() - n,
{
    if n >= text.len() || text[n as int] == ',' {
        text.take(n as int)
    } else {
        before_comma(text, n + 1)
    }
}

/// What stands before the first comma has none, and is all that does.
pub proof fn law_names_end_at_their_comma(text: Seq<char>, n: nat)
    requires
        n <= text.len(),
        forall|i: int| 0 <= i < n ==> #[trigger] text[i] != ',',
    ensures
        before_comma(text, n).len() <= text.len(),
        before_comma(text, n) == text.take(before_comma(text, n).len() as int),
        !before_comma(text, n).contains(','),
        before_comma(text, n).len() < text.len() ==> text[before_comma(text, n).len() as int]
            == ',',
    decreases text.len() - n,
{
    if n < text.len() && text[n as int] != ',' {
        law_names_end_at_their_comma(text, n + 1);
    } else {
        assert(before_comma(text, n) == text.take(n as int));
    }
}

/// The name a back gives itself in the private structure, ahead of its
/// firmware versions.
pub open spec fn own_name(bytes: Seq<u8>, entries: Seq<Entry>) -> Option<Seq<char>> {
    match blob_of(bytes, entries, MODEL_FIRMWARE) {
        Some(blob) => {
            let text = trimmed(lossy_text(until_nul(blob, 0)));
            if text.len() == 0 {
                None
            } else {
                Some(before_comma(text, 0))
            }
        },
        None => None,
    }
}

fn read_name(dir: &Directory<'_>) -> (r: Option<String>)
    ensures
        match r {
            Some(name) => own_name(dir.bytes@, dir.entries@) == Some(name@),
            None => own_name(dir.bytes@, dir.entries@) is None,
        },
{
    let text = match dir.text(MODEL_FIRMWARE) {
        Some(text) => text,
        None => return None,
    };
    let mut end: usize = 0;
    while end < text.len() && text[end] != ','
        invariant
            end <= text@.len(),
            before_comma(text@, 0) == before_comma(text@, end as nat),
        decreases text@.len() - end,
    {
        end = end + 1;
    }
    let name = slice_subrange(text.as_slice(), 0, end);
    assert(name@ =~= text@.take(end as int));
    Some(joined(name))
}

/// What the private structure says of a frame.
pub open spec fn framed(
    bytes: Seq<u8>,
    entries: Seq<Entry>,
    width: int,
    height: int,
    samples: (Seq<u16>, u32),
) -> RawModel {
    let (left, top) = (number_of(entries, CROP_LEFT), number_of(entries, CROP_TOP));
    let (across, down) = (number_of(entries, CROP_WIDTH), number_of(entries, CROP_HEIGHT));
    let plain = plain_image(
        Format::Iiq,
        width as usize,
        height as usize,
        1,
        samples.0,
        // The active area always reads RGGB; the masked border in front
        // of it moves the phase for the full frame.
        rggb().shifted(left % 2, top % 2),
    );
    RawModel {
        white_level: Ratio::whole(samples.1),
        crop: if crop_inside(left, top, across, down, (width, height)) {
            Rect {
                x: left as usize,
                y: top as usize,
                width: across as usize,
                height: down as usize,
            }
        } else {
            plain.crop
        },
        wb_coeffs: match balance_of(blob_of(bytes, entries, WHITE_BALANCE)) {
            Some(gains) => gains,
            None => plain.wb_coeffs,
        },
        ..plain
    }
}

/// What the TIFF around the private structure adds; a failure to read it
/// costs only the metadata.
pub open spec fn with_tiff(raw: RawModel, tiff: Outcome<TiffModel>) -> RawModel {
    match tiff {
        Ok(tiff) => RawModel {
            make: trimmed(camera_of(tiff).0),
            model: trimmed(camera_of(tiff).1),
            metadata: metadata_of(tiff),
            orientation: orientation_of(tiff),
            preview: best_picture(tiff, tiff.ifds.len() as int),
            ..raw
        },
        Err(_) => raw,
    }
}

/// A frame whose back names itself where the TIFF does not.
pub open spec fn named(raw: RawModel, name: Option<Seq<char>>) -> RawModel {
    match name {
        Some(name) => if raw.model.len() == 0 {
            RawModel { make: trimmed("Phase One"@), model: trimmed(name), ..raw }
        } else {
            raw
        },
        None => raw,
    }
}

/// The make and model: the TIFF's, or failing those the back's own name.
pub open spec fn names_of(tiff: Outcome<TiffModel>, name: Option<Seq<char>>) -> (
    Seq<char>,
    Seq<char>,
) {
    let (make, model) = match tiff {
        Ok(tiff) => (trimmed(camera_of(tiff).0), trimmed(camera_of(tiff).1)),
        Err(_) => (Seq::empty(), Seq::empty()),
    };
    match name {
        Some(name) => if model.len() == 0 {
            (trimmed("Phase One"@), trimmed(name))
        } else {
            (make, model)
        },
        None => (make, model),
    }
}

/// What a file decodes to.
pub open spec fn decoded(bytes: Seq<u8>) -> Outcome<RawModel> {
    match directory_of(bytes) {
        Err(fault) => Err(fault),
        Ok(entries) => {
            let (width, height) = (number_of(entries, RAW_WIDTH), number_of(entries, RAW_HEIGHT));
            if width == 0 || height == 0 || width > 0x1_0000 || height > 0x1_0000 {
                Err(
                    Fault::Corrupt(
                        "Phase One frame of "@ + decimal(width) + "x"@ + decimal(height),
                    ),
                )
            } else {
                match sensor_data(bytes, entries) {
                    Err(fault) => Err(fault),
                    Ok(data) => match samples_of(bytes, entries, data, width, height) {
                        Err(fault) => Err(fault),
                        Ok(samples) => Ok(
                            named(
                                with_tiff(
                                    framed(bytes, entries, width, height, samples),
                                    tiff_at(bytes, 0),
                                ),
                                own_name(bytes, entries),
                            ),
                        ),
                    },
                }
            }
        },
    }
}

fn frame(dir: &Directory<'_>, width: usize, height: usize, samples: Vec<u16>, white: u32) -> (raw:
    RawImage)
    ensures
        raw@ == framed(dir.bytes@, dir.entries@, width as int, height as int, (samples@, white)),
{
    let left: u32 = number_or_zero(dir, CROP_LEFT);
    let top: u32 = number_or_zero(dir, CROP_TOP);
    let across: u32 = number_or_zero(dir, CROP_WIDTH);
    let down: u32 = number_or_zero(dir, CROP_HEIGHT);
    let cfa = Cfa::rggb().shifted((left % 2) as usize, (top % 2) as usize);
    let mut raw = RawImage::new(Format::Iiq, width, height, 1, samples, cfa);
    raw.white_level = Ratio::whole(white);
    if let Some(crop) = crop_within(
        left as usize,
        top as usize,
        across as usize,
        down as usize,
        (width, height),
    ) {
        raw.crop = crop;
    }
    if let Some(gains) = balance(dir) {
        raw.wb_coeffs = gains;
    }
    raw
}

/// Decodes an IIQ into its sensor frame and metadata.
pub fn decode(bytes: &[u8]) -> (r: Result<RawImage>)
    ensures
        deep_outcome(r) == decoded(bytes@),
{
    let dir = match Directory::parse(bytes) {
        Ok(dir) => dir,
        Err(e) => return Err(e),
    };
    let width: u32 = number_or_zero(&dir, RAW_WIDTH);
    let height: u32 = number_or_zero(&dir, RAW_HEIGHT);
    if width == 0 || height == 0 || width > 0x1_0000 || height > 0x1_0000 {
        let mut text = "Phase One frame of ".to_string();
        push_decimal(&mut text, width as u64);
        text.append("x");
        push_decimal(&mut text, height as u64);
        return Err(Error::Corrupt(text));
    }
    let (width, height): (usize, usize) = (width as usize, height as usize);
    let data = match find_data(&dir) {
        Ok(data) => data,
        Err(e) => return Err(e),
    };
    let (samples, white): (Vec<u16>, u32) = match read_samples(&dir, data, width, height) {
        Ok(read) => read,
        Err(e) => return Err(e),
    };
    let mut raw = frame(&dir, width, height, samples, white);
    if let Ok(tiff) = Tiff::parse(bytes) {
        let (make, model) = make_model(&tiff);
        raw.set_camera(make.as_str(), model.as_str());
        raw.metadata = metadata(&tiff);
        raw.orientation = orientation(&tiff);
        raw.preview = largest_jpeg(&tiff);
    }
    if raw.model.as_str().unicode_len() == 0 {
        if let Some(name) = read_name(&dir) {
            raw.set_camera("Phase One", name.as_str());
        }
    }
    Ok(raw)
}

/// The make and model of a file, without its sensor data.
pub fn camera_names(bytes: &[u8]) -> (r: Result<(String, String)>)
    ensures
        match r {
            Ok((make, model)) => directory_of(bytes@) matches Ok(entries) && (make@, model@)
                == names_of(tiff_at(bytes@, 0), own_name(bytes@, entries)),
            Err(e) => directory_of(bytes@) == Outcome::<Seq<Entry>>::Err(e@),
        },
{
    let dir = match Directory::parse(bytes) {
        Ok(dir) => dir,
        Err(e) => return Err(e),
    };
    let (make, model) = match Tiff::parse(bytes) {
        Ok(tiff) => {
            let (make, model) = make_model(&tiff);
            (trimmed_text(make.as_str()), trimmed_text(model.as_str()))
        },
        Err(_) => (String::new(), String::new()),
    };
    if model.as_str().unicode_len() == 0 {
        if let Some(name) = read_name(&dir) {
            return Ok((trimmed_text("Phase One"), trimmed_text(name.as_str())));
        }
    }
    Ok((make, model))
}

/// The largest embedded JPEG of the TIFF around the private structure.
pub fn preview(bytes: &[u8]) -> (r: Result<Option<Vec<u8>>>)
    ensures
        preview_outcome(r) == pictured(bytes@),
{
    match Tiff::parse(bytes) {
        Ok(tiff) => Ok(largest_jpeg(&tiff)),
        Err(e) => Err(e),
    }
}

} // verus!
