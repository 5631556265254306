//! Kodak DCR, KDC and the DCS-series TIFFs: how their frames are packed
//! and where the compacts hide theirs.

use crate::bytes::{read_be16, read_le16, word16};
use crate::raw::bits::{
    after, category_code, category_of, category_value, from_category,
    law_categories_are_read_back, law_low_numbers_are_read_back, law_streams_are_their_bytes,
    lemma_low_bits_of_parts, low_bits_of, low_word, lsb_bits, BitPump, BitPumpLsb,
};
use crate::raw::common::{
    best_picture, camera_of, field_of, first_number, first_ratio, largest_jpeg, layout_of,
    make_model, metadata, metadata_of, numbers_of, orientation, orientation_of, pictured,
    private_ifd, private_of, read_numbers, read_text, strips_inside, text_in, ImageLayout,
    LayoutModel,
};
use crate::grid::{lemma_place_inverse, lemma_place_of};
use crate::raw::formats::crx::{ceil_div, div_up};
use crate::raw::formats::rw2::clamp16;
use crate::raw::frame::{full_scale, full_scale_of, plain_image, Gain, Ratio, RawImage, RawModel};
use crate::raw::image::{grbg, Cfa, CfaColor, CfaKind, CfaModel};
use crate::raw::ljpeg::{LosslessFrame, LosslessModel};
use crate::raw::tiff::{
    tiff_at, Entry, Ifd, IfdModel, Tiff, TiffModel, CFA_PATTERN, IMAGE_LENGTH, IMAGE_WIDTH,
    PHOTOMETRIC, SAMPLES_PER_PIXEL, STRIP_OFFSETS,
};
use crate::raw::{
    corrupt, deep_outcome, preview_outcome, unsupported, Error, Fault, Format, Outcome, Rect,
    Result,
};
use crate::text::{characters, decimal, push_decimal, trimmed};
use vstd::arithmetic::power2::{lemma2_to64, pow2};
use vstd::prelude::*;
use vstd::slice::slice_subrange;

verus! {

/// A sample looked up in a linearisation curve, the last entry standing
/// for whatever ran past its end.
pub open spec fn linearized(sample: u16, table: Seq<u16>) -> u16 {
    if sample < table.len() {
        table[sample as int]
    } else {
        table.last()
    }
}

/// Applies a linearisation curve in place, clamping indices that ran past
/// its end.
pub fn linearize(samples: &mut [u16], table: &[u16])
    requires
        table@.len() > 0,
    ensures
        final(samples)@ == old(samples)@.map_values(|s: u16| linearized(s, table@)),
{
    let ghost before = samples@;
    let last: u16 = table[table.len() - 1];
    let n: usize = samples.len();
    let mut i: usize = 0;
    while i < n
        invariant
            i <= n,
            n == samples@.len(),
            before.len() == n,
            table@.len() > 0,
            last == table@.last(),
            forall|j: int| 0 <= j < i ==> samples@[j] == linearized(before[j], table@),
            forall|j: int| i <= j < n ==> samples@[j] == before[j],
        decreases n - i,
    {
        let at: usize = samples[i] as usize;
        samples[i] = if at < table.len() {
            table[at]
        } else {
            last
        };
        i = i + 1;
    }
    assert(samples@ =~= before.map_values(|s: u16| linearized(s, table@)));
}

// ---------------------------------------------------------- 65000

/// The bytes of 16-bit big-endian words, each word's low byte first. What
/// the last word lacks is zero.
pub open spec fn pair_swapped(data: Seq<u8>) -> Seq<u8> {
    Seq::new(
        (data.len() + data.len() % 2) as nat,
        |i: int|
            if i % 2 == 1 {
                data[i - 1]
            } else if i + 1 < data.len() {
                data[i + 1]
            } else {
                0u8
            },
    )
}

fn swap_pairs(data: &[u8]) -> (out: Vec<u8>)
    ensures
        out@ == pair_swapped(data@),
{
    let mut out: Vec<u8> = Vec::new();
    let mut i: usize = 0;
    assert(data@.len() == data.len());
    while i < data.len()
        invariant
            i <= data@.len() + 1,
            i % 2 == 0,
            i <= data@.len() + data@.len() % 2,
            data@.len() <= usize::MAX,
            out@ == pair_swapped(data@).take(i as int),
        decreases data@.len() + 1 - i,
    {
        let low: u8 = if data.len() - i > 1 {
            data[i + 1]
        } else {
            0
        };
        out.push(low);
        out.push(data[i]);
        assert(out@ =~= pair_swapped(data@).take(i + 2));
        if data.len() - i <= 1 {
            assert(pair_swapped(data@).take(i + 2) =~= pair_swapped(data@));
            return out;
        }
        i = i + 2;
    }
    assert(pair_swapped(data@).take(i as int) =~= pair_swapped(data@));
    out
}

/// `a` brought into 32 bits by the nearest end.
pub open spec fn clamp32(a: int) -> int {
    if a < i32::MIN {
        i32::MIN as int
    } else if a > i32::MAX {
        i32::MAX as int
    } else {
        a
    }
}

/// The length field of pixel `i`: four bits, low half of a byte first.
pub open spec fn segment_length(data: Seq<u8>, i: int) -> int {
    if i % 2 == 0 {
        data[i / 2] as int % 16
    } else {
        data[i / 2] as int / 16
    }
}

/// Where the decoder of a segment stands.
pub struct SegmentRun {
    pub samples: Seq<u16>,
    /// The last value of each filter column.
    pub predictor: Seq<int>,
    pub rest: Seq<bool>,
}

/// The decoder of a segment of `n` pixels after its first `k`.
pub open spec fn segment_run(data: Seq<u8>, n: int, k: nat) -> SegmentRun
    decreases k,
{
    if k == 0 {
        SegmentRun {
            samples: Seq::empty(),
            predictor: seq![0, 0],
            rest: lsb_bits(pair_swapped(data.skip(ceil_div(n, 2)))),
        }
    } else {
        let run = segment_run(data, n, (k - 1) as nat);
        let length = segment_length(data, k - 1) as nat;
        let diff = category_value(low_word(run.rest, length) as int, length);
        let value = clamp32(run.predictor[(k - 1) % 2] + diff);
        SegmentRun {
            samples: run.samples.push(clamp16(value)),
            predictor: run.predictor.update((k - 1) % 2, value),
            rest: after(run.rest, length),
        }
    }
}

/// The first of the pixels from `k` on whose length is over twelve bits,
/// `n` when there is none.
pub open spec fn first_bad_length(data: Seq<u8>, n: int, k: int) -> int
    decreases n - k,
{
    if k >= n || segment_length(data, k) > 12 {
        k
    } else {
        first_bad_length(data, n, k + 1)
    }
}

/// Why a segment of `n` pixels cannot be decoded.
pub open spec fn segment_fault(data: Seq<u8>, n: int) -> Option<Fault> {
    let bad = first_bad_length(data, n, 0);
    if data.len() < ceil_div(n, 2) {
        Some(Fault::Corrupt("Kodak 65000 segment shorter than its length table"@))
    } else if bad < n {
        Some(
            Fault::Corrupt(
                "Kodak 65000 difference length "@ + decimal(segment_length(data, bad))
                    + " (the field is at most 12 bits)"@,
            ),
        )
    } else {
        None
    }
}

/// Kodak's "65000" compression, one segment at a time.
///
/// A segment of `n` pixels opens with one 4-bit length a pixel, low half of
/// a byte first. The differences follow, that many bits each, in a
/// bitstream of 16-bit **big-endian** words read from their **least**
/// significant end. A field's value is extended the way JPEG extends a
/// magnitude category. Each difference adds to the last pixel of the same
/// filter column, two back. The result is an index into the linearisation
/// curve, not a sample. What follows a length that is out of range keeps
/// the value it had.
pub fn decode_65000_segment(data: &[u8], out: &mut [u16]) -> (r: Result<()>)
    ensures
        match r {
            Ok(_) => segment_fault(data@, old(out)@.len() as int) is None && final(out)@
                == segment_run(data@, old(out)@.len() as int, old(out)@.len()).samples,
            Err(e) => segment_fault(data@, old(out)@.len() as int) == Some(e@) && final(out)@
                == if data@.len() < ceil_div(old(out)@.len() as int, 2) {
                old(out)@
            } else {
                let bad = first_bad_length(data@, old(out)@.len() as int, 0);
                segment_run(data@, old(out)@.len() as int, bad as nat).samples + old(out)@.skip(bad)
            },
        },
{
    let n: usize = out.len();
    let ghost before = out@;
    let table: usize = n / 2 + n % 2;
    assert(table == ceil_div(n as int, 2));
    if data.len() < table {
        return Err(corrupt("Kodak 65000 segment shorter than its length table"));
    }
    let stream = slice_subrange(data, table, data.len());
    assert(stream@ =~= data@.skip(table as int));
    let swapped = swap_pairs(stream);
    let mut pump = BitPumpLsb::new(swapped.as_slice());
    let mut even: i32 = 0;
    let mut odd: i32 = 0;
    let mut i: usize = 0;
    while i < n
        invariant
            i <= n,
            n == out@.len(),
            n == before.len(),
            before == old(out)@,
            table == n / 2 + n % 2,
            table <= data@.len(),
            table == ceil_div(n as int, 2),
            first_bad_length(data@, n as int, i as int) == first_bad_length(data@, n as int, 0),
            ({
                let run = segment_run(data@, n as int, i as nat);
                &&& run.samples == out@.take(i as int)
                &&& run.predictor == seq![even as int, odd as int]
                &&& run.rest == pump.rest()
            }),
            forall|j: int| i <= j < n ==> out@[j] == before[j],
        decreases n - i,
    {
        let byte: u8 = data[i / 2];
        let length: u32 = if i % 2 == 0 {
            (byte % 16) as u32
        } else {
            (byte / 16) as u32
        };
        if length > 12 {
            let mut text = "Kodak 65000 difference length ".to_string();
            push_decimal(&mut text, length as u64);
            text.append(" (the field is at most 12 bits)");
            assert(out@ =~= out@.take(i as int) + before.skip(i as int));
            return Err(Error::Corrupt(text));
        }
        let value: u32 = pump.get(length);
        let diff: i32 = from_category(value, length);
        let last: i32 = if i % 2 == 0 {
            even
        } else {
            odd
        };
        let sum: i64 = last as i64 + diff as i64;
        let kept: i32 = if sum < i32::MIN as i64 {
            i32::MIN
        } else if sum > i32::MAX as i64 {
            i32::MAX
        } else {
            sum as i32
        };
        if i % 2 == 0 {
            even = kept;
        } else {
            odd = kept;
        }
        let ghost was = out@;
        out[i] = if kept < 0 {
            0
        } else if kept > 0xffff {
            0xffff
        } else {
            kept as u16
        };
        i = i + 1;
        proof {
            let run = segment_run(data@, n as int, i as nat);
            assert(run.predictor =~= seq![even as int, odd as int]);
            assert(out@.take(i as int) =~= was.take(i - 1).push(out@[i - 1]));
        }
    }
    assert(out@.take(n as int) =~= out@);
    Ok(())
}

/// The difference that pixel `i` of a segment is written as: from the last
/// pixel of the same filter column, two back, or from zero.
pub open spec fn segment_difference(pixels: Seq<u16>, i: int) -> int {
    pixels[i] - if i >= 2 {
        pixels[i - 2] as int
    } else {
        0
    }
}

/// The differences of a segment from pixel `i` on, and then `tail`: each in
/// as many bits as lossless JPEG spends on it, from the bottom.
pub open spec fn written_segment(pixels: Seq<u16>, i: nat, tail: Seq<bool>) -> Seq<bool>
    decreases pixels.len() - i,
{
    if i >= pixels.len() {
        tail
    } else {
        let diff = segment_difference(pixels, i as int);
        low_bits_of(category_code(diff), category_of(diff)) + written_segment(pixels, i + 1, tail)
    }
}

/// The stream of a segment is the bits of its big-endian words, each from
/// its bottom.
pub proof fn law_segment_streams_are_their_words(data: Seq<u8>, k: int)
    requires
        0 <= k,
        2 * k + 2 <= data.len(),
    ensures
        lsb_bits(pair_swapped(data)).subrange(16 * k, 16 * k + 16) == low_bits_of(
            0x100 * data[2 * k] + data[2 * k + 1],
            16,
        ),
{
    let (high, low) = (data[2 * k] as int, data[2 * k + 1] as int);
    let swapped = pair_swapped(data);
    let bits = lsb_bits(swapped);
    law_streams_are_their_bytes(swapped, 2 * k);
    law_streams_are_their_bytes(swapped, 2 * k + 1);
    lemma2_to64();
    lemma_low_bits_of_parts(high, low, 8, 8);
    assert(high * pow2(8) + low == 0x100 * high + low) by {
        assert(pow2(8) == 0x100);
    }
    assert(bits.subrange(16 * k, 16 * k + 16) =~= bits.subrange(16 * k, 16 * k + 8)
        + bits.subrange(16 * k + 8, 16 * k + 16));
    assert(swapped[2 * k] == data[2 * k + 1] && swapped[2 * k + 1] == data[2 * k]);
    assert(8 * (2 * k) == 16 * k && 8 * (2 * k + 1) == 16 * k + 8);
}

proof fn lemma_segment_is_read(pixels: Seq<u16>, data: Seq<u8>, tail: Seq<bool>, k: nat)
    requires
        k <= pixels.len(),
        forall|i: int|
            0 <= i < pixels.len() ==> segment_length(data, i) == category_of(
                #[trigger] segment_difference(pixels, i),
            ),
        lsb_bits(pair_swapped(data.skip(ceil_div(pixels.len() as int, 2)))) == written_segment(
            pixels,
            0,
            tail,
        ),
    ensures
        ({
            let run = segment_run(data, pixels.len() as int, k);
            &&& run.samples == pixels.take(k as int)
            &&& run.predictor.len() == 2
            &&& k >= 1 ==> run.predictor[(k - 1) % 2] == pixels[k - 1]
            &&& run.predictor[k as int % 2] == if k >= 2 {
                pixels[k - 2] as int
            } else {
                0
            }
            &&& k == 0 ==> run.predictor[1] == 0
            &&& run.rest == written_segment(pixels, k, tail)
        }),
    decreases k,
{
    if k == 0 {
        assert(pixels.take(0) =~= Seq::empty());
    } else {
        let m = (k - 1) as nat;
        lemma_segment_is_read(pixels, data, tail, m);
        let diff = segment_difference(pixels, m as int);
        law_categories_are_read_back(diff);
        law_low_numbers_are_read_back(
            category_code(diff),
            category_of(diff),
            written_segment(pixels, k, tail),
        );
        assert((m + 1) as int % 2 != m as int % 2);
        assert((m - 1) % 2 == (m + 1) as int % 2);
        assert(pixels.take(k as int) =~= pixels.take(m as int).push(pixels[m as int]));
    }
}

proof fn lemma_no_bad_length(data: Seq<u8>, n: int, k: int)
    requires
        0 <= k <= n,
        forall|i: int| k <= i < n ==> #[trigger] segment_length(data, i) <= 12,
    ensures
        first_bad_length(data, n, k) == n,
    decreases n - k,
{
    if k < n {
        assert(segment_length(data, k) <= 12);
        lemma_no_bad_length(data, n, k + 1);
    }
}

/// A segment undoes its writing: pixels whose differences take at most
/// twelve bits are read back from their lengths, two to a byte from the
/// bottom, and their differences after them.
pub proof fn law_a_segment_undoes_its_writing(pixels: Seq<u16>, data: Seq<u8>, tail: Seq<bool>)
    requires
        data.len() >= (pixels.len() + 1) / 2,
        forall|i: int|
            0 <= i < pixels.len() ==> category_of(#[trigger] segment_difference(pixels, i)) <= 12,
        forall|i: int|
            0 <= i < pixels.len() ==> category_of(#[trigger] segment_difference(pixels, i)) == if i
                % 2 == 0 {
                data[i / 2] as int % 16
            } else {
                data[i / 2] as int / 16
            },
        lsb_bits(pair_swapped(data.skip((pixels.len() as int + 1) / 2))) == written_segment(
            pixels,
            0,
            tail,
        ),
    ensures
        segment_fault(data, pixels.len() as int) is None,
        segment_run(data, pixels.len() as int, pixels.len()).samples == pixels,
{
    let n = pixels.len() as int;
    assert(ceil_div(n, 2) == (n + 1) / 2);
    assert forall|i: int| 0 <= i < n implies #[trigger] segment_length(data, i) <= 12 by {
        assert(category_of(segment_difference(pixels, i)) <= 12);
    }
    lemma_no_bad_length(data, n, 0);
    lemma_segment_is_read(pixels, data, tail, pixels.len());
    assert(pixels.take(n) =~= pixels);
}

/// Where segment `index` lies in the strip: the table holds the segments'
/// ends, the first one starting at zero.
pub open spec fn segment_start(offsets: Seq<u32>, index: int) -> int {
    if index == 0 {
        0
    } else {
        offsets[index - 1] as int
    }
}

/// The pixels of segment `s` of a row.
pub open spec fn segment_pixels(width: int, segment: int, s: int) -> int {
    if (s + 1) * segment <= width {
        segment
    } else {
        width - s * segment
    }
}

/// The samples of the first `n` segments, row by row, or the fault of the
/// first one that cannot be decoded.
pub open spec fn segments(
    strip: Seq<u8>,
    offsets: Seq<u32>,
    width: int,
    segment: int,
    n: nat,
) -> Outcome<Seq<u16>>
    decreases n,
{
    if n == 0 {
        Ok(Seq::empty())
    } else {
        match segments(strip, offsets, width, segment, (n - 1) as nat) {
            Err(e) => Err(e),
            Ok(before) => {
                let index = n - 1;
                let start = segment_start(offsets, index);
                let end = offsets[index] as int;
                if end < start || end > strip.len() {
                    Err(
                        Fault::Corrupt(
                            "Kodak 65000 segment "@ + decimal(index) + " spans "@ + decimal(start)
                                + ".."@ + decimal(end) + " of a "@ + decimal(strip.len() as int)
                                + "-byte strip"@,
                        ),
                    )
                } else {
                    let count = segment_pixels(width, segment, index % ceil_div(width, segment));
                    let data = strip.subrange(start, end);
                    match segment_fault(data, count) {
                        Some(fault) => Err(fault),
                        None => Ok(before + segment_run(data, count, count as nat).samples),
                    }
                }
            },
        }
    }
}

/// A whole 65000 frame.
pub open spec fn frame_65000(
    strip: Seq<u8>,
    segment: Option<u32>,
    offsets: Option<Seq<u32>>,
    width: int,
    height: int,
) -> Outcome<Seq<u16>> {
    match segment {
        None => Err(Fault::Corrupt("Kodak 65000 image without a segment width"@)),
        Some(segment) => if segment == 0 {
            Err(Fault::Corrupt("Kodak 65000 image without a segment width"@))
        } else {
            match offsets {
                None => Err(
                    Fault::Corrupt("Kodak 65000 image without a segment offset table"@),
                ),
                Some(offsets) => {
                    let wanted = ceil_div(width, segment as int) * height;
                    if width == 0 {
                        Err(Fault::Corrupt("Kodak 65000 image without columns"@))
                    } else if offsets.len() < wanted {
                        Err(
                            Fault::Corrupt(
                                "Kodak 65000 offset table holds "@ + decimal(offsets.len() as int)
                                    + " entries, want "@ + decimal(wanted),
                            ),
                        )
                    } else {
                        segments(strip, offsets, width, segment as int, wanted as nat)
                    }
                },
            }
        },
    }
}

proof fn lemma_segments_fault(
    strip: Seq<u8>,
    offsets: Seq<u32>,
    width: int,
    segment: int,
    a: nat,
    b: nat,
)
    requires
        a <= b,
        segments(strip, offsets, width, segment, a) is Err,
    ensures
        segments(strip, offsets, width, segment, b) == segments(
            strip,
            offsets,
            width,
            segment,
            a,
        ),
    decreases b - a,
{
    if a < b {
        lemma_segments_fault(strip, offsets, width, segment, a, (b - 1) as nat);
    }
}

/// Segments of a row: at least one, each with a pixel.
proof fn lemma_segments_of_row(width: int, segment: int)
    requires
        0 < width,
        0 < segment,
    ensures
        0 < ceil_div(width, segment) <= width,
        forall|s: int|
            0 <= s < ceil_div(width, segment) ==> 0 <= s * segment && 0
                < #[trigger] segment_pixels(width, segment, s) <= width,
{
    vstd::arithmetic::div_mod::lemma_fundamental_div_mod(width, segment);
    vstd::arithmetic::div_mod::lemma_mod_bound(width, segment);
    vstd::arithmetic::div_mod::lemma_div_pos_is_pos(width, segment);
    let q = width / segment;
    assert(q <= segment * q) by (nonlinear_arith)
        requires
            0 <= q,
            0 < segment,
    ;
    if q == 0 {
        assert(segment * q == 0) by (nonlinear_arith)
            requires
                q == 0,
        ;
    }
    assert forall|s: int| 0 <= s < ceil_div(width, segment) implies 0 <= s * segment && 0
        < #[trigger] segment_pixels(width, segment, s) <= width by {
        assert(0 <= s * segment) by (nonlinear_arith)
            requires
                0 <= s,
                0 < segment,
        ;
        assert((s + 1) * segment == s * segment + segment) by (nonlinear_arith);
        assert(s * segment <= segment * q) by (nonlinear_arith)
            requires
                s <= q,
                0 < segment,
        ;
        if s < q {
            assert((s + 1) * segment <= segment * q) by (nonlinear_arith)
                requires
                    s + 1 <= q,
                    0 < segment,
            ;
        } else {
            assert(s * segment == segment * q) by (nonlinear_arith)
                requires
                    s == q,
            ;
        }
    }
}

/// A whole 65000 frame: the image directory names the segment width and
/// carries a table of segment *end* offsets relative to the strip.
pub fn decode_65000(
    strip: &[u8],
    segment: Option<u32>,
    offsets: Option<&[u32]>,
    width: usize,
    height: usize,
) -> (r: Result<Vec<u16>>)
    requires
        width * height <= usize::MAX,
    ensures
        deep_outcome(r) == frame_65000(
            strip@,
            segment,
            match offsets {
                Some(table) => Some(table@),
                None => None,
            },
            width as int,
            height as int,
        ),
{
    let step: usize = match segment {
        Some(step) if step > 0 => step as usize,
        _ => return Err(corrupt("Kodak 65000 image without a segment width")),
    };
    let ends: &[u32] = match offsets {
        Some(ends) => ends,
        None => return Err(corrupt("Kodak 65000 image without a segment offset table")),
    };
    if width == 0 {
        return Err(corrupt("Kodak 65000 image without columns"));
    }
    let per_row: usize = div_up(width, step);
    let ghost (w, h, g) = (width as int, height as int, step as int);
    proof {
        lemma_segments_of_row(w, g);
        assert(per_row * h <= w * h) by (nonlinear_arith)
            requires
                per_row <= w,
                0 <= h,
        ;
        assert(0 <= per_row * h) by (nonlinear_arith)
            requires
                0 <= per_row,
                0 <= h,
        ;
    }
    let wanted: usize = per_row * height;
    if ends.len() < wanted {
        let mut text = "Kodak 65000 offset table holds ".to_string();
        push_decimal(&mut text, ends.len() as u64);
        text.append(" entries, want ");
        push_decimal(&mut text, wanted as u64);
        return Err(Error::Corrupt(text));
    }
    let ghost goal = frame_65000(
        strip@,
        segment,
        match offsets {
            Some(table) => Some(table@),
            None => None,
        },
        w,
        h,
    );
    let ghost all = segments(strip@, ends@, w, g, wanted as nat);
    let mut out: Vec<u16> = Vec::new();
    let mut index: usize = 0;
    while index < wanted
        invariant
            index <= wanted <= ends@.len(),
            0 < w,
            0 < g,
            w == width,
            g == step,
            per_row == ceil_div(w, g),
            0 < per_row,
            forall|s: int|
                0 <= s < per_row ==> 0 <= s * g && 0 < #[trigger] segment_pixels(w, g, s) <= w,
            all == segments(strip@, ends@, w, g, wanted as nat),
            all == goal,
            goal == frame_65000(
                strip@,
                segment,
                match offsets {
                    Some(table) => Some(table@),
                    None => None,
                },
                width as int,
                height as int,
            ),
            segments(strip@, ends@, w, g, index as nat) == Outcome::<Seq<u16>>::Ok(out@),
        decreases wanted - index,
    {
        let start: usize = if index == 0 {
            0
        } else {
            ends[index - 1] as usize
        };
        let end: usize = ends[index] as usize;
        proof {
            if segments(strip@, ends@, w, g, (index + 1) as nat) is Err {
                lemma_segments_fault(
                    strip@,
                    ends@,
                    w,
                    g,
                    (index + 1) as nat,
                    wanted as nat,
                );
            }
        }
        if end < start || end > strip.len() {
            let mut text = "Kodak 65000 segment ".to_string();
            push_decimal(&mut text, index as u64);
            text.append(" spans ");
            push_decimal(&mut text, start as u64);
            text.append("..");
            push_decimal(&mut text, end as u64);
            text.append(" of a ");
            push_decimal(&mut text, strip.len() as u64);
            text.append("-byte strip");
            return Err(Error::Corrupt(text));
        }
        let s: usize = index % per_row;
        proof {
            assert(0 < segment_pixels(w, g, s as int) <= w);
            assert((s + 1) * g == s * g + g) by (nonlinear_arith);
            lemma_segment_first(w, g, s as int);
        }
        let first: usize = s * step;
        let count: usize = if step <= width - first {
            step
        } else {
            width - first
        };
        let data = slice_subrange(strip, start, end);
        let mut part: Vec<u16> = vec![0u16; count];
        if let Err(e) = decode_65000_segment(data, part.as_mut_slice()) {
            return Err(e);
        }
        out.append(&mut part);
        index = index + 1;
    }
    Ok(out)
}

proof fn lemma_segment_first(width: int, segment: int, s: int)
    requires
        0 < width,
        0 < segment,
        0 <= s < ceil_div(width, segment),
    ensures
        0 <= s * segment <= width,
{
    lemma_segments_of_row(width, segment);
    assert(0 < segment_pixels(width, segment, s));
    assert((s + 1) * segment == s * segment + segment) by (nonlinear_arith);
}

proof fn lemma_run_length(data: Seq<u8>, n: int, k: nat)
    ensures
        segment_run(data, n, k).samples.len() == k,
    decreases k,
{
    if k > 0 {
        lemma_run_length(data, n, (k - 1) as nat);
    }
}

/// The segments of a row up to one are each full, and the last one ends
/// the row.
proof fn lemma_segment_ends(width: int, segment: int, s: int)
    requires
        0 < width,
        0 < segment,
        0 <= s < ceil_div(width, segment),
    ensures
        s + 1 < ceil_div(width, segment) ==> segment_pixels(width, segment, s) == segment,
        s + 1 == ceil_div(width, segment) ==> s * segment + segment_pixels(width, segment, s)
            == width,
{
    vstd::arithmetic::div_mod::lemma_fundamental_div_mod(width, segment);
    vstd::arithmetic::div_mod::lemma_mod_bound(width, segment);
    let q = width / segment;
    assert((s + 1) * segment == s * segment + segment) by (nonlinear_arith);
    assert(s + 1 <= q ==> (s + 1) * segment <= segment * q) by (nonlinear_arith)
        requires
            0 < segment,
    ;
    assert(s + 1 == q ==> (s + 1) * segment == segment * q) by (nonlinear_arith);
    assert(s == q ==> s * segment == segment * q) by (nonlinear_arith);
}

/// Where segment `s` of row `y` is in the table of segments.
pub open spec fn segment_index(width: int, segment: int, y: int, s: int) -> int {
    y * ceil_div(width, segment) + s
}

proof fn lemma_segments_length(
    strip: Seq<u8>,
    offsets: Seq<u32>,
    width: int,
    segment: int,
    y: int,
    s: int,
)
    requires
        0 < width,
        0 < segment,
        0 <= y,
        0 <= s < ceil_div(width, segment),
        segments(strip, offsets, width, segment, segment_index(width, segment, y, s) as nat) is Ok,
    ensures
        0 <= segment_index(width, segment, y, s),
        segments(
            strip,
            offsets,
            width,
            segment,
            segment_index(width, segment, y, s) as nat,
        )->Ok_0.len() == y * width + s * segment,
    decreases y, s,
{
    let per = ceil_div(width, segment);
    let n = segment_index(width, segment, y, s);
    lemma_segments_of_row(width, segment);
    assert(0 <= y * per) by (nonlinear_arith)
        requires
            0 <= y,
            0 <= per,
    ;
    if s > 0 {
        assert(n - 1 == segment_index(width, segment, y, s - 1));
        lemma_segment_added(strip, offsets, width, segment, y, s - 1);
        lemma_segments_length(strip, offsets, width, segment, y, s - 1);
        assert((s - 1) * segment + segment == s * segment) by (nonlinear_arith);
    } else if y > 0 {
        assert((y - 1) * per + per == y * per) by (nonlinear_arith);
        assert(n - 1 == segment_index(width, segment, y - 1, per - 1));
        lemma_segment_added(strip, offsets, width, segment, y - 1, per - 1);
        lemma_segments_length(strip, offsets, width, segment, y - 1, per - 1);
        assert((y - 1) * width + width == y * width) by (nonlinear_arith);
        assert(0 * segment == 0);
    } else {
        assert(0 * per == 0 && 0 * width == 0 && 0 * segment == 0);
    }
}

/// What one segment adds.
proof fn lemma_segment_added(
    strip: Seq<u8>,
    offsets: Seq<u32>,
    width: int,
    segment: int,
    y: int,
    s: int,
)
    requires
        0 < width,
        0 < segment,
        0 <= y,
        0 <= s < ceil_div(width, segment),
        segments(
            strip,
            offsets,
            width,
            segment,
            (segment_index(width, segment, y, s) + 1) as nat,
        ) is Ok,
    ensures
        ({
            let n = segment_index(width, segment, y, s);
            let count = segment_pixels(width, segment, s);
            let data = strip.subrange(segment_start(offsets, n), offsets[n] as int);
            let before = segments(strip, offsets, width, segment, n as nat);
            &&& 0 <= n
            &&& before is Ok
            &&& segments(strip, offsets, width, segment, (n + 1) as nat) == Outcome::<Seq<u16>>::Ok(
                before->Ok_0 + segment_run(data, count, count as nat).samples,
            )
            &&& segment_run(data, count, count as nat).samples.len() == count
            &&& s + 1 < ceil_div(width, segment) ==> count == segment
            &&& s + 1 == ceil_div(width, segment) ==> s * segment + count == width
        }),
{
    let per = ceil_div(width, segment);
    let n = segment_index(width, segment, y, s);
    lemma_segments_of_row(width, segment);
    lemma_segment_ends(width, segment, s);
    assert(0 <= y * per) by (nonlinear_arith)
        requires
            0 <= y,
            0 <= per,
    ;
    vstd::arithmetic::div_mod::lemma_fundamental_div_mod_converse(n, per, y, s);
    let count = segment_pixels(width, segment, s);
    assert(0 < count);
    let data = strip.subrange(segment_start(offsets, n), offsets[n] as int);
    lemma_run_length(data, count, count as nat);
}

/// The segments of a frame of this kind fill it, and each stands alone: a
/// frame that decodes has all its samples, and those of a segment are what
/// its own bytes decode to.
pub proof fn law_segments_stand_alone(
    strip: Seq<u8>,
    offsets: Seq<u32>,
    width: int,
    segment: u32,
    height: int,
    y: int,
    s: int,
)
    requires
        0 < width,
        frame_65000(strip, Some(segment), Some(offsets), width, height) is Ok,
        0 <= y < height,
        0 <= s < ceil_div(width, segment as int),
    ensures
        ({
            let frame = frame_65000(strip, Some(segment), Some(offsets), width, height)->Ok_0;
            let n = segment_index(width, segment as int, y, s);
            let count = segment_pixels(width, segment as int, s);
            let at = y * width + s * segment;
            &&& frame.len() == height * width
            &&& 0 <= at
            &&& at + count <= frame.len()
            &&& frame.subrange(at, at + count) == segment_run(
                strip.subrange(segment_start(offsets, n), offsets[n] as int),
                count,
                count as nat,
            ).samples
        }),
{
    let step = segment as int;
    let per = ceil_div(width, step);
    let n = segment_index(width, step, y, s);
    let wanted = per * height;
    lemma_segments_of_row(width, step);
    assert(height * per == per * height) by (nonlinear_arith);
    assert(0 <= y * per && y * per + per <= per * height) by (nonlinear_arith)
        requires
            0 <= y,
            y + 1 <= height,
            0 < per,
    ;
    let all = segments(strip, offsets, width, step, wanted as nat);
    lemma_segments_keep(strip, offsets, width, step, (n + 1) as nat, wanted as nat);
    lemma_segment_added(strip, offsets, width, step, y, s);
    lemma_segments_length(strip, offsets, width, step, y, s);
    lemma_segments_length(strip, offsets, width, step, height, 0);
    assert(0 * step == 0);
    assert(0 <= y * width && 0 <= s * step) by (nonlinear_arith)
        requires
            0 <= y,
            0 < width,
            0 <= s,
            0 < step,
    ;
    let count = segment_pixels(width, step, s);
    let at = y * width + s * step;
    let part = segments(strip, offsets, width, step, (n + 1) as nat)->Ok_0;
    let data = strip.subrange(segment_start(offsets, n), offsets[n] as int);
    assert(part.subrange(at, at + count) =~= segment_run(data, count, count as nat).samples);
    assert(all->Ok_0.subrange(at, at + count) =~= part.subrange(at, at + count));
}

/// More segments leave the samples of fewer in front.
proof fn lemma_segments_keep(
    strip: Seq<u8>,
    offsets: Seq<u32>,
    width: int,
    segment: int,
    a: nat,
    b: nat,
)
    requires
        a <= b,
        segments(strip, offsets, width, segment, b) is Ok,
    ensures
        segments(strip, offsets, width, segment, a) is Ok,
        segments(strip, offsets, width, segment, a)->Ok_0.is_prefix_of(
            segments(strip, offsets, width, segment, b)->Ok_0,
        ),
    decreases b - a,
{
    if a < b {
        lemma_segments_keep(strip, offsets, width, segment, a, (b - 1) as nat);
    }
}

/// Whether a piece of the strip holds the pixels of a segment: their
/// lengths, two to a byte, and then their differences.
pub open spec fn holds_segment(data: Seq<u8>, pixels: Seq<u16>, tail: Seq<bool>) -> bool {
    &&& data.len() >= (pixels.len() + 1) / 2
    &&& forall|i: int|
        0 <= i < pixels.len() ==> category_of(#[trigger] segment_difference(pixels, i)) <= 12
            && category_of(segment_difference(pixels, i)) == if i % 2 == 0 {
            data[i / 2] as int % 16
        } else {
            data[i / 2] as int / 16
        }
    &&& lsb_bits(pair_swapped(data.skip((pixels.len() as int + 1) / 2))) == written_segment(
        pixels,
        0,
        tail,
    )
}

/// Whether a strip holds a frame, segment by segment: each row in pieces of
/// `segment` pixels, the last as many as are left, and the table holding
/// where each piece ends.
pub open spec fn holds_frame(
    strip: Seq<u8>,
    offsets: Seq<u32>,
    frame: Seq<u16>,
    width: int,
    segment: int,
    height: int,
    tails: spec_fn(int) -> Seq<bool>,
) -> bool {
    let per = (width + segment - 1) / segment;
    &&& frame.len() == width * height
    &&& offsets.len() >= per * height
    &&& forall|n: int|
        0 <= n < per * height ==> ({
            let start = if n == 0 {
                0
            } else {
                offsets[n - 1] as int
            };
            let at = n / per * width + n % per * segment;
            let count = if n % per == per - 1 {
                width - n % per * segment
            } else {
                segment
            };
            &&& start <= offsets[n] <= strip.len()
            &&& holds_segment(
                strip.subrange(start, offsets[n] as int),
                frame.subrange(at, at + count),
                #[trigger] tails(n),
            )
        })
}

proof fn lemma_frame_is_held(
    strip: Seq<u8>,
    offsets: Seq<u32>,
    frame: Seq<u16>,
    width: int,
    segment: int,
    height: int,
    tails: spec_fn(int) -> Seq<bool>,
    n: nat,
)
    requires
        0 < width,
        0 < segment,
        0 < height,
        n <= ceil_div(width, segment) * height,
        holds_frame(strip, offsets, frame, width, segment, height, tails),
    ensures
        segments(strip, offsets, width, segment, n) is Ok,
        n > 0 ==> ({
            let index = n - 1;
            let per = ceil_div(width, segment);
            let (y, s) = (index / per, index % per);
            let at = y * width + s * segment;
            let count = segment_pixels(width, segment, s);
            let data = strip.subrange(segment_start(offsets, index), offsets[index] as int);
            &&& 0 <= y < height
            &&& 0 <= s < per
            &&& 0 <= at
            &&& at + count <= frame.len()
            &&& segment_run(data, count, count as nat).samples == frame.subrange(at, at + count)
        }),
    decreases n,
{
    let per = ceil_div(width, segment);
    lemma_segments_of_row(width, segment);
    lemma_ceil(width, segment);
    if n > 0 {
        let index = n - 1;
        lemma_frame_is_held(
            strip,
            offsets,
            frame,
            width,
            segment,
            height,
            tails,
            index as nat,
        );
        let (y, s) = (index / per, index % per);
        assert(0 <= y < height && 0 <= s < per) by (nonlinear_arith)
            requires
                y == index / per,
                s == index % per,
                0 <= index < per * height,
                0 < per,
        ;
        let count = segment_pixels(width, segment, s);
        let at = y * width + s * segment;
        lemma_segment_fits(width, segment, s);
        assert(0 <= y * width && y * width + width <= width * height) by (nonlinear_arith)
            requires
                0 <= y < height,
                0 < width,
        ;
        assert(0 <= s * segment) by (nonlinear_arith)
            requires
                0 <= s,
                0 < segment,
        ;
        let data = strip.subrange(segment_start(offsets, index), offsets[index] as int);
        let pixels = frame.subrange(at, at + count);
        assert(holds_segment(data, pixels, tails(index)));
        law_a_segment_undoes_its_writing(pixels, data, tails(index));
        assert(pixels.len() == count);
    }
}

proof fn lemma_ceil(width: int, segment: int)
    requires
        0 < width,
        0 < segment,
    ensures
        ceil_div(width, segment) == (width + segment - 1) / segment,
        width <= ceil_div(width, segment) * segment,
{
    let (q, r) = (width / segment, width % segment);
    vstd::arithmetic::div_mod::lemma_fundamental_div_mod(width, segment);
    assert(0 <= r < segment) by (nonlinear_arith)
        requires
            r == width % segment,
            0 < segment,
    ;
    assert((q + 1) * segment == segment * q + segment) by (nonlinear_arith);
    assert(q * segment == segment * q) by (nonlinear_arith);
    if r == 0 {
        vstd::arithmetic::div_mod::lemma_fundamental_div_mod_converse(
            width + segment - 1,
            segment,
            q,
            segment - 1,
        );
    } else {
        vstd::arithmetic::div_mod::lemma_fundamental_div_mod_converse(
            width + segment - 1,
            segment,
            q + 1,
            r - 1,
        );
    }
}

proof fn lemma_segment_fits(width: int, segment: int, s: int)
    requires
        0 < width,
        0 < segment,
        0 <= s < ceil_div(width, segment),
    ensures
        0 < segment_pixels(width, segment, s) <= segment,
        s * segment + segment_pixels(width, segment, s) <= width,
        segment_pixels(width, segment, s) == if s == ceil_div(width, segment) - 1 {
            width - s * segment
        } else {
            segment
        },
{
    let (q, r) = (width / segment, width % segment);
    vstd::arithmetic::div_mod::lemma_fundamental_div_mod(width, segment);
    assert(0 <= r < segment) by (nonlinear_arith)
        requires
            r == width % segment,
            0 < segment,
    ;
    assert(q * segment == segment * q && (s + 1) * segment == s * segment + segment)
        by (nonlinear_arith);
    if s + 1 <= q {
        assert((s + 1) * segment <= q * segment) by (nonlinear_arith)
            requires
                s + 1 <= q,
                0 < segment,
        ;
        if s + 1 < q {
            assert((s + 2) * segment <= q * segment && (s + 2) * segment == s * segment + 2
                * segment) by (nonlinear_arith)
                requires
                    s + 2 <= q,
                    0 < segment,
            ;
        }
    }
}

/// A frame of segments undoes its writing.
pub proof fn law_segments_undo_their_writing(
    strip: Seq<u8>,
    offsets: Seq<u32>,
    frame: Seq<u16>,
    width: int,
    segment: u32,
    height: int,
    tails: spec_fn(int) -> Seq<bool>,
)
    requires
        0 < width,
        0 < segment,
        0 < height,
        holds_frame(strip, offsets, frame, width, segment as int, height, tails),
    ensures
        frame_65000(strip, Some(segment), Some(offsets), width, height) == Outcome::<Seq<u16>>::Ok(
            frame,
        ),
{
    let step = segment as int;
    let per = ceil_div(width, step);
    lemma_ceil(width, step);
    lemma_segments_of_row(width, step);
    assert(0 <= per * height) by (nonlinear_arith)
        requires
            0 < per,
            0 < height,
    ;
    lemma_frame_is_held(
        strip,
        offsets,
        frame,
        width,
        step,
        height,
        tails,
        (per * height) as nat,
    );
    let read = frame_65000(strip, Some(segment), Some(offsets), width, height)->Ok_0;
    law_segments_stand_alone(strip, offsets, width, segment, height, 0, 0);
    assert(height * width == width * height) by (nonlinear_arith);
    assert forall|i: int| 0 <= i < frame.len() implies read[i] == frame[i] by {
        lemma_place_of(width, height, i);
        let (y, x) = (i / width, i % width);
        let s = x / step;
        vstd::arithmetic::div_mod::lemma_fundamental_div_mod(x, step);
        vstd::arithmetic::div_mod::lemma_fundamental_div_mod(width, step);
        assert(0 <= s && 0 <= x % step < step) by (nonlinear_arith)
            requires
                s == x / step,
                0 <= x,
                0 < step,
        ;
        assert(s * step == step * s) by (nonlinear_arith);
        assert(s < per) by (nonlinear_arith)
            requires
                s * step <= x < width,
                0 < step,
                width <= per * step,
        ;
        law_segments_stand_alone(strip, offsets, width, segment, height, y, s);
        let n = segment_index(width, step, y, s);
        lemma_place_inverse(per, y, s);
        assert(0 <= y * per && n + 1 <= per * height) by (nonlinear_arith)
            requires
                n == y * per + s,
                0 <= y < height,
                0 <= s < per,
        ;
        lemma_frame_is_held(strip, offsets, frame, width, step, height, tails, (n + 1) as nat);
        lemma_segment_fits(width, step, s);
        let count = segment_pixels(width, step, s);
        let at = y * width + s * step;
        let j = x - s * step;
        assert(0 <= j < count);
        assert(read.subrange(at, at + count)[j] == frame.subrange(at, at + count)[j]);
    }
    assert(read =~= frame);
}

// ---------------------------------------------------------- packing

/// Sample `i` of 12-bit samples packed two to three bytes.
pub open spec fn packed12(data: Seq<u8>, i: int) -> u16 {
    let t = i / 2 * 3;
    if i % 2 == 0 {
        (data[t] * 16 + data[t + 1] / 16) as u16
    } else {
        (data[t + 1] % 16 * 256 + data[t + 2]) as u16
    }
}

/// Samples stored without compression.
pub open spec fn unpacked(data: Seq<u8>, pixels: int, bits: int, little: bool) -> Outcome<
    Seq<u16>,
> {
    if bits == 8 {
        if data.len() < pixels {
            Err(Fault::Corrupt("Kodak frame shorter than its 8-bit samples"@))
        } else {
            Ok(Seq::new(pixels as nat, |i: int| data[i] as u16))
        }
    } else if bits == 12 {
        let need = ceil_div(pixels, 2) * 3;
        if need > usize::MAX {
            Err(Fault::Corrupt("Kodak frame too large"@))
        } else if data.len() < need {
            Err(
                Fault::Corrupt(
                    "Kodak frame holds "@ + decimal(data.len() as int)
                        + " bytes of 12-bit samples, want "@ + decimal(need),
                ),
            )
        } else {
            Ok(Seq::new(pixels as nat, |i: int| packed12(data, i)))
        }
    } else if bits == 16 {
        if data.len() as int / 2 < pixels {
            Err(Fault::Corrupt("Kodak frame shorter than its 16-bit samples"@))
        } else {
            Ok(Seq::new(pixels as nat, |i: int| word16(data, 2 * i, little) as u16))
        }
    } else {
        Err(Fault::Unsupported("Kodak frame with "@ + decimal(bits) + "-bit samples"@))
    }
}

/// Samples stored without compression are read back: one byte each; two of
/// twelve bits to three bytes, the upper bits first; or two bytes each in
/// the file's order.
pub proof fn law_stored_samples_are_read_back(
    samples: Seq<u16>,
    data: Seq<u8>,
    bits: int,
    little: bool,
)
    requires
        samples.len() * 3 < usize::MAX,
        bits == 8 ==> data.len() >= samples.len() && forall|i: int|
            0 <= i < samples.len() ==> data[i] == #[trigger] samples[i],
        bits == 12 ==> data.len() >= (samples.len() + 1) / 2 * 3 && forall|i: int|
            0 <= i < samples.len() ==> (#[trigger] samples[i]) < 0x1000 && if i % 2 == 0 {
                data[i / 2 * 3] == samples[i] / 16 && data[i / 2 * 3 + 1] / 16 == samples[i] % 16
            } else {
                data[i / 2 * 3 + 1] % 16 == samples[i] / 0x100 && data[i / 2 * 3 + 2] == samples[i]
                    % 0x100
            },
        bits == 16 ==> data.len() >= 2 * samples.len() && forall|i: int|
            0 <= i < samples.len() ==> if little {
                data[2 * i] == (#[trigger] samples[i]) % 0x100 && data[2 * i + 1] == samples[i]
                    / 0x100
            } else {
                data[2 * i] == samples[i] / 0x100 && data[2 * i + 1] == samples[i] % 0x100
            },
        bits == 8 || bits == 12 || bits == 16,
    ensures
        unpacked(data, samples.len() as int, bits, little) == Outcome::<Seq<u16>>::Ok(samples),
{
    let n = samples.len() as int;
    assert(ceil_div(n, 2) == (n + 1) / 2);
    let read = unpacked(data, n, bits, little)->Ok_0;
    assert forall|i: int| 0 <= i < n implies read[i] == samples[i] by {
        let v = samples[i];
        assert(v as int == 0x100 * (v as int / 0x100) + v as int % 0x100);
        assert(v as int == 16 * (v as int / 16) + v as int % 16);
    }
    assert(read =~= samples);
}

/// Unpacks samples stored without compression at `bits` a piece, most
/// significant bits first.
pub fn unpack(data: &[u8], pixels: usize, bits: u32, little_endian: bool) -> (r: Result<Vec<u16>>)
    ensures
        deep_outcome(r) == unpacked(data@, pixels as int, bits as int, little_endian),
{
    let mut out: Vec<u16> = Vec::new();
    let mut i: usize = 0;
    if bits == 8 {
        if data.len() < pixels {
            return Err(corrupt("Kodak frame shorter than its 8-bit samples"));
        }
        while i < pixels
            invariant
                i <= pixels <= data@.len(),
                out@ == Seq::new(i as nat, |i: int| data@[i] as u16),
            decreases pixels - i,
        {
            out.push(data[i] as u16);
            i = i + 1;
            assert(out@ =~= Seq::new(i as nat, |i: int| data@[i] as u16));
        }
        Ok(out)
    } else if bits == 12 {
        let pairs: usize = pixels / 2 + pixels % 2;
        assert(pairs == ceil_div(pixels as int, 2));
        let need: usize = match pairs.checked_mul(3) {
            Some(need) => need,
            None => return Err(corrupt("Kodak frame too large")),
        };
        if data.len() < need {
            let mut text = "Kodak frame holds ".to_string();
            push_decimal(&mut text, data.len() as u64);
            text.append(" bytes of 12-bit samples, want ");
            push_decimal(&mut text, need as u64);
            return Err(Error::Corrupt(text));
        }
        while i < pixels
            invariant
                i <= pixels,
                need == (pixels / 2 + pixels % 2) * 3,
                need <= data@.len() <= usize::MAX,
                out@ == Seq::new(i as nat, |i: int| packed12(data@, i)),
            decreases pixels - i,
        {
            let t: usize = i / 2 * 3;
            let value: u16 = if i % 2 == 0 {
                data[t] as u16 * 16 + data[t + 1] as u16 / 16
            } else {
                data[t + 1] as u16 % 16 * 256 + data[t + 2] as u16
            };
            out.push(value);
            i = i + 1;
            assert(out@ =~= Seq::new(i as nat, |i: int| packed12(data@, i)));
        }
        Ok(out)
    } else if bits == 16 {
        if data.len() / 2 < pixels {
            return Err(corrupt("Kodak frame shorter than its 16-bit samples"));
        }
        while i < pixels
            invariant
                i <= pixels,
                2 * pixels <= data@.len() <= usize::MAX,
                out@ == Seq::new(i as nat, |i: int| word16(data@, 2 * i, little_endian) as u16),
            decreases pixels - i,
        {
            let value: u16 = if little_endian {
                read_le16(data, 2 * i)
            } else {
                read_be16(data, 2 * i)
            };
            out.push(value);
            i = i + 1;
            assert(out@ =~= Seq::new(
                i as nat,
                |i: int| word16(data@, 2 * i, little_endian) as u16,
            ));
        }
        Ok(out)
    } else {
        let mut text = "Kodak frame with ".to_string();
        push_decimal(&mut text, bits as u64);
        text.append("-bit samples");
        Err(Error::Unsupported(text))
    }
}

/// A crop rectangle that lies inside the frame.
pub open spec fn crop_inside(x: int, y: int, width: int, height: int, frame: (int, int)) -> bool {
    width > 0 && height > 0 && x + width <= frame.0 && y + height <= frame.1
}

/// A crop rectangle, kept only when it actually lies inside the frame.
pub fn crop_within(x: usize, y: usize, width: usize, height: usize, frame: (usize, usize)) -> (r:
    Option<Rect>)
    ensures
        r == if crop_inside(
            x as int,
            y as int,
            width as int,
            height as int,
            (frame.0 as int, frame.1 as int),
        ) {
            Some(Rect { x, y, width, height })
        } else {
            None
        },
{
    if width > 0 && height > 0 && width <= frame.0 && x <= frame.0 - width && height <= frame.1 && y
        <= frame.1 - height {
        Some(Rect { x, y, width, height })
    } else {
        None
    }
}

// ---------------------------------------------------------- the bands

/// The end of the run of differences of `step` that `j` stands in.
pub open spec fn ramp_end(values: Seq<u32>, step: int, j: int) -> int
    decreases values.len() - j,
{
    if 0 <= j && j + 1 < values.len() && values[j + 1] - values[j] == step {
        ramp_end(values, step, j + 1)
    } else {
        j
    }
}

/// How many values the run of equal, positive differences from `i` on
/// takes in.
pub open spec fn ramp_len(values: Seq<u32>, i: int) -> int {
    if i + 1 < values.len() && values[i + 1] > values[i] {
        ramp_end(values, values[i + 1] - values[i], i + 1) - i + 1
    } else {
        1
    }
}

proof fn lemma_ramp(values: Seq<u32>, step: int, a: int, b: int)
    requires
        0 <= a <= b <= ramp_end(values, step, a),
    ensures
        ramp_end(values, step, b) == ramp_end(values, step, a),
        b < ramp_end(values, step, a) ==> b + 1 < values.len() && values[b + 1] - values[b] == step,
        ramp_end(values, step, a) < values.len() || ramp_end(values, step, a) == a,
    decreases values.len() - a,
{
    if a + 1 < values.len() && values[a + 1] - values[a] == step {
        if a < b {
            lemma_ramp(values, step, a + 1, b);
        } else {
            lemma_ramp_grows(values, step, a + 1);
            lemma_ramp(values, step, a + 1, a + 1);
        }
    }
}

proof fn lemma_ramp_grows(values: Seq<u32>, step: int, a: int)
    requires
        0 <= a,
    ensures
        a <= ramp_end(values, step, a),
    decreases values.len() - a,
{
    if a + 1 < values.len() && values[a + 1] - values[a] == step {
        lemma_ramp_grows(values, step, a + 1);
    }
}

/// A run takes in values that grow by the same step, as many as do: the one
/// after the last, if there is one, does not.
pub proof fn law_runs_grow_by_one_step(values: Seq<u32>, i: int)
    requires
        0 <= i < values.len(),
    ensures
        ({
            let n = ramp_len(values, i);
            let step = values[i + 1] - values[i];
            &&& 1 <= n <= values.len() - i
            &&& n > 1 ==> step > 0
            &&& forall|k: int|
                i <= k && k + 1 < i + n ==> #[trigger] values[k + 1] - values[k] == step
            &&& n > 1 && i + n < values.len() ==> values[i + n] - values[i + n - 1] != step
            &&& n == 1 && i + 1 < values.len() ==> values[i + 1] <= values[i]
        }),
{
    if i + 1 < values.len() && values[i + 1] > values[i] {
        let step = values[i + 1] - values[i];
        let end = ramp_end(values, step, i + 1);
        lemma_ramp_grows(values, step, i + 1);
        lemma_ramp(values, step, i + 1, i + 1);
        lemma_ramp(values, step, i + 1, end);
        lemma_ramp_grows(values, step, end + 1);
        assert forall|k: int| i <= k && k + 1 < i + ramp_len(values, i) implies #[trigger] values[k
            + 1] - values[k] == step by {
            if k > i {
                lemma_ramp(values, step, i + 1, k);
            }
        }
    }
}

/// The first value of the longest run of equal, positive differences in
/// `values`, the earliest of equals. At least four values are wanted so a
/// chance pair cannot win.
pub fn longest_ramp(values: &[u32]) -> (r: Option<u32>)
    ensures
        match r {
            Some(first) => exists|s: int|
                {
                    &&& 0 <= s < values@.len()
                    &&& first == values@[s]
                    &&& #[trigger] ramp_len(values@, s) >= 4
                    &&& forall|t: int|
                        0 <= t < values@.len() ==> #[trigger] ramp_len(values@, t) <= ramp_len(
                            values@,
                            s,
                        ) && (t < s ==> ramp_len(values@, t) < ramp_len(values@, s))
                },
            None => forall|t: int| 0 <= t < values@.len() ==> #[trigger] ramp_len(values@, t) < 4,
        },
{
    let mut best: usize = 0;
    let mut best_len: usize = 0;
    let mut i: usize = 0;
    assert(values@.len() == values.len());
    while values.len() - i > 1
        invariant
            i <= values@.len() <= usize::MAX,
            best_len == 0 || best < i,
            best_len > 0 ==> best_len == ramp_len(values@, best as int) && best_len >= 2,
            forall|t: int|
                0 <= t < i ==> #[trigger] ramp_len(values@, t) <= if best_len == 0 {
                    1
                } else {
                    best_len as int
                },
            forall|t: int|
                0 <= t < best && best_len > 0 ==> #[trigger] ramp_len(values@, t) < best_len,
        decreases values@.len() - i,
    {
        if values[i + 1] <= values[i] {
            assert(ramp_len(values@, i as int) == 1);
            i = i + 1;
        } else {
            let step: u32 = values[i + 1] - values[i];
            let ghost end = ramp_end(values@, step as int, i + 1);
            let mut j: usize = i + 1;
            proof {
                lemma_ramp_grows(values@, step as int, i + 1);
            }
            while values.len() - j > 1 && values[j + 1] >= values[j] && values[j + 1] - values[j]
                == step
                invariant
                    i < j < values@.len() <= usize::MAX,
                    step > 0,
                    end == ramp_end(values@, step as int, i + 1),
                    ramp_end(values@, step as int, j as int) == end,
                decreases values@.len() - j,
            {
                j = j + 1;
            }
            let len: usize = j - i + 1;
            assert(len == ramp_len(values@, i as int));
            proof {
                assert forall|t: int| i < t < j implies #[trigger] ramp_len(values@, t) < len by {
                    lemma_ramp(values@, step as int, i + 1, t);
                    if t + 1 <= end {
                        lemma_ramp(values@, step as int, i + 1, t + 1);
                    }
                }
            }
            if len > best_len {
                best_len = len;
                best = i;
            }
            i = j;
        }
    }
    proof {
        if i < values@.len() {
            assert(ramp_len(values@, i as int) == 1);
        }
    }
    if best_len >= 4 {
        assert(ramp_len(values@, best as int) >= 4);
        Some(values[best])
    } else {
        None
    }
}

/// Where the longest run among the first `n` values starts, the earliest
/// of equals.
pub open spec fn longest_from(values: Seq<u32>, n: int) -> int
    decreases n,
{
    if n <= 1 {
        0
    } else {
        let before = longest_from(values, n - 1);
        if ramp_len(values, n - 1) > ramp_len(values, before) {
            n - 1
        } else {
            before
        }
    }
}

/// The first value of the longest run, if it has at least four.
pub open spec fn ramp_first(values: Seq<u32>) -> Option<u32> {
    let s = longest_from(values, values.len() as int);
    if values.len() > 0 && ramp_len(values, s) >= 4 {
        Some(values[s])
    } else {
        None
    }
}

proof fn lemma_longest(values: Seq<u32>, n: int)
    requires
        1 <= n <= values.len(),
    ensures
        0 <= longest_from(values, n) < n,
        forall|t: int|
            0 <= t < n ==> #[trigger] ramp_len(values, t) <= ramp_len(
                values,
                longest_from(values, n),
            ) && (t < longest_from(values, n) ==> ramp_len(values, t) < ramp_len(
                values,
                longest_from(values, n),
            )),
    decreases n,
{
    if n > 1 {
        lemma_longest(values, n - 1);
    }
}

fn first_band(values: &[u32]) -> (r: Option<u32>)
    ensures
        r == ramp_first(values@),
{
    let r = longest_ramp(values);
    proof {
        if values@.len() > 0 {
            lemma_longest(values@, values@.len() as int);
            let best = longest_from(values@, values@.len() as int);
            assert(ramp_len(values@, best) == ramp_len(values@, best));
        }
    }
    r
}

// ------------------------------------------------------------- the file

/// The pointer to the DCS calibration directory.
pub const KODAK_IFD: u16 = 0x8290;

/// The pointer to the EasyShare directory.
pub const KDC_IFD: u16 = 0xFE00;

pub const KODAK_CROP_LEFT: u16 = 0x03EB;

pub const KODAK_CROP_TOP: u16 = 0x03EC;

pub const KODAK_CROP_WIDTH: u16 = 0x03ED;

pub const KODAK_CROP_HEIGHT: u16 = 0x03EE;

pub const KODAK_WB_INDEX: u16 = 0x03FC;

pub const KODAK_WB_FIRST: u16 = 0x0848;

pub const KODAK_CURVE: u16 = 0x090D;

pub const KDC_WIDTH: u16 = 0xFA13;

pub const KDC_HEIGHT: u16 = 0xFA14;

pub const KDC_CFA: u16 = 0xFA15;

pub const KDC_DEPTH: u16 = 0xFA18;

pub const KDC_WB_ASSHOT: u16 = 0xFA25;

pub const KDC_IMAGE_WIDTH: u16 = 0xFA31;

pub const KDC_IMAGE_HEIGHT: u16 = 0xFA32;

pub const KDC_CROP_LEFT: u16 = 0xFA3E;

pub const KDC_CROP_TOP: u16 = 0xFA3F;

pub const KDC_SUB_CFA_PATTERN: u16 = 0xFD09;

pub const KDC_SUB_OFFSETS: u16 = 0xFD04;

pub const KDC_SUB_OFFSET_BIAS: u16 = 0xFD14;

/// The linearisation table of the bodies that have no calibration
/// directory.
pub const GRAY_RESPONSE_CURVE: u16 = 0x0123;

pub const K65000_SEGMENT: u16 = 0xFDE8;

pub const K65000_OFFSETS: u16 = 0xFDE9;

/// A colour filter array among the photometric interpretations.
pub const CFA_IMAGE: u32 = 32803;

/// The first directory from the `i`th on that says it holds a filter
/// array.
pub open spec fn marked_ifd(tiff: TiffModel, i: int) -> Option<int>
    decreases tiff.ifds.len() - i,
{
    if i < 0 || i >= tiff.ifds.len() {
        None
    } else if tiff.number(tiff.ifds[i], PHOTOMETRIC) == Some(CFA_IMAGE as int) {
        Some(i)
    } else {
        marked_ifd(tiff, i + 1)
    }
}

/// Whether a directory holds strips of one sample a pixel.
pub open spec fn is_plane(tiff: TiffModel, ifd: IfdModel) -> bool {
    ifd.field(STRIP_OFFSETS) is Some && (tiff.number(ifd, SAMPLES_PER_PIXEL) matches Some(n)
        ==> n == 1)
}

/// A number, or zero for none.
pub open spec fn or_zero(n: Option<int>) -> int {
    match n {
        Some(n) => n,
        None => 0,
    }
}

/// How many pixels a directory says its image has.
pub open spec fn ifd_area(tiff: TiffModel, ifd: IfdModel) -> int {
    or_zero(tiff.number(ifd, IMAGE_WIDTH)) * or_zero(tiff.number(ifd, IMAGE_LENGTH))
}

/// The largest plane among the first `n` directories, the last of equals.
pub open spec fn largest_plane(tiff: TiffModel, n: int) -> Option<int>
    decreases n,
{
    if n <= 0 {
        None
    } else {
        let before = largest_plane(tiff, n - 1);
        let here = tiff.ifds[n - 1];
        if !is_plane(tiff, here) {
            before
        } else {
            match before {
                Some(b) => if ifd_area(tiff, tiff.ifds[b]) > ifd_area(tiff, here) {
                    Some(b)
                } else {
                    Some(n - 1)
                },
                None => Some(n - 1),
            }
        }
    }
}

/// The directory holding sensor samples, if the file has one at all. The
/// older bodies call their sensor plain greyscale, so the fallback is the
/// largest single-sample strip image.
pub open spec fn sensor_ifd(tiff: TiffModel) -> Option<int> {
    match marked_ifd(tiff, 0) {
        Some(i) => Some(i),
        None => match largest_plane(tiff, tiff.ifds.len() as int) {
            Some(i) => if tiff.ifds[i].field(IMAGE_WIDTH) is Some && tiff.ifds[i].field(
                IMAGE_LENGTH,
            ) is Some {
                Some(i)
            } else {
                None
            },
            None => None,
        },
    }
}

fn area_of(tiff: &Tiff<'_>, ifd: &Ifd) -> (r: u64)
    requires
        tiff@.well_formed(),
        ifd@.inside(tiff.bytes@),
    ensures
        r == ifd_area(tiff@, ifd@),
{
    let width: u32 = match first_number(tiff, ifd, IMAGE_WIDTH) {
        Some(n) => n,
        None => 0,
    };
    let height: u32 = match first_number(tiff, ifd, IMAGE_LENGTH) {
        Some(n) => n,
        None => 0,
    };
    proof {
        assert(0 <= width * height <= 0xffff_ffff * 0xffff_ffff) by (nonlinear_arith)
            requires
                0 <= width <= 0xffff_ffff,
                0 <= height <= 0xffff_ffff,
        ;
    }
    width as u64 * height as u64
}

fn has_plane(tiff: &Tiff<'_>, ifd: &Ifd) -> (r: bool)
    requires
        tiff@.well_formed(),
        ifd@.inside(tiff.bytes@),
    ensures
        r == is_plane(tiff@, ifd@),
{
    if !ifd.has(STRIP_OFFSETS) {
        return false;
    }
    match first_number(tiff, ifd, SAMPLES_PER_PIXEL) {
        Some(n) => n == 1,
        None => true,
    }
}

fn raw_ifd(tiff: &Tiff<'_>) -> (r: Option<usize>)
    requires
        tiff@.well_formed(),
    ensures
        match r {
            Some(i) => sensor_ifd(tiff@) == Some(i as int) && i < tiff.ifds@.len(),
            None => sensor_ifd(tiff@) is None,
        },
{
    let mut i: usize = 0;
    while i < tiff.ifds.len()
        invariant
            tiff@.well_formed(),
            i <= tiff.ifds@.len(),
            marked_ifd(tiff@, 0) == marked_ifd(tiff@, i as int),
        decreases tiff.ifds@.len() - i,
    {
        let ifd = &tiff.ifds[i];
        assert(tiff@.ifds[i as int] == ifd@);
        assert(tiff@.ifds[i as int].inside(tiff.bytes@));
        if let Some(kind) = first_number(tiff, ifd, PHOTOMETRIC) {
            if kind == CFA_IMAGE {
                return Some(i);
            }
        }
        i = i + 1;
    }
    let mut best: Option<usize> = None;
    i = 0;
    while i < tiff.ifds.len()
        invariant
            tiff@.well_formed(),
            i <= tiff.ifds@.len(),
            match best {
                Some(b) => largest_plane(tiff@, i as int) == Some(b as int) && b < i,
                None => largest_plane(tiff@, i as int) is None,
            },
        decreases tiff.ifds@.len() - i,
    {
        let ifd = &tiff.ifds[i];
        assert(tiff@.ifds[i as int] == ifd@);
        assert(tiff@.ifds[i as int].inside(tiff.bytes@));
        if has_plane(tiff, ifd) {
            match best {
                Some(b) => {
                    assert(tiff@.ifds[b as int] == tiff.ifds@[b as int]@);
                    assert(tiff@.ifds[b as int].inside(tiff.bytes@));
                    if area_of(tiff, &tiff.ifds[b]) <= area_of(tiff, ifd) {
                        best = Some(i);
                    }
                },
                None => {
                    best = Some(i);
                },
            }
        }
        i = i + 1;
    }
    match best {
        Some(b) => {
            assert(tiff@.ifds[b as int] == tiff.ifds@[b as int]@);
            if tiff.ifds[b].has(IMAGE_WIDTH) && tiff.ifds[b].has(IMAGE_LENGTH) {
                Some(b)
            } else {
                None
            }
        },
        None => None,
    }
}

/// A colour by its number.
pub open spec fn color_of(n: Option<int>) -> Option<CfaColor> {
    match n {
        Some(n) => if n == 0 {
            Some(CfaColor::Red)
        } else if n == 1 {
            Some(CfaColor::Green)
        } else if n == 2 {
            Some(CfaColor::Blue)
        } else {
            None
        },
        None => None,
    }
}

/// Four colours as a filter array.
pub open spec fn bayer_of(
    a: Option<CfaColor>,
    b: Option<CfaColor>,
    c: Option<CfaColor>,
    d: Option<CfaColor>,
) -> Option<CfaModel> {
    match (a, b, c, d) {
        (Some(a), Some(b), Some(c), Some(d)) => Some(
            CfaModel { kind: CfaKind::Bayer, width: 2, height: 2, colors: seq![a, b, c, d] },
        ),
        _ => None,
    }
}

/// A 2x2 filter array from four numbers, row-major.
pub open spec fn pattern_of(tiff: TiffModel, entry: Option<Entry>) -> CfaModel {
    match entry {
        Some(e) => match bayer_of(
            color_of(e.natural(tiff.bytes, tiff.little, 0)),
            color_of(e.natural(tiff.bytes, tiff.little, 1)),
            color_of(e.natural(tiff.bytes, tiff.little, 2)),
            color_of(e.natural(tiff.bytes, tiff.little, 3)),
        ) {
            Some(cfa) => cfa,
            None => grbg(),
        },
        None => grbg(),
    }
}

fn read_color(tiff: &Tiff<'_>, entry: Entry, i: usize) -> (r: Option<CfaColor>)
    requires
        entry.inside(tiff.bytes@),
    ensures
        r == color_of(entry.natural(tiff.bytes@, tiff.little, i as int)),
{
    match tiff.u32(entry, i) {
        Some(0) => Some(CfaColor::Red),
        Some(1) => Some(CfaColor::Green),
        Some(2) => Some(CfaColor::Blue),
        _ => None,
    }
}

fn make_bayer(
    a: Option<CfaColor>,
    b: Option<CfaColor>,
    c: Option<CfaColor>,
    d: Option<CfaColor>,
) -> (r: Option<Cfa>)
    ensures
        match r {
            Some(cfa) => bayer_of(a, b, c, d) == Some(cfa@),
            None => bayer_of(a, b, c, d) is None,
        },
{
    match (a, b, c, d) {
        (Some(a), Some(b), Some(c), Some(d)) => {
            let p: [CfaColor; 4] = [a, b, c, d];
            assert(p@ =~= seq![a, b, c, d]);
            Some(Cfa::Bayer(p))
        },
        _ => None,
    }
}

fn cfa_from_pattern(tiff: &Tiff<'_>, entry: Option<Entry>) -> (cfa: Cfa)
    requires
        entry matches Some(e) ==> e.inside(tiff.bytes@),
    ensures
        cfa@ == pattern_of(tiff@, entry),
{
    if let Some(e) = entry {
        if let Some(cfa) = make_bayer(
            read_color(tiff, e, 0),
            read_color(tiff, e, 1),
            read_color(tiff, e, 2),
            read_color(tiff, e, 3),
        ) {
            return cfa;
        }
    }
    Cfa::grbg()
}

/// The largest sample for a number.
pub open spec fn capped(v: u32) -> u16 {
    if v > 65535 {
        65535
    } else {
        v as u16
    }
}

/// A linearisation curve, if it has at least 256 entries.
pub open spec fn curve_in(tiff: TiffModel, entry: Entry) -> Option<Seq<u16>> {
    let values = numbers_of(tiff, entry, entry.count as int);
    if values.len() >= 256 {
        Some(Seq::new(values.len(), |i: int| capped(values[i])))
    } else {
        None
    }
}

/// The linearisation curve that a body decodes indices into: that of the
/// calibration directory, and only without one the response curve, which
/// elsewhere is for display.
pub open spec fn curve_of(tiff: TiffModel, kodak: Option<TiffModel>) -> Option<Seq<u16>> {
    let own = match kodak {
        Some(kodak) => match kodak.root().field(KODAK_CURVE) {
            Some(e) => Some((kodak, e)),
            None => None,
        },
        None => None,
    };
    match own {
        Some((kodak, e)) => curve_in(kodak, e),
        None => match tiff.field(GRAY_RESPONSE_CURVE) {
            Some(e) => curve_in(tiff, e),
            None => None,
        },
    }
}

fn read_curve(tiff: &Tiff<'_>, entry: Entry) -> (r: Option<Vec<u16>>)
    requires
        entry.inside(tiff.bytes@),
    ensures
        match r {
            Some(table) => curve_in(tiff@, entry) == Some(table@) && table@.len() >= 256,
            None => curve_in(tiff@, entry) is None,
        },
{
    let values = read_numbers(tiff, entry);
    if values.len() < 256 {
        return None;
    }
    let mut table: Vec<u16> = Vec::new();
    let mut i: usize = 0;
    while i < values.len()
        invariant
            i <= values@.len(),
            table@ == Seq::new(i as nat, |k: int| capped(values@[k])),
        decreases values@.len() - i,
    {
        table.push(
            if values[i] > 65535 {
                65535
            } else {
                values[i] as u16
            },
        );
        i = i + 1;
        assert(table@ =~= Seq::new(i as nat, |k: int| capped(values@[k])));
    }
    assert(table@ =~= curve_in(tiff@, entry)->0);
    Some(table)
}

fn curve(tiff: &Tiff<'_>, kodak: &Option<Tiff<'_>>) -> (r: Option<Vec<u16>>)
    requires
        tiff@.well_formed(),
        kodak matches Some(k) ==> k@.well_formed(),
    ensures
        match r {
            Some(table) => curve_of(tiff@, maybe_tiff(*kodak)) == Some(table@) && table@.len()
                >= 256,
            None => curve_of(tiff@, maybe_tiff(*kodak)) is None,
        },
{
    if let Some(kodak) = kodak {
        if let Some(e) = field_of(kodak, kodak.root(), KODAK_CURVE) {
            return read_curve(kodak, e);
        }
    }
    match tiff.find(GRAY_RESPONSE_CURVE) {
        Some(e) => read_curve(tiff, e),
        None => None,
    }
}

/// An optional directory as a mathematical value.
pub open spec fn maybe_tiff(tiff: Option<Tiff<'_>>) -> Option<TiffModel> {
    match tiff {
        Some(tiff) => Some(tiff@),
        None => None,
    }
}

/// A red, a green and a blue number, if all are positive.
pub open spec fn positive_triple(
    red: Option<Ratio>,
    green: Option<Ratio>,
    blue: Option<Ratio>,
) -> Option<(Ratio, Ratio, Ratio)> {
    match (red, green, blue) {
        (Some(r), Some(g), Some(b)) => if r.num > 0 && g.num > 0 && b.num > 0 {
            Some((r, g, b))
        } else {
            None
        },
        _ => None,
    }
}

/// The as-shot balance from the DCS presets. One field says which of the
/// six was used; the numbers are divisors, so a multiplier is green over
/// the channel.
pub open spec fn dcs_balance(kodak: TiffModel) -> Option<Seq<Gain>> {
    let root = kodak.root();
    let index = or_zero(kodak.number(root, KODAK_WB_INDEX));
    let tag = (KODAK_WB_FIRST + if index < 5 {
        index
    } else {
        5
    }) as u16;
    match positive_triple(
        kodak.ratio(root, tag, 0),
        kodak.ratio(root, tag, 1),
        kodak.ratio(root, tag, 2),
    ) {
        Some((r, g, b)) => Some(
            seq![
                Gain::Quotient { over: g, under: r },
                Gain::unit(),
                Gain::Quotient { over: g, under: b },
                Gain::unit(),
            ],
        ),
        None => None,
    }
}

/// The as-shot balance from the EasyShare directory: multipliers, scaled
/// by whatever the green one is.
pub open spec fn kdc_balance(kdc: TiffModel) -> Option<Seq<Gain>> {
    let root = kdc.root();
    match positive_triple(
        kdc.ratio(root, KDC_WB_ASSHOT, 0),
        kdc.ratio(root, KDC_WB_ASSHOT, 1),
        kdc.ratio(root, KDC_WB_ASSHOT, 2),
    ) {
        Some((r, g, b)) => Some(
            seq![
                Gain::Quotient { over: r, under: g },
                Gain::unit(),
                Gain::Quotient { over: b, under: g },
                Gain::unit(),
            ],
        ),
        None => None,
    }
}

fn read_triple(tiff: &Tiff<'_>, tag: u16) -> (r: Option<(Ratio, Ratio, Ratio)>)
    requires
        tiff@.well_formed(),
    ensures
        r == positive_triple(
            tiff@.ratio(tiff@.root(), tag, 0),
            tiff@.ratio(tiff@.root(), tag, 1),
            tiff@.ratio(tiff@.root(), tag, 2),
        ),
{
    let root = tiff.root();
    match (
        first_ratio(tiff, root, tag, 0),
        first_ratio(tiff, root, tag, 1),
        first_ratio(tiff, root, tag, 2),
    ) {
        (Some(r), Some(g), Some(b)) => if r.num > 0 && g.num > 0 && b.num > 0 {
            Some((r, g, b))
        } else {
            None
        },
        _ => None,
    }
}

fn dcs_white_balance(kodak: &Tiff<'_>) -> (r: Option<[Gain; 4]>)
    requires
        kodak@.well_formed(),
    ensures
        match r {
            Some(gains) => dcs_balance(kodak@) == Some(gains@),
            None => dcs_balance(kodak@) is None,
        },
{
    let index: u16 = match first_number(kodak, kodak.root(), KODAK_WB_INDEX) {
        Some(n) => if n < 5 {
            n as u16
        } else {
            5
        },
        None => 0,
    };
    match read_triple(kodak, KODAK_WB_FIRST + index) {
        Some((r, g, b)) => {
            let gains: [Gain; 4] = [
                Gain::Quotient { over: g, under: r },
                Gain::unit(),
                Gain::Quotient { over: g, under: b },
                Gain::unit(),
            ];
            assert(gains@ =~= dcs_balance(kodak@)->0);
            Some(gains)
        },
        None => None,
    }
}

fn kdc_white_balance(kdc: &Tiff<'_>) -> (r: Option<[Gain; 4]>)
    requires
        kdc@.well_formed(),
    ensures
        match r {
            Some(gains) => kdc_balance(kdc@) == Some(gains@),
            None => kdc_balance(kdc@) is None,
        },
{
    match read_triple(kdc, KDC_WB_ASSHOT) {
        Some((r, g, b)) => {
            let gains: [Gain; 4] = [
                Gain::Quotient { over: r, under: g },
                Gain::unit(),
                Gain::Quotient { over: b, under: g },
                Gain::unit(),
            ];
            assert(gains@ =~= kdc_balance(kdc@)->0);
            Some(gains)
        },
        None => None,
    }
}

// ------------------------------------------------- image directories

/// The samples of a strip, before the linearisation curve. `jpeg` is what
/// a lossless JPEG decoder makes of the strip.
pub open spec fn strip_samples(
    tiff: TiffModel,
    ifd: IfdModel,
    layout: LayoutModel,
    strip: Seq<u8>,
    jpeg: Outcome<LosslessModel>,
) -> Outcome<Seq<u16>> {
    let (width, height) = (layout.width, layout.height);
    if layout.compression == 1 {
        unpacked(strip, width * height, layout.bits_per_sample, tiff.little)
    } else if layout.compression == 7 {
        match jpeg {
            Err(fault) => Err(fault),
            // Half the width and two components, so the samples already
            // alternate the way the row does.
            Ok(image) => if image.width * image.components != width || image.height != height {
                Err(
                    Fault::Corrupt(
                        "Kodak lossless JPEG is "@ + decimal(image.width) + "x"@ + decimal(
                            image.height,
                        ) + "x"@ + decimal(image.components) + ", want "@ + decimal(width) + "x"@
                            + decimal(height),
                    ),
                )
            } else {
                Ok(image.data)
            },
        }
    } else if layout.compression == 65000 {
        frame_65000(
            strip,
            match tiff.number(ifd, K65000_SEGMENT) {
                Some(n) => Some(n as u32),
                None => None,
            },
            match ifd.field(K65000_OFFSETS) {
                Some(e) => Some(numbers_of(tiff, e, e.count as int)),
                None => None,
            },
            width,
            height,
        )
    } else if layout.compression == 32867 {
        Err(Fault::Unsupported("Kodak Compression 32867, the DC40/DC50 scheme"@))
    } else {
        Err(Fault::Unsupported("Kodak Compression "@ + decimal(layout.compression)))
    }
}

fn read_jpeg(layout: &ImageLayout, jpeg: Result<LosslessFrame>) -> (r: Result<Vec<u16>>)
    requires
        layout.compression == 7,
    ensures
        forall|tiff: TiffModel, ifd: IfdModel, strip: Seq<u8>|
            deep_outcome(r) == #[trigger] strip_samples(
                tiff,
                ifd,
                layout@,
                strip,
                deep_outcome(jpeg),
            ),
{
    let image = match jpeg {
        Ok(image) => image,
        Err(e) => return Err(e),
    };
    proof {
        assert(0 <= image.width * image.components <= 0xffff_ffff_ffff_ffff
            * 0xffff_ffff_ffff_ffff) by (nonlinear_arith)
            requires
                0 <= image.width <= 0xffff_ffff_ffff_ffff,
                0 <= image.components <= 0xffff_ffff_ffff_ffff,
        ;
    }
    if image.width as u128 * image.components as u128 != layout.width as u128 || image.height
        != layout.height {
        let mut text = "Kodak lossless JPEG is ".to_string();
        push_decimal(&mut text, image.width as u64);
        text.append("x");
        push_decimal(&mut text, image.height as u64);
        text.append("x");
        push_decimal(&mut text, image.components as u64);
        text.append(", want ");
        push_decimal(&mut text, layout.width as u64);
        text.append("x");
        push_decimal(&mut text, layout.height as u64);
        return Err(Error::Corrupt(text));
    }
    Ok(image.data)
}

fn read_65000(tiff: &Tiff<'_>, ifd: &Ifd, strip: &[u8], width: usize, height: usize) -> (r: Result<
    Vec<u16>,
>)
    requires
        tiff@.well_formed(),
        ifd@.inside(tiff.bytes@),
        width * height <= usize::MAX,
    ensures
        deep_outcome(r) == frame_65000(
            strip@,
            match tiff@.number(ifd@, K65000_SEGMENT) {
                Some(n) => Some(n as u32),
                None => None,
            },
            match ifd@.field(K65000_OFFSETS) {
                Some(e) => Some(numbers_of(tiff@, e, e.count as int)),
                None => None,
            },
            width as int,
            height as int,
        ),
{
    let segment: Option<u32> = first_number(tiff, ifd, K65000_SEGMENT);
    match field_of(tiff, ifd, K65000_OFFSETS) {
        Some(e) => {
            let offsets = read_numbers(tiff, e);
            decode_65000(strip, segment, Some(offsets.as_slice()), width, height)
        },
        None => decode_65000(strip, segment, None, width, height),
    }
}

fn read_strip(
    tiff: &Tiff<'_>,
    ifd: &Ifd,
    layout: &ImageLayout,
    strip: &[u8],
    jpeg: Result<LosslessFrame>,
) -> (r: Result<Vec<u16>>)
    requires
        tiff@.well_formed(),
        ifd@.inside(tiff.bytes@),
        layout.width * layout.height <= usize::MAX,
    ensures
        deep_outcome(r) == strip_samples(tiff@, ifd@, layout@, strip@, deep_outcome(jpeg)),
{
    proof {
        assert(0 <= layout.width * layout.height) by (nonlinear_arith)
            requires
                0 <= layout.width,
                0 <= layout.height,
        ;
    }
    if layout.compression == 1 {
        unpack(strip, layout.width * layout.height, layout.bits_per_sample, tiff.little)
    } else if layout.compression == 7 {
        let r = read_jpeg(layout, jpeg);
        assert(deep_outcome(r) == strip_samples(
            tiff@,
            ifd@,
            layout@,
            strip@,
            deep_outcome(jpeg),
        ));
        r
    } else if layout.compression == 65000 {
        read_65000(tiff, ifd, strip, layout.width, layout.height)
    } else if layout.compression == 32867 {
        Err(unsupported("Kodak Compression 32867, the DC40/DC50 scheme"))
    } else {
        let mut text = "Kodak Compression ".to_string();
        push_decimal(&mut text, layout.compression as u64);
        Err(Error::Unsupported(text))
    }
}

/// The one strip of the sensor data, and how many samples it holds.
pub open spec fn strip_of(tiff: TiffModel, layout: LayoutModel) -> Outcome<Seq<u8>> {
    if layout.chunks.len() != 1 {
        Err(
            Fault::Unsupported(
                "Kodak sensor data in "@ + decimal(layout.chunks.len() as int)
                    + " strips, want one"@,
            ),
        )
    } else if layout.width * layout.height > usize::MAX {
        Err(Fault::Corrupt("Kodak frame too large"@))
    } else {
        let (start, len) = layout.chunks[0];
        Ok(tiff.bytes.subrange(start as int, start + len))
    }
}

fn find_strip<'a>(tiff: &Tiff<'a>, layout: &ImageLayout) -> (r: Result<&'a [u8]>)
    requires
        strips_inside(tiff.bytes@, layout.chunks@),
    ensures
        match r {
            Ok(strip) => strip_of(tiff@, layout@) == Outcome::<Seq<u8>>::Ok(strip@) && layout.width
                * layout.height <= usize::MAX,
            Err(e) => strip_of(tiff@, layout@) == Outcome::<Seq<u8>>::Err(e@),
        },
{
    if layout.chunks.len() != 1 {
        let mut text = "Kodak sensor data in ".to_string();
        push_decimal(&mut text, layout.chunks.len() as u64);
        text.append(" strips, want one");
        return Err(Error::Unsupported(text));
    }
    if layout.width.checked_mul(layout.height).is_none() {
        return Err(corrupt("Kodak frame too large"));
    }
    let (start, len): (usize, usize) = layout.chunks[0];
    assert(tiff.bytes@.len() == tiff.bytes.len());
    assert(start + len <= tiff.bytes@.len()) by {
        assert(layout.chunks@[0] == (start, len));
    }
    Ok(slice_subrange(tiff.bytes, start, start + len))
}

/// A depth that samples can have.
pub open spec fn clamped_depth(bits: int) -> int {
    if bits < 8 {
        8
    } else if bits > 16 {
        16
    } else {
        bits
    }
}

/// What the calibration directory adds to a frame.
pub open spec fn calibrated(raw: RawModel, kodak: TiffModel) -> RawModel {
    let root = kodak.root();
    RawModel {
        wb_coeffs: match dcs_balance(kodak) {
            Some(gains) => gains,
            None => raw.wb_coeffs,
        },
        crop: placed(
            raw.crop,
            (
                kodak.number(root, KODAK_CROP_LEFT),
                kodak.number(root, KODAK_CROP_TOP),
                kodak.number(root, KODAK_CROP_WIDTH),
                kodak.number(root, KODAK_CROP_HEIGHT),
            ),
            (raw.width, raw.height),
        ),
        ..raw
    }
}

/// A crop given by four numbers, if they are there and lie inside the
/// frame.
pub open spec fn placed(
    crop: Rect,
    numbers: (Option<int>, Option<int>, Option<int>, Option<int>),
    frame: (int, int),
) -> Rect {
    match numbers {
        (Some(x), Some(y), Some(w), Some(h)) => if crop_inside(x, y, w, h, frame) {
            Rect { x: x as usize, y: y as usize, width: w as usize, height: h as usize }
        } else {
            crop
        },
        _ => crop,
    }
}

/// A crop is taken from its four numbers where it has pixels and all of
/// them lie in the frame; otherwise the one before is kept.
pub proof fn law_crops_lie_in_the_frame(
    crop: Rect,
    x: usize,
    y: usize,
    w: usize,
    h: usize,
    frame: (int, int),
)
    ensures
        ({
            let numbers = (Some(x as int), Some(y as int), Some(w as int), Some(h as int));
            if 0 < w && 0 < h && x + w <= frame.0 && y + h <= frame.1 {
                placed(crop, numbers, frame) == (Rect { x, y, width: w, height: h })
            } else {
                placed(crop, numbers, frame) == crop
            }
        }),
        placed(crop, (None, Some(y as int), Some(w as int), Some(h as int)), frame) == crop,
{
}

fn calibrate(raw: &mut RawImage, kodak: &Tiff<'_>)
    requires
        kodak@.well_formed(),
    ensures
        final(raw)@ == calibrated(old(raw)@, kodak@),
{
    if let Some(gains) = dcs_white_balance(kodak) {
        raw.wb_coeffs = gains;
    }
    let root = kodak.root();
    if let (Some(x), Some(y), Some(w), Some(h)) = (
        first_number(kodak, root, KODAK_CROP_LEFT),
        first_number(kodak, root, KODAK_CROP_TOP),
        first_number(kodak, root, KODAK_CROP_WIDTH),
        first_number(kodak, root, KODAK_CROP_HEIGHT),
    ) {
        if let Some(crop) = crop_within(
            x as usize,
            y as usize,
            w as usize,
            h as usize,
            (raw.width, raw.height),
        ) {
            raw.crop = crop;
        }
    }
}

/// A frame out of an image directory with strips.
pub open spec fn tiff_frame(
    tiff: TiffModel,
    ifd: IfdModel,
    kodak: Option<TiffModel>,
    jpeg: Outcome<LosslessModel>,
) -> Outcome<RawModel> {
    match layout_of(tiff, ifd) {
        Err(fault) => Err(fault),
        Ok(layout) => match strip_of(tiff, layout) {
            Err(fault) => Err(fault),
            Ok(strip) => match strip_samples(tiff, ifd, layout, strip, jpeg) {
                Err(fault) => Err(fault),
                Ok(samples) => if samples.len() != layout.width * layout.height {
                    Err(
                        Fault::Corrupt(
                            "Kodak decoder produced "@ + decimal(samples.len() as int)
                                + " samples for "@ + decimal(layout.width) + "x"@ + decimal(
                                layout.height,
                            ),
                        ),
                    )
                } else {
                    Ok(curved(tiff, ifd, kodak, layout, samples))
                },
            },
        },
    }
}

/// Indices into a curve as samples.
pub open spec fn looked_up(samples: Seq<u16>, table: Seq<u16>) -> Seq<u16> {
    Seq::new(samples.len(), |i: int| linearized(samples[i], table))
}

/// A decoded strip, linearised, with what the directories say of it. The
/// curve's last entry is where the sensor saturates.
pub open spec fn curved(
    tiff: TiffModel,
    ifd: IfdModel,
    kodak: Option<TiffModel>,
    layout: LayoutModel,
    samples: Seq<u16>,
) -> RawModel {
    let curve = curve_of(tiff, kodak);
    let data = match curve {
        Some(table) => looked_up(samples, table),
        None => samples,
    };
    let plain = plain_image(
        Format::Kodak,
        layout.width as usize,
        layout.height as usize,
        1,
        data,
        pattern_of(tiff, ifd.field(CFA_PATTERN)),
    );
    let raw = RawModel {
        white_level: match curve {
            Some(table) => Ratio::whole(table.last() as u32),
            None => full_scale_of(clamped_depth(layout.bits_per_sample)),
        },
        ..plain
    };
    match kodak {
        Some(kodak) => calibrated(raw, kodak),
        None => raw,
    }
}

fn decode_tiff_raw(
    tiff: &Tiff<'_>,
    ifd: &Ifd,
    kodak: &Option<Tiff<'_>>,
    jpeg: Result<LosslessFrame>,
) -> (r: Result<RawImage>)
    requires
        tiff@.well_formed(),
        ifd@.inside(tiff.bytes@),
        kodak matches Some(k) ==> k@.well_formed(),
    ensures
        deep_outcome(r) == tiff_frame(tiff@, ifd@, maybe_tiff(*kodak), deep_outcome(jpeg)),
{
    let layout = match ImageLayout::of(tiff, ifd) {
        Ok(layout) => layout,
        Err(e) => return Err(e),
    };
    let strip = match find_strip(tiff, &layout) {
        Ok(strip) => strip,
        Err(e) => return Err(e),
    };
    let samples = match read_strip(tiff, ifd, &layout, strip, jpeg) {
        Ok(samples) => samples,
        Err(e) => return Err(e),
    };
    proof {
        assert(0 <= layout.width * layout.height) by (nonlinear_arith)
            requires
                0 <= layout.width,
                0 <= layout.height,
        ;
    }
    if samples.len() != layout.width * layout.height {
        let mut text = "Kodak decoder produced ".to_string();
        push_decimal(&mut text, samples.len() as u64);
        text.append(" samples for ");
        push_decimal(&mut text, layout.width as u64);
        text.append("x");
        push_decimal(&mut text, layout.height as u64);
        return Err(Error::Corrupt(text));
    }
    Ok(finish(tiff, ifd, kodak, &layout, samples))
}

fn finish(
    tiff: &Tiff<'_>,
    ifd: &Ifd,
    kodak: &Option<Tiff<'_>>,
    layout: &ImageLayout,
    samples: Vec<u16>,
) -> (raw: RawImage)
    requires
        tiff@.well_formed(),
        ifd@.inside(tiff.bytes@),
        kodak matches Some(k) ==> k@.well_formed(),
    ensures
        raw@ == curved(tiff@, ifd@, maybe_tiff(*kodak), layout@, samples@),
{
    let depth: u32 = if layout.bits_per_sample < 8 {
        8
    } else if layout.bits_per_sample > 16 {
        16
    } else {
        layout.bits_per_sample
    };
    let mut white = full_scale(depth);
    let mut data = samples;
    if let Some(table) = curve(tiff, kodak) {
        linearize(data.as_mut_slice(), table.as_slice());
        white = Ratio::whole(table[table.len() - 1] as u32);
        assert(data@ =~= looked_up(samples@, table@));
    }
    let cfa = cfa_from_pattern(tiff, field_of(tiff, ifd, CFA_PATTERN));
    let mut raw = RawImage::new(Format::Kodak, layout.width, layout.height, 1, data, cfa);
    raw.white_level = white;
    if let Some(kodak) = kodak {
        calibrate(&mut raw, kodak);
    }
    raw
}

// ---------------------------------------------------------- EasyShare

/// A colour by its letter.
pub open spec fn letter_color(c: char) -> Option<CfaColor> {
    if c == 'R' {
        Some(CfaColor::Red)
    } else if c == 'G' {
        Some(CfaColor::Green)
    } else if c == 'B' {
        Some(CfaColor::Blue)
    } else {
        None
    }
}

/// The filter array of the *cropped* picture, spelled out in letters.
pub open spec fn named_array(kdc: TiffModel) -> Option<CfaModel> {
    match text_in(kdc.bytes, kdc.root().field(KDC_CFA)) {
        Some(name) => if name.len() == 4 {
            bayer_of(
                letter_color(name[0]),
                letter_color(name[1]),
                letter_color(name[2]),
                letter_color(name[3]),
            )
        } else {
            None
        },
        None => None,
    }
}

fn read_letter(c: char) -> (r: Option<CfaColor>)
    ensures
        r == letter_color(c),
{
    match c {
        'R' => Some(CfaColor::Red),
        'G' => Some(CfaColor::Green),
        'B' => Some(CfaColor::Blue),
        _ => None,
    }
}

fn kdc_named_cfa(kdc: &Tiff<'_>) -> (r: Option<Cfa>)
    requires
        kdc@.well_formed(),
    ensures
        match r {
            Some(cfa) => named_array(kdc@) == Some(cfa@),
            None => named_array(kdc@) is None,
        },
{
    let name = match read_text(kdc, field_of(kdc, kdc.root(), KDC_CFA)) {
        Some(name) => name,
        None => return None,
    };
    let letters = characters(name.as_str());
    if letters.len() != 4 {
        return None;
    }
    make_bayer(
        read_letter(letters[0]),
        read_letter(letters[1]),
        read_letter(letters[2]),
        read_letter(letters[3]),
    )
}

/// A quotient without its fraction.
pub open spec fn truncated(q: Ratio) -> int {
    if q.num >= 0 {
        q.num as int / q.den as int
    } else {
        -((-q.num) / q.den as int)
    }
}

/// A quotient loses its fraction towards zero.
pub proof fn law_fractions_are_dropped_towards_zero(q: Ratio)
    requires
        q.den > 0,
    ensures
        q.num >= 0 ==> truncated(q) * q.den <= q.num < (truncated(q) + 1) * q.den,
        q.num <= 0 ==> (truncated(q) - 1) * q.den < q.num <= truncated(q) * q.den,
{
    let (n, d) = (if q.num >= 0 {
        q.num as int
    } else {
        -q.num
    }, q.den as int);
    let t = n / d;
    vstd::arithmetic::div_mod::lemma_fundamental_div_mod(n, d);
    vstd::arithmetic::div_mod::lemma_mod_bound(n, d);
    assert(t * d == d * t && (t + 1) * d == d * t + d && (-t) * d == -(d * t) && (-t - 1) * d
        == -(d * t) - d) by (nonlinear_arith);
}

fn truncate(q: Ratio) -> (r: i64)
    requires
        0 < q.den <= 0xffff_ffff,
        -0x8000_0000 <= q.num <= 0xffff_ffff,
    ensures
        r == truncated(q),
        -0x8000_0000 <= r <= 0xffff_ffff,
{
    if q.num >= 0 {
        let n: u64 = q.num as u64;
        let r: u64 = n / q.den;
        assert(0 <= r <= n) by (nonlinear_arith)
            requires
                r == n / q.den,
                0 < q.den,
        ;
        r as i64
    } else {
        let n: u64 = (-q.num) as u64;
        let r: u64 = n / q.den;
        assert(0 <= r <= n) by (nonlinear_arith)
            requires
                r == n / q.den,
                0 < q.den,
        ;
        -(r as i64)
    }
}

/// The first directory from the `i`th on that has the band table.
pub open spec fn band_ifd(tiff: TiffModel, i: int) -> Option<int>
    decreases tiff.ifds.len() - i,
{
    if i < 0 || i >= tiff.ifds.len() {
        None
    } else if tiff.ifds[i].field(KDC_SUB_OFFSETS) is Some {
        Some(i)
    } else {
        band_ifd(tiff, i + 1)
    }
}

/// Where the samples start. The band table is a mixed bag that ends in a
/// long arithmetic run, an entry a band, and a bias comes off the first.
pub open spec fn samples_start(tiff: TiffModel, sub: IfdModel) -> Outcome<int> {
    let bands = match sub.field(KDC_SUB_OFFSETS) {
        Some(e) => numbers_of(tiff, e, e.count as int),
        None => Seq::empty(),
    };
    let bias = match tiff.ratio(sub, KDC_SUB_OFFSET_BIAS, 0) {
        Some(q) => truncated(q),
        None => 0,
    };
    match ramp_first(bands) {
        None => Err(Fault::Unsupported("KDC band table with no run of band offsets"@)),
        Some(first) => if first - bias < 0 {
            Err(Fault::Corrupt("KDC sample offset out of range"@))
        } else if first - bias >= tiff.bytes.len() {
            Err(Fault::Corrupt("KDC sample offset past the end of the file"@))
        } else {
            Ok(first - bias)
        },
    }
}

fn find_bands(tiff: &Tiff<'_>) -> (r: Option<usize>)
    requires
        tiff@.well_formed(),
    ensures
        match r {
            Some(i) => band_ifd(tiff@, 0) == Some(i as int) && i < tiff.ifds@.len(),
            None => band_ifd(tiff@, 0) is None,
        },
{
    let mut i: usize = 0;
    while i < tiff.ifds.len()
        invariant
            i <= tiff.ifds@.len(),
            band_ifd(tiff@, 0) == band_ifd(tiff@, i as int),
        decreases tiff.ifds@.len() - i,
    {
        assert(tiff@.ifds[i as int] == tiff.ifds@[i as int]@);
        if tiff.ifds[i].has(KDC_SUB_OFFSETS) {
            return Some(i);
        }
        i = i + 1;
    }
    None
}

fn find_start(tiff: &Tiff<'_>, sub: &Ifd) -> (r: Result<usize>)
    requires
        tiff@.well_formed(),
        sub@.inside(tiff.bytes@),
    ensures
        match r {
            Ok(start) => samples_start(tiff@, sub@) == Outcome::<int>::Ok(start as int) && start
                < tiff.bytes@.len(),
            Err(e) => samples_start(tiff@, sub@) == Outcome::<int>::Err(e@),
        },
{
    assert(tiff.bytes@.len() == tiff.bytes.len());
    let bands: Vec<u32> = match field_of(tiff, sub, KDC_SUB_OFFSETS) {
        Some(e) => read_numbers(tiff, e),
        None => Vec::new(),
    };
    let bias: i64 = match first_ratio(tiff, sub, KDC_SUB_OFFSET_BIAS, 0) {
        Some(q) => truncate(q),
        None => 0,
    };
    let first: u32 = match first_band(bands.as_slice()) {
        Some(first) => first,
        None => return Err(unsupported("KDC band table with no run of band offsets")),
    };
    let start: i64 = first as i64 - bias;
    if start < 0 {
        return Err(corrupt("KDC sample offset out of range"));
    }
    if start as u64 >= tiff.bytes.len() as u64 {
        return Err(corrupt("KDC sample offset past the end of the file"));
    }
    Ok(start as usize)
}

/// A crop's origin, moved by up to one pixel so that the array there is
/// the one that the camera names for it.
pub open spec fn nudged(cfa: CfaModel, named: Option<CfaModel>, x: int, y: int) -> (int, int) {
    match named {
        Some(named) => if cfa.shifted(x, y) == named {
            (x, y)
        } else if cfa.shifted(x + 1, y) == named {
            (x + 1, y)
        } else if cfa.shifted(x, y + 1) == named {
            (x, y + 1)
        } else if cfa.shifted(x + 1, y + 1) == named {
            (x + 1, y + 1)
        } else {
            (x, y)
        },
        None => (x, y),
    }
}

/// A crop's origin moves by at most one pixel each way, not at all where
/// the array there is the named one already, and to a place where it is
/// wherever one of the four is such a place.
pub proof fn law_origins_move_to_the_named_array(
    cfa: CfaModel,
    named: Option<CfaModel>,
    x: int,
    y: int,
    dx: int,
    dy: int,
)
    requires
        0 <= dx <= 1,
        0 <= dy <= 1,
    ensures
        ({
            let (a, b) = nudged(cfa, named, x, y);
            &&& x <= a <= x + 1 && y <= b <= y + 1
            &&& named is None || cfa.shifted(x, y) == named->0 ==> (a, b) == (x, y)
            &&& named is Some && cfa.shifted(x + dx, y + dy) == named->0 ==> cfa.shifted(a, b)
                == named->0
        }),
{
}

proof fn lemma_shift_by_parity(cfa: CfaModel, x: int, y: int)
    requires
        cfa.kind is Bayer,
        cfa.width == 2,
        cfa.height == 2,
        0 <= x,
        0 <= y,
    ensures
        cfa.shifted(x % 2, y % 2) == cfa.shifted(x, y),
{
    let a = cfa.shifted(x % 2, y % 2).colors;
    let b = cfa.shifted(x, y).colors;
    assert forall|i: int| 0 <= i < a.len() implies a[i] == b[i] by {
        assert((x % 2 + i % 2) % 2 == (x + i % 2) % 2);
        assert((y % 2 + i / 2) % 2 == (y + i / 2) % 2);
        assert(cfa.color(x % 2 + i % 2, y % 2 + i / 2) == cfa.color(x + i % 2, y + i / 2));
    }
    assert(cfa.shifted(x % 2, y % 2).colors =~= cfa.shifted(x, y).colors);
}

fn agrees(cfa: &Cfa, named: &Cfa, x: u64, y: u64) -> (r: bool)
    requires
        cfa@.kind is Bayer,
    ensures
        r == (cfa@.shifted(x as int, y as int) == named@),
{
    proof {
        lemma_shift_by_parity(cfa@, x as int, y as int);
    }
    cfa.shifted((x % 2) as usize, (y % 2) as usize).same_as(named)
}

fn nudge(cfa: &Cfa, named: &Option<Cfa>, x: u32, y: u32) -> (r: (u64, u64))
    requires
        cfa@.kind is Bayer,
    ensures
        (r.0 as int, r.1 as int) == nudged(
            cfa@,
            match *named {
                Some(cfa) => Some(cfa@),
                None => None,
            },
            x as int,
            y as int,
        ),
        x <= r.0 <= x + 1,
        y <= r.1 <= y + 1,
{
    let (x, y): (u64, u64) = (x as u64, y as u64);
    if let Some(named) = named {
        if agrees(cfa, named, x, y) {
            return (x, y);
        }
        if agrees(cfa, named, x + 1, y) {
            return (x + 1, y);
        }
        if agrees(cfa, named, x, y + 1) {
            return (x, y + 1);
        }
        if agrees(cfa, named, x + 1, y + 1) {
            return (x + 1, y + 1);
        }
    }
    (x, y)
}

/// The crop of an EasyShare picture.
pub open spec fn kdc_crop(kdc: TiffModel, raw: RawModel) -> Rect {
    let root = kdc.root();
    match (
        kdc.number(root, KDC_CROP_LEFT),
        kdc.number(root, KDC_CROP_TOP),
        kdc.number(root, KDC_IMAGE_WIDTH),
        kdc.number(root, KDC_IMAGE_HEIGHT),
    ) {
        (Some(x), Some(y), Some(w), Some(h)) => {
            let (x, y) = nudged(raw.cfa, named_array(kdc), x, y);
            placed(raw.crop, (Some(x), Some(y), Some(w), Some(h)), (raw.width, raw.height))
        },
        _ => raw.crop,
    }
}

fn crop_kdc(kdc: &Tiff<'_>, raw: &RawImage) -> (r: Rect)
    requires
        kdc@.well_formed(),
        raw.cfa@.kind is Bayer,
    ensures
        r == kdc_crop(kdc@, raw@),
{
    let root = kdc.root();
    match (
        first_number(kdc, root, KDC_CROP_LEFT),
        first_number(kdc, root, KDC_CROP_TOP),
        first_number(kdc, root, KDC_IMAGE_WIDTH),
        first_number(kdc, root, KDC_IMAGE_HEIGHT),
    ) {
        (Some(x), Some(y), Some(w), Some(h)) => {
            let named = kdc_named_cfa(kdc);
            let (x, y): (u64, u64) = nudge(&raw.cfa, &named, x, y);
            if x > raw.width as u64 || y > raw.height as u64 {
                return raw.crop;
            }
            match crop_within(
                x as usize,
                y as usize,
                w as usize,
                h as usize,
                (raw.width, raw.height),
            ) {
                Some(crop) => crop,
                None => raw.crop,
            }
        },
        _ => raw.crop,
    }
}

/// The size and the depth of an EasyShare frame. The stated height is odd
/// and one short; the depth is believed only when it could be one.
pub open spec fn kdc_shape(kdc: TiffModel) -> Outcome<(int, int, int)> {
    let root = kdc.root();
    match kdc.number(root, KDC_WIDTH) {
        None => Err(Fault::Corrupt("KDC without a frame width"@)),
        Some(width) => match kdc.number(root, KDC_HEIGHT) {
            None => Err(Fault::Corrupt("KDC without a frame height"@)),
            Some(height) => if width == 0 || height == 0 {
                Err(Fault::Corrupt("KDC with an empty frame"@))
            } else {
                let depth = or_zero(kdc.number(root, KDC_DEPTH));
                Ok(
                    (
                        width,
                        height + height % 2,
                        if 8 <= depth <= 16 {
                            depth
                        } else {
                            12
                        },
                    ),
                )
            },
        },
    }
}

fn read_shape(kdc: &Tiff<'_>) -> (r: Result<(u32, u64, u32)>)
    requires
        kdc@.well_formed(),
    ensures
        match r {
            Ok((w, h, bits)) => kdc_shape(kdc@) == Outcome::<(int, int, int)>::Ok(
                (w as int, h as int, bits as int),
            ) && 0 < w && 0 < h <= 0x1_0000_0000 && 8 <= bits <= 16,
            Err(e) => kdc_shape(kdc@) == Outcome::<(int, int, int)>::Err(e@),
        },
{
    let root = kdc.root();
    let width: u32 = match first_number(kdc, root, KDC_WIDTH) {
        Some(n) => n,
        None => return Err(corrupt("KDC without a frame width")),
    };
    let height: u32 = match first_number(kdc, root, KDC_HEIGHT) {
        Some(n) => n,
        None => return Err(corrupt("KDC without a frame height")),
    };
    let bits: u32 = match first_number(kdc, root, KDC_DEPTH) {
        Some(bits) => if 8 <= bits && bits <= 16 {
            bits
        } else {
            12
        },
        None => 12,
    };
    if width == 0 || height == 0 {
        return Err(corrupt("KDC with an empty frame"));
    }
    Ok((width, height as u64 + (height % 2) as u64, bits))
}

fn unpack_kdc(data: &[u8], width: u32, height: u64, bits: u32, little: bool) -> (r: Result<Vec<u16>>)
    requires
        0 < height <= 0x1_0000_0000,
        8 <= bits <= 16,
    ensures
        deep_outcome(r) == unpacked(data@, width * height, bits as int, little),
        r is Ok ==> width * height <= usize::MAX,
{
    assert(data@.len() == data.len());
    proof {
        assert(0 <= width * height <= 0xffff_ffff * 0x1_0000_0000) by (nonlinear_arith)
            requires
                0 <= width <= 0xffff_ffff,
                0 <= height <= 0x1_0000_0000,
        ;
    }
    let pixels: u64 = width as u64 * height;
    if pixels > usize::MAX as u64 {
        return if bits == 8 {
            Err(corrupt("Kodak frame shorter than its 8-bit samples"))
        } else if bits == 12 {
            Err(corrupt("Kodak frame too large"))
        } else if bits == 16 {
            Err(corrupt("Kodak frame shorter than its 16-bit samples"))
        } else {
            let mut text = "Kodak frame with ".to_string();
            push_decimal(&mut text, bits as u64);
            text.append("-bit samples");
            Err(Error::Unsupported(text))
        };
    }
    unpack(data, pixels as usize, bits, little)
}

/// A frame that only the private directories describe.
pub open spec fn kdc_frame(tiff: TiffModel, kdc: TiffModel) -> Outcome<RawModel> {
    match kdc_shape(kdc) {
        Err(fault) => Err(fault),
        Ok((width, height, bits)) => match band_ifd(tiff, 0) {
            None => Err(Fault::Unsupported("KDC without the 0xFD04 band table"@)),
            Some(i) => match samples_start(tiff, tiff.ifds[i]) {
                Err(fault) => Err(fault),
                Ok(start) => match unpacked(
                    tiff.bytes.skip(start),
                    width * height,
                    bits,
                    tiff.little,
                ) {
                    Err(fault) => Err(fault),
                    Ok(samples) => Ok(
                        kdc_described(tiff, tiff.ifds[i], kdc, (width, height, bits), samples),
                    ),
                },
            },
        },
    }
}

/// An EasyShare frame with what the directories say of it.
pub open spec fn kdc_described(
    tiff: TiffModel,
    sub: IfdModel,
    kdc: TiffModel,
    shape: (int, int, int),
    samples: Seq<u16>,
) -> RawModel {
    let plain = plain_image(
        Format::Kodak,
        shape.0 as usize,
        shape.1 as usize,
        1,
        samples,
        pattern_of(tiff, sub.field(KDC_SUB_CFA_PATTERN)),
    );
    RawModel {
        white_level: full_scale_of(shape.2),
        wb_coeffs: match kdc_balance(kdc) {
            Some(gains) => gains,
            None => plain.wb_coeffs,
        },
        crop: kdc_crop(kdc, plain),
        ..plain
    }
}

fn decode_kdc(tiff: &Tiff<'_>, kdc: &Tiff<'_>) -> (r: Result<RawImage>)
    requires
        tiff@.well_formed(),
        kdc@.well_formed(),
    ensures
        deep_outcome(r) == kdc_frame(tiff@, kdc@),
{
    let (width, height, bits): (u32, u64, u32) = match read_shape(kdc) {
        Ok(shape) => shape,
        Err(e) => return Err(e),
    };
    let i: usize = match find_bands(tiff) {
        Some(i) => i,
        None => return Err(unsupported("KDC without the 0xFD04 band table")),
    };
    let sub = &tiff.ifds[i];
    assert(tiff@.ifds[i as int] == sub@);
    assert(tiff@.ifds[i as int].inside(tiff.bytes@));
    let start: usize = match find_start(tiff, sub) {
        Ok(start) => start,
        Err(e) => return Err(e),
    };
    assert(tiff.bytes@.len() == tiff.bytes.len());
    let data = slice_subrange(tiff.bytes, start, tiff.bytes.len());
    assert(data@ =~= tiff.bytes@.skip(start as int));
    let samples = match unpack_kdc(data, width, height, bits, tiff.little) {
        Ok(samples) => samples,
        Err(e) => return Err(e),
    };
    proof {
        assert(height <= width * height) by (nonlinear_arith)
            requires
                1 <= width,
                0 <= height,
        ;
    }
    // The array is spelled out twice: once for the cropped picture, once
    // for the frame. The frame's is the one that belongs here.
    let cfa = cfa_from_pattern(tiff, field_of(tiff, sub, KDC_SUB_CFA_PATTERN));
    let mut raw = RawImage::new(
        Format::Kodak,
        width as usize,
        height as usize,
        1,
        samples,
        cfa,
    );
    let crop = crop_kdc(kdc, &raw);
    raw.crop = crop;
    raw.white_level = full_scale(bits);
    if let Some(gains) = kdc_white_balance(kdc) {
        raw.wb_coeffs = gains;
    }
    Ok(raw)
}

// ------------------------------------------------------------ decoding

/// What a parsed file decodes to; `jpeg` is what a lossless JPEG decoder
/// makes of the strip.
pub open spec fn decoded(tiff: TiffModel, jpeg: Outcome<LosslessModel>) -> Outcome<RawModel> {
    let framed = match sensor_ifd(tiff) {
        Some(i) => tiff_frame(tiff, tiff.ifds[i], private_of(tiff, KODAK_IFD), jpeg),
        None => match private_of(tiff, KDC_IFD) {
            Some(kdc) => kdc_frame(tiff, kdc),
            None => Err(
                Fault::Unsupported("Kodak TIFF with neither a CFA image IFD nor a KDC directory"@),
            ),
        },
    };
    match framed {
        Err(fault) => Err(fault),
        Ok(raw) => Ok(
            RawModel {
                make: trimmed(camera_of(tiff).0),
                model: trimmed(camera_of(tiff).1),
                orientation: orientation_of(tiff),
                metadata: metadata_of(tiff),
                preview: best_picture(tiff, tiff.ifds.len() as int),
                ..raw
            },
        ),
    }
}

/// Decodes the sensor frame of a parsed file. `jpeg` is what a lossless
/// JPEG decoder makes of the stream that [`jpeg_strip`] names.
pub fn decode_tiff(tiff: &Tiff<'_>, jpeg: Result<LosslessFrame>) -> (r: Result<RawImage>)
    requires
        tiff@.well_formed(),
    ensures
        deep_outcome(r) == decoded(tiff@, deep_outcome(jpeg)),
{
    let framed = match raw_ifd(tiff) {
        Some(i) => {
            let ifd = &tiff.ifds[i];
            assert(tiff@.ifds[i as int] == ifd@);
            assert(tiff@.ifds[i as int].inside(tiff.bytes@));
            let kodak = private_ifd(tiff, KODAK_IFD);
            assert(maybe_tiff(kodak) == private_of(tiff@, KODAK_IFD));
            decode_tiff_raw(tiff, ifd, &kodak, jpeg)
        },
        None => match private_ifd(tiff, KDC_IFD) {
            Some(kdc) => decode_kdc(tiff, &kdc),
            None => Err(
                unsupported("Kodak TIFF with neither a CFA image IFD nor a KDC directory"),
            ),
        },
    };
    match framed {
        Ok(raw) => {
            let mut raw = raw;
            let (make, model) = make_model(tiff);
            raw.set_camera(make.as_str(), model.as_str());
            raw.orientation = orientation(tiff);
            raw.metadata = metadata(tiff);
            raw.preview = largest_jpeg(tiff);
            Ok(raw)
        },
        Err(e) => Err(e),
    }
}

/// Decodes a Kodak raw into its sensor frame and metadata.
pub fn decode(bytes: &[u8], jpeg: Result<LosslessFrame>) -> (r: Result<RawImage>)
    ensures
        deep_outcome(r) == match tiff_at(bytes@, 0) {
            Ok(tiff) => decoded(tiff, deep_outcome(jpeg)),
            Err(fault) => Outcome::<RawModel>::Err(fault),
        },
{
    match Tiff::parse(bytes) {
        Ok(tiff) => decode_tiff(&tiff, jpeg),
        Err(e) => Err(e),
    }
}

/// Where the lossless JPEG lies that holds the sensor data: start and
/// length, if the sensor data is one.
pub open spec fn jpeg_strip_of(tiff: TiffModel) -> Option<(usize, usize)> {
    match sensor_ifd(tiff) {
        Some(i) => match layout_of(tiff, tiff.ifds[i]) {
            Ok(layout) => if layout.chunks.len() == 1 && layout.compression == 7 {
                Some(layout.chunks[0])
            } else {
                None
            },
            Err(_) => None,
        },
        None => None,
    }
}

/// Where the lossless JPEG lies that holds the sensor data: start and
/// length, if the sensor data is one.
pub fn jpeg_strip(bytes: &[u8]) -> (r: Option<(usize, usize)>)
    ensures
        r == match tiff_at(bytes@, 0) {
            Ok(tiff) => jpeg_strip_of(tiff),
            Err(_) => None,
        },
        r matches Some((start, len)) ==> start + len <= bytes@.len(),
{
    let tiff = match Tiff::parse(bytes) {
        Ok(tiff) => tiff,
        Err(_) => return None,
    };
    let i: usize = match raw_ifd(&tiff) {
        Some(i) => i,
        None => return None,
    };
    let ifd = &tiff.ifds[i];
    assert(tiff@.ifds[i as int] == ifd@);
    assert(tiff@.ifds[i as int].inside(tiff.bytes@));
    match ImageLayout::of(&tiff, ifd) {
        Ok(layout) => {
            if layout.chunks.len() == 1 && layout.compression == 7 {
                let found = layout.chunks[0];
                assert(found.0 + found.1 <= tiff.bytes@.len()) by {
                    assert(layout.chunks@[0] == found);
                }
                Some(found)
            } else {
                None
            }
        },
        Err(_) => None,
    }
}

/// The largest embedded JPEG.
pub fn preview(bytes: &[u8]) -> (r: Result<Option<Vec<u8>>>)
    ensures
        preview_outcome(r) == pictured(bytes@),
{
    match Tiff::parse(bytes) {
        Ok(tiff) => Ok(largest_jpeg(&tiff)),
        Err(e) => Err(e),
    }
}

} // verus!
