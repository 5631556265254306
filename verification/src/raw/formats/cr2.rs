//! Canon CR2: a sensor frame stored as a lossless JPEG cut into vertical
//! slices, and the smaller YCbCr pictures written in its place.

use crate::bytes::{read_be16, read_le16, signed16, word16, word32_in};
use crate::raw::common::{
    best_picture, camera_of, field_of, first_number, largest_jpeg, make_model, metadata,
    metadata_of, orientation, orientation_of, pictured,
};
use crate::raw::formats::crx::{ceil_div, div_up};
use crate::raw::formats::kodak::or_zero;
use crate::raw::frame::{
    all_four, full_scale, full_scale_of, plain_image, Gain, Ratio, RawImage, RawModel,
};
use crate::grid::{lemma_place, lemma_place_inverse, lemma_place_of, place};
use crate::raw::image::{bggr, gbrg, grbg, no_array, rggb, Cfa, CfaColor, CfaModel};
use crate::raw::ljpeg::{LosslessFrame, LosslessHeader, LosslessModel};
use crate::raw::tiff::{
    bare_at, tiff_at, Entry, Ifd, IfdModel, Tiff, TiffModel, MAKER_NOTE, STRIP_BYTE_COUNTS,
    STRIP_OFFSETS,
};
use crate::raw::{
    corrupt, deep_outcome, frame_samples, frame_samples_spec, outcome, preview_outcome,
    unsupported, Error, Fault, Format, Outcome, Rect, Result,
};
use crate::text::{decimal, hex, push_decimal, push_hex, trimmed};
use vstd::prelude::*;

verus! {

// ------------------------------------------------------------- slices

/// What the slices `[count, first, last]` of a frame say of it.
pub open spec fn slices_fault(samples: int, row: int, height: int, slices: Seq<usize>) -> Option<
    Fault,
> {
    let (count, first, last) = (slices[0] as int, slices[1] as int, slices[2] as int);
    let width = count * first + last;
    if width > usize::MAX {
        Some(Fault::Corrupt("cr2: slice widths overflow"@))
    } else if width != row {
        Some(
            Fault::Corrupt(
                "cr2: slices "@ + decimal(count) + "x"@ + decimal(first) + "+"@ + decimal(last)
                    + " make "@ + decimal(width) + " samples a row, the frame has "@ + decimal(row),
            ),
        )
    } else if width * height > usize::MAX {
        Some(Fault::Corrupt("cr2: frame too large"@))
    } else if samples != width * height {
        Some(
            Fault::Corrupt(
                "cr2: "@ + decimal(samples) + " samples for a "@ + decimal(width) + "x"@ + decimal(
                    height,
                ) + " frame"@,
            ),
        )
    } else {
        None
    }
}

/// Where in the stream the sample in column `x` of row `y` lies: the
/// slices are full-height columns, `count` of them `first` wide and then
/// the rest.
pub open spec fn slice_place(count: int, first: int, last: int, height: int, y: int, x: int) -> int {
    let s = if first > 0 && x / first < count {
        x / first
    } else if first > 0 {
        count
    } else {
        0
    };
    let across = if first > 0 && s < count {
        first
    } else {
        last
    };
    s * first * height + y * across + (x - s * first)
}

/// The frame width and the raster that slices make.
pub open spec fn desliced(samples: Seq<u16>, row: int, height: int, slices: Seq<usize>) -> Outcome<
    (int, Seq<u16>),
> {
    match slices_fault(samples.len() as int, row, height, slices) {
        Some(fault) => Err(fault),
        None => {
            let (count, first, last) = (slices[0] as int, slices[1] as int, slices[2] as int);
            if count == 0 || first == 0 {
                Ok((row, samples))
            } else {
                Ok(
                    (
                        row,
                        Seq::new(
                            samples.len(),
                            |i: int|
                                samples[slice_place(count, first, last, height, i / row, i % row)],
                        ),
                    ),
                )
            }
        },
    }
}

proof fn lemma_slice_place(count: int, first: int, last: int, height: int, y: int, x: int)
    requires
        count > 0,
        first > 0,
        last >= 0,
        0 <= y < height,
        0 <= x < count * first + last,
    ensures
        0 <= slice_place(count, first, last, height, y, x) < (count * first + last) * height,
        x / first < count ==> (x / first) * first <= x < (x / first) * first + first,
        x / first >= count ==> count * first <= x,
        0 <= x / first,
{
    vstd::arithmetic::div_mod::lemma_fundamental_div_mod(x, first);
    vstd::arithmetic::div_mod::lemma_mod_bound(x, first);
    vstd::arithmetic::div_mod::lemma_div_pos_is_pos(x, first);
    let q = x / first;
    assert(first * q == q * first) by (nonlinear_arith);
    let s = if q < count {
        q
    } else {
        count
    };
    let across = if q < count {
        first
    } else {
        last
    };
    assert((count * first + last) * height == count * first * height + last * height)
        by (nonlinear_arith);
    assert(y * across + across <= across * height) by (nonlinear_arith)
        requires
            y + 1 <= height,
            0 <= across,
    ;
    assert(0 <= y * across) by (nonlinear_arith)
        requires
            0 <= y,
            0 <= across,
    ;
    assert(0 <= s * first * height) by (nonlinear_arith)
        requires
            0 <= s,
            0 < first,
            0 <= height,
    ;
    if q < count {
        assert(s * first * height + first * height <= count * first * height) by (nonlinear_arith)
            requires
                s + 1 <= count,
                0 < first,
                0 <= height,
        ;
        assert(0 <= last * height) by (nonlinear_arith)
            requires
                0 <= last,
                0 <= height,
        ;
    } else {
        assert(count * first <= q * first) by (nonlinear_arith)
            requires
                count <= q,
                0 < first,
        ;
    }
}

/// Puts vertical slices back into one raster.
///
/// `samples` is the decoder's output in stream order. Each slice was
/// compressed as a full-height column, so the stream holds slice 0's
/// `height` lines of `first` samples, then slice 1's, and so on, with a
/// final slice `last` wide. Returns the frame width and the raster.
pub fn deslice(samples: &[u16], row: usize, height: usize, slices: [usize; 3]) -> (r: Result<
    (usize, Vec<u16>),
>)
    ensures
        match r {
            Ok((width, frame)) => desliced(samples@, row as int, height as int, slices@)
                == Outcome::<(int, Seq<u16>)>::Ok((width as int, frame@)),
            Err(e) => desliced(samples@, row as int, height as int, slices@) == Outcome::<
                (int, Seq<u16>),
            >::Err(e@),
        },
{
    let (count, first, last) = (slices[0], slices[1], slices[2]);
    let sliced: Option<usize> = match count.checked_mul(first) {
        Some(whole) => whole.checked_add(last),
        None => None,
    };
    let width: usize = match sliced {
        Some(width) => width,
        None => return Err(corrupt("cr2: slice widths overflow")),
    };
    if width != row {
        let mut text = "cr2: slices ".to_string();
        push_decimal(&mut text, count as u64);
        text.append("x");
        push_decimal(&mut text, first as u64);
        text.append("+");
        push_decimal(&mut text, last as u64);
        text.append(" make ");
        push_decimal(&mut text, width as u64);
        text.append(" samples a row, the frame has ");
        push_decimal(&mut text, row as u64);
        return Err(Error::Corrupt(text));
    }
    let total: usize = match width.checked_mul(height) {
        Some(total) => total,
        None => return Err(corrupt("cr2: frame too large")),
    };
    if samples.len() != total {
        let mut text = "cr2: ".to_string();
        push_decimal(&mut text, samples.len() as u64);
        text.append(" samples for a ");
        push_decimal(&mut text, width as u64);
        text.append("x");
        push_decimal(&mut text, height as u64);
        text.append(" frame");
        return Err(Error::Corrupt(text));
    }
    let mut out: Vec<u16> = Vec::new();
    if count == 0 || first == 0 {
        let mut i: usize = 0;
        while i < samples.len()
            invariant
                i <= samples@.len(),
                out@ == samples@.take(i as int),
            decreases samples@.len() - i,
        {
            out.push(samples[i]);
            i = i + 1;
            assert(out@ =~= samples@.take(i as int));
        }
        assert(out@ =~= samples@);
        return Ok((width, out));
    }
    let ghost (n, f, l, w, h) = (
        count as int,
        first as int,
        last as int,
        width as int,
        height as int,
    );
    let ghost goal = Seq::new(
        samples@.len(),
        |i: int| samples@[slice_place(n, f, l, h, i / w, i % w)],
    );
    let mut y: usize = 0;
    while y < height
        invariant
            y <= height,
            n == count,
            f == first,
            l == last,
            w == width,
            h == height,
            n > 0,
            f > 0,
            w == n * f + l,
            samples@.len() == w * h,
            w * h <= usize::MAX,
            goal == Seq::new(
                samples@.len(),
                |i: int| samples@[slice_place(n, f, l, h, i / w, i % w)],
            ),
            out@.len() == y * w,
            out@ == goal.take(out@.len() as int),
        decreases height - y,
    {
        let mut x: usize = 0;
        while x < width
            invariant
                y < height,
                x <= width,
                n == count,
                f == first,
                l == last,
                w == width,
                h == height,
                n > 0,
                f > 0,
                w == n * f + l,
                samples@.len() == w * h,
                w * h <= usize::MAX,
                goal == Seq::new(
                    samples@.len(),
                    |i: int| samples@[slice_place(n, f, l, h, i / w, i % w)],
                ),
                out@.len() == y * w + x,
                out@ == goal.take(out@.len() as int),
            decreases width - x,
        {
            proof {
                lemma_slice_place(n, f, l, h, y as int, x as int);
                lemma_place_inverse(w, y as int, x as int);
                lemma_place(w, h, y as int, x as int);
            }
            let at: usize = stream_index(count, first, last, height, y, x);
            out.push(samples[at]);
            x = x + 1;
            assert(out@ =~= goal.take(out@.len() as int));
        }
        proof {
            assert((y + 1) * w == y * w + w) by (nonlinear_arith);
        }
        y = y + 1;
    }
    proof {
        assert(y * w == w * h) by (nonlinear_arith)
            requires
                y == h,
        ;
    }
    assert(out@ =~= goal);
    Ok((width, out))
}

fn stream_index(count: usize, first: usize, last: usize, height: usize, y: usize, x: usize) -> (at:
    usize)
    requires
        count > 0,
        first > 0,
        y < height,
        x < count * first + last,
        (count * first + last) * height <= usize::MAX,
    ensures
        at == slice_place(
            count as int,
            first as int,
            last as int,
            height as int,
            y as int,
            x as int,
        ),
{
    let ghost (n, f, l, h) = (count as int, first as int, last as int, height as int);
    proof {
        lemma_slice_place(n, f, l, h, y as int, x as int);
    }
    let s: usize = if x / first < count {
        x / first
    } else {
        count
    };
    let across: usize = if s < count {
        first
    } else {
        last
    };
    proof {
        assert(0 <= s * f <= x) by {
            assert(0 <= s * f) by (nonlinear_arith)
                requires
                    0 <= s,
                    0 < f,
            ;
        }
        assert(0 <= y * across) by (nonlinear_arith)
            requires
                0 <= y,
                0 <= across,
        ;
        assert(0 <= s * f * h) by (nonlinear_arith)
            requires
                0 <= s * f,
                0 <= h,
        ;
    }
    let start: usize = s * first;
    start * height + y * across + (x - start)
}

/// The Bayer phase that a pattern tag names; anything else is the
/// commonest of the four.
pub open spec fn phase(value: Option<u32>) -> CfaModel {
    match value {
        Some(2) => bggr(),
        Some(3) => gbrg(),
        Some(4) => grbg(),
        _ => rggb(),
    }
}

/// The Bayer phase at the sensor frame's origin, from the pattern tag.
pub fn cfa_of(value: Option<u32>) -> (cfa: Cfa)
    ensures
        cfa@ == phase(value),
{
    match value {
        Some(2) => Cfa::bggr(),
        Some(3) => Cfa::gbrg(),
        Some(4) => Cfa::grbg(),
        _ => Cfa::rggb(),
    }
}

// ------------------------------------------------- subsampled pictures

/// The chroma level a neutral pixel decodes to.
pub const SRAW_NEUTRAL: i32 = 0x4000;

/// The bodies whose colour reconstruction is known to be right.
pub open spec fn is_verified_body(model_id: Option<u32>) -> bool {
    model_id == Some(0x8000_0261u32) || model_id == Some(0x8000_0250u32)
}

/// What a body is called when it is refused.
pub open spec fn body_name(model_id: Option<u32>, model: Seq<char>) -> Seq<char> {
    if model.len() > 0 {
        model
    } else {
        match model_id {
            Some(id) => "model id 0x"@ + hex(id as int),
            None => "an unnamed body"@,
        }
    }
}

/// Refuses a body whose colour reconstruction has not been measured: a
/// frame that decodes to plausible but wrong colour is the worst outcome.
pub fn sraw_verified_body(model_id: Option<u32>, model: &str) -> (r: Result<()>)
    ensures
        match r {
            Ok(_) => is_verified_body(model_id),
            Err(e) => !is_verified_body(model_id) && e@ == Fault::Unsupported(
                "Canon sRAW on "@ + body_name(model_id, model@)
                    + ": colour reconstruction not verified for this body"@,
            ),
        },
{
    if let Some(id) = model_id {
        if id == 0x8000_0261 || id == 0x8000_0250 {
            return Ok(());
        }
    }
    let mut name = String::new();
    if model.unicode_len() > 0 {
        name.append(model);
        assert(name@ =~= model@);
    } else {
        match model_id {
            Some(id) => {
                name = "model id 0x".to_string();
                push_hex(&mut name, id as u64);
            },
            None => {
                name = "an unnamed body".to_string();
            },
        }
    }
    let mut text = "Canon sRAW on ".to_string();
    text.append(name.as_str());
    text.append(": colour reconstruction not verified for this body");
    Err(Error::Unsupported(text))
}

/// A decoded lossless JPEG whose chroma is subsampled.
pub struct SubsampledImage {
    pub width: usize,
    pub height: usize,
    /// Luma samples of a block, less one.
    pub p: usize,
    /// Samples of a block: its luma and one chroma pair.
    pub components: usize,
    /// Rows a block covers.
    pub block_rows: usize,
    /// Samples of one entropy row.
    pub row: usize,
    /// Entropy rows.
    pub rows: usize,
    pub precision: u32,
    pub data: Vec<u16>,
}

/// Rows a block covers, at least one.
pub open spec fn block_height(sub: SubsampledImage) -> int {
    if sub.block_rows == 0 {
        1
    } else {
        sub.block_rows as int
    }
}

/// The columns of the picture that blocks are placed in: what the stream
/// codes, cut to the picture's even width.
pub open spec fn covered(sub: SubsampledImage, width: int) -> int {
    let even = width - width % 2;
    let coded = sub.row as int / sub.components as int * 2;
    if coded <= even {
        coded
    } else {
        even
    }
}

/// Where the block anchored in row `r` (a multiple of the block height)
/// and even column `c` lies in the stream. A strip is `first` samples of
/// an entropy row, so it spans `first * 2 / components` columns, and each
/// strip is written full height before the next begins.
pub open spec fn block_place(sub: SubsampledImage, slices: Seq<usize>, r: int, c: int) -> int {
    let components = sub.components as int;
    let (first, last) = (slices[1] as int, slices[2] as int);
    let count = if first == 0 {
        0
    } else {
        slices[0] as int
    };
    let columns = first / components * 2;
    let s = if columns > 0 && c / columns < count {
        c / columns
    } else {
        count
    };
    let across = if s < count {
        first
    } else {
        last
    };
    let blocks = ceil_div(sub.height as int, block_height(sub));
    s * first * blocks + r / block_height(sub) * across + (c - s * columns) / 2 * components
}

/// Whether the block of a pixel lies in the stream.
pub open spec fn block_present(sub: SubsampledImage, slices: Seq<usize>, y: int, x: int) -> bool {
    let (r, c) = (y - y % block_height(sub), x - x % 2);
    block_place(sub, slices, r, c) + sub.components <= sub.data@.len()
}

/// Sample `i` of the interleaved Y, Cb, Cr planes: luma everywhere a block
/// covers, chroma centred on zero at each block's anchor pixel only.
pub open spec fn plane_sample(sub: SubsampledImage, width: int, slices: Seq<usize>, i: int) -> i32 {
    let (y, x, channel) = (i / 3 / width, i / 3 % width, i % 3);
    let (r, c) = (y - y % block_height(sub), x - x % 2);
    let at = block_place(sub, slices, r, c);
    if c >= covered(sub, width) {
        0
    } else if channel == 0 {
        let k = 2 * (y - r) + (x - c);
        if k < sub.components - 2 {
            sub.data@[at + k] as i32
        } else {
            0
        }
    } else if y == r && x == c {
        (sub.data@[at + sub.components - 3 + channel] - 0x4000) as i32
    } else {
        0
    }
}

/// Why the blocks of a frame cannot be placed.
pub open spec fn planes_fault(sub: SubsampledImage, width: usize, slices: Seq<usize>) -> Option<
    Fault,
> {
    let (count, first, last) = (slices[0] as int, slices[1] as int, slices[2] as int);
    let row = count * first + last;
    if row > usize::MAX {
        Some(Fault::Corrupt("cr2: sRAW slice widths overflow"@))
    } else if row != sub.row {
        Some(
            Fault::Corrupt(
                "cr2: slices "@ + decimal(count) + "x"@ + decimal(first) + "+"@ + decimal(last)
                    + " make "@ + decimal(row) + " samples a row, the sRAW frame has "@ + decimal(
                    sub.row as int,
                ),
            ),
        )
    } else if first % sub.components as int != 0 || last % sub.components as int != 0 {
        Some(
            Fault::Corrupt(
                "cr2: sRAW slices of "@ + decimal(first) + " and "@ + decimal(last)
                    + " samples are not whole "@ + decimal(sub.components as int)
                    + "-sample MCUs"@,
            ),
        )
    } else if width * 3 > usize::MAX {
        Some(Fault::Corrupt("cr2: sRAW frame too wide"@))
    } else {
        match frame_samples_spec(width, sub.height, 3) {
            Err(fault) => Some(fault),
            Ok(_) => if exists|y: int, x: int|
                0 <= y < sub.height && 0 <= x < covered(sub, width as int)
                    && !#[trigger] block_present(sub, slices, y, x) {
                Some(Fault::Corrupt("cr2: sRAW slice runs past the decoded frame"@))
            } else {
                None
            },
        }
    }
}

proof fn lemma_block_place(sub: SubsampledImage, slices: Seq<usize>, y: int, x: int)
    requires
        sub.components >= 2,
        slices.len() == 3,
        slices[0] * slices[1] + slices[2] == sub.row,
        slices[1] as int % sub.components as int == 0,
        slices[2] as int % sub.components as int == 0,
        0 <= y < sub.height,
        0 <= x,
        x - x % 2 < sub.row as int / sub.components as int * 2,
    ensures
        ({
            let components = sub.components as int;
            let (first, last) = (slices[1] as int, slices[2] as int);
            let count = if first == 0 {
                0
            } else {
                slices[0] as int
            };
            let columns = first / components * 2;
            let (r, c) = (y - y % block_height(sub), x - x % 2);
            let s = if columns > 0 && c / columns < count {
                c / columns
            } else {
                count
            };
            let across = if s < count {
                first
            } else {
                last
            };
            let blocks = ceil_div(sub.height as int, block_height(sub));
            let inner = (c - s * columns) / 2 * components;
            &&& r / block_height(sub) == y / block_height(sub)
            &&& first > 0 ==> columns >= 2
            &&& 0 <= s <= count
            &&& 0 <= s * columns <= c
            &&& 0 <= s * first <= sub.row
            &&& 0 <= s * first * blocks
            &&& 0 <= y / block_height(sub) < blocks <= sub.height
            &&& 0 <= y / block_height(sub) * across
            &&& 0 <= inner
            &&& inner + components <= across
            &&& s * first * blocks + y / block_height(sub) * across + across <= sub.row * blocks
            &&& sub.row * blocks <= usize::MAX * usize::MAX
        }),
{
    let components = sub.components as int;
    let (n, first, last) = (slices[0] as int, slices[1] as int, slices[2] as int);
    let row = sub.row as int;
    let count = if first == 0 {
        0
    } else {
        n
    };
    assert(count * first == n * first) by (nonlinear_arith)
        requires
            first == 0 || count == n,
    ;
    let q = first / components;
    let t = last / components;
    let columns = q * 2;
    let br = block_height(sub);
    let (r, c) = (y - y % br, x - x % 2);
    let b = y / br;
    vstd::arithmetic::div_mod::lemma_fundamental_div_mod(y, br);
    vstd::arithmetic::div_mod::lemma_mod_bound(y, br);
    vstd::arithmetic::div_mod::lemma_div_pos_is_pos(y, br);
    vstd::arithmetic::div_mod::lemma_fundamental_div_mod_converse(r, br, b, 0);
    let blocks = ceil_div(sub.height as int, br);
    vstd::arithmetic::div_mod::lemma_fundamental_div_mod(sub.height as int, br);
    vstd::arithmetic::div_mod::lemma_mod_bound(sub.height as int, br);
    let hq = sub.height as int / br;
    let hm = sub.height as int % br;
    assert(b < blocks) by (nonlinear_arith)
        requires
            br > 0,
            y == br * b + y % br,
            y % br >= 0,
            sub.height as int == br * hq + hm,
            0 <= hm < br,
            y < sub.height as int,
            blocks == if hm == 0 {
                hq
            } else {
                hq + 1
            },
    ;
    assert(blocks <= sub.height) by (nonlinear_arith)
        requires
            br >= 1,
            sub.height as int == br * hq + hm,
            0 <= hm < br,
            0 <= sub.height as int,
            blocks == if hm == 0 {
                hq
            } else {
                hq + 1
            },
    ;
    // Whole blocks in each strip.
    vstd::arithmetic::div_mod::lemma_fundamental_div_mod(first, components);
    vstd::arithmetic::div_mod::lemma_fundamental_div_mod(last, components);
    assert(first == q * components && last == t * components) by (nonlinear_arith)
        requires
            first == components * q,
            last == components * t,
    ;
    assert(row == components * (count * q + t) + 0) by (nonlinear_arith)
        requires
            row == count * first + last,
            first == q * components,
            last == t * components,
    ;
    vstd::arithmetic::div_mod::lemma_fundamental_div_mod_converse(
        row,
        components,
        count * q + t,
        0,
    );
    vstd::arithmetic::div_mod::lemma_div_pos_is_pos(first, components);
    vstd::arithmetic::div_mod::lemma_div_pos_is_pos(last, components);
    if first > 0 {
        assert(q >= 1) by (nonlinear_arith)
            requires
                first == q * components,
                first > 0,
                components > 0,
                q >= 0,
        ;
        vstd::arithmetic::div_mod::lemma_fundamental_div_mod(c, columns);
        vstd::arithmetic::div_mod::lemma_mod_bound(c, columns);
        vstd::arithmetic::div_mod::lemma_div_pos_is_pos(c, columns);
    }
    let s = if columns > 0 && c / columns < count {
        c / columns
    } else {
        count
    };
    let across = if s < count {
        first
    } else {
        last
    };
    assert(0 <= s * columns <= c) by {
        if columns == 0 {
            assert(s == 0);
        } else if c / columns < count {
            assert(s * columns == columns * (c / columns)) by (nonlinear_arith)
                requires
                    s == c / columns,
            ;
            assert(0 <= s * columns) by (nonlinear_arith)
                requires
                    0 <= s,
                    0 <= columns,
            ;
        } else {
            assert(s * columns <= columns * (c / columns)) by (nonlinear_arith)
                requires
                    s <= c / columns,
                    columns >= 0,
            ;
            assert(0 <= s * columns) by (nonlinear_arith)
                requires
                    0 <= s,
                    0 <= columns,
            ;
        }
    }
    let k = (c - s * columns) / 2;
    assert(s * columns == 2 * (s * q)) by (nonlinear_arith)
        requires
            columns == q * 2,
    ;
    assert(c % 2 == 0);
    assert(c - s * columns == 2 * k);
    let share = if s < count {
        q
    } else {
        t
    };
    assert(k < share) by {
        if s < count {
            assert(c < columns * (c / columns) + columns);
            assert(columns * (c / columns) == s * columns) by (nonlinear_arith)
                requires
                    s == c / columns,
            ;
        } else {
            assert(c < (count * q + t) * 2);
            assert((count * q + t) * 2 == s * columns + 2 * t) by (nonlinear_arith)
                requires
                    s == count,
                    columns == q * 2,
            ;
        }
    }
    assert(across == share * components);
    assert(k * components + components <= share * components) by (nonlinear_arith)
        requires
            k + 1 <= share,
            components > 0,
    ;
    assert(0 <= k * components) by (nonlinear_arith)
        requires
            0 <= k,
            components > 0,
    ;
    assert(0 <= s * first) by (nonlinear_arith)
        requires
            0 <= s,
            0 <= first,
    ;
    assert(s * first + across <= row) by {
        if s < count {
            assert(s * first + first <= count * first) by (nonlinear_arith)
                requires
                    s + 1 <= count,
                    0 <= first,
            ;
        }
    }
    assert(0 <= s * first * blocks) by (nonlinear_arith)
        requires
            0 <= s * first,
            0 <= blocks,
    ;
    assert(0 <= b * across) by (nonlinear_arith)
        requires
            0 <= b,
            0 <= across,
    ;
    assert(b * across + across <= blocks * across) by (nonlinear_arith)
        requires
            b + 1 <= blocks,
            0 <= across,
    ;
    assert(s * first * blocks + blocks * across <= row * blocks) by (nonlinear_arith)
        requires
            s * first + across <= row,
            0 <= blocks,
    ;
    assert(row * blocks <= usize::MAX * usize::MAX) by (nonlinear_arith)
        requires
            0 <= row <= usize::MAX,
            0 <= blocks <= usize::MAX,
    ;
}

/// The samples Y, Cb and Cr of one pixel, or nothing when its block lies
/// outside the stream.
fn plane_pixel(sub: &SubsampledImage, width: usize, slices: [usize; 3], y: usize, x: usize) -> (r:
    Option<(i32, i32, i32)>)
    requires
        sub.components >= 2,
        slices@[0] * slices@[1] + slices@[2] == sub.row,
        slices@[1] as int % sub.components as int == 0,
        slices@[2] as int % sub.components as int == 0,
        y < sub.height,
        x < width,
    ensures
        ({
            let at = 3 * (y * width + x);
            match r {
                Some((luma, cb, cr)) => {
                    &&& x < covered(*sub, width as int) ==> block_present(
                        *sub,
                        slices@,
                        y as int,
                        x as int,
                    )
                    &&& luma == plane_sample(*sub, width as int, slices@, at)
                    &&& cb == plane_sample(*sub, width as int, slices@, at + 1)
                    &&& cr == plane_sample(*sub, width as int, slices@, at + 2)
                },
                None => x < covered(*sub, width as int) && !block_present(
                    *sub,
                    slices@,
                    y as int,
                    x as int,
                ),
            }
        }),
{
    let ghost pixel = y * width + x;
    proof {
        lemma_place_inverse(width as int, y as int, x as int);
        assert(0 <= pixel) by (nonlinear_arith)
            requires
                pixel == y * width + x,
        ;
        assert((3 * pixel) / 3 == pixel && (3 * pixel) % 3 == 0);
        assert((3 * pixel + 1) / 3 == pixel && (3 * pixel + 1) % 3 == 1);
        assert((3 * pixel + 2) / 3 == pixel && (3 * pixel + 2) % 3 == 2);
    }
    let br: usize = if sub.block_rows == 0 {
        1
    } else {
        sub.block_rows
    };
    let dy: usize = y % br;
    let dx: usize = x % 2;
    let c: usize = x - dx;
    let even: usize = width - width % 2;
    let blocks_across: u128 = (sub.row / sub.components) as u128;
    if c >= even || c as u128 >= blocks_across * 2 {
        assert(c >= covered(*sub, width as int));
        return Some((0, 0, 0));
    }
    proof {
        lemma_block_place(*sub, slices@, y as int, x as int);
    }
    let (first, last) = (slices[1], slices[2]);
    let count: usize = if first == 0 {
        0
    } else {
        slices[0]
    };
    let columns: u128 = (first / sub.components) as u128 * 2;
    let s: u128 = if columns > 0 && c as u128 / columns < count as u128 {
        c as u128 / columns
    } else {
        count as u128
    };
    let across: usize = if s < count as u128 {
        first
    } else {
        last
    };
    let blocks: usize = div_up(sub.height, br);
    let ghost (gs, gf, gb, ga, gk) = (
        s as int,
        first as int,
        blocks as int,
        across as int,
        sub.components as int,
    );
    assert(gs * gf <= usize::MAX);
    let before: u128 = s * first as u128 * blocks as u128;
    let above: u128 = (y / br) as u128 * across as u128;
    let inner: u128 = (c as u128 - s * columns) / 2 * sub.components as u128;
    let at: u128 = before + above + inner;
    assert(at == block_place(*sub, slices@, y - y as int % block_height(*sub), c as int));
    assert(sub.data@.len() == sub.data.len());
    if at + sub.components as u128 > sub.data.len() as u128 {
        return None;
    }
    let at: usize = at as usize;
    let inside: u128 = 2 * dy as u128 + dx as u128;
    let luma: i32 = if inside < (sub.components - 2) as u128 {
        sub.data[at + inside as usize] as i32
    } else {
        0
    };
    if dy == 0 && dx == 0 {
        let cb: i32 = sub.data[at + (sub.components - 2)] as i32 - SRAW_NEUTRAL;
        let cr: i32 = sub.data[at + (sub.components - 1)] as i32 - SRAW_NEUTRAL;
        Some((luma, cb, cr))
    } else {
        Some((luma, 0, 0))
    }
}

/// The Y, Cb and Cr planes of a subsampled frame.
pub open spec fn planes_of(sub: SubsampledImage, width: usize, slices: Seq<usize>) -> Outcome<
    Seq<i32>,
> {
    match planes_fault(sub, width, slices) {
        Some(fault) => Err(fault),
        None => Ok(
            Seq::new(
                (width * sub.height * 3) as nat,
                |i: int| plane_sample(sub, width as int, slices, i),
            ),
        ),
    }
}

/// Places the decoded blocks, putting the strips back beside each other.
///
/// Returns the three planes interleaved Y, Cb, Cr with the chroma centred
/// on zero and still present only at each block's anchor pixel.
pub fn sraw_planes(sub: &SubsampledImage, width: usize, slices: [usize; 3]) -> (r: Result<Vec<i32>>)
    requires
        sub.components >= 2,
    ensures
        deep_outcome(r) == planes_of(*sub, width, slices@),
{
    let (count, first, last) = (slices[0], slices[1], slices[2]);
    let sliced: Option<usize> = match count.checked_mul(first) {
        Some(whole) => whole.checked_add(last),
        None => None,
    };
    let row: usize = match sliced {
        Some(row) => row,
        None => return Err(corrupt("cr2: sRAW slice widths overflow")),
    };
    if row != sub.row {
        let mut text = "cr2: slices ".to_string();
        push_decimal(&mut text, count as u64);
        text.append("x");
        push_decimal(&mut text, first as u64);
        text.append("+");
        push_decimal(&mut text, last as u64);
        text.append(" make ");
        push_decimal(&mut text, row as u64);
        text.append(" samples a row, the sRAW frame has ");
        push_decimal(&mut text, sub.row as u64);
        return Err(Error::Corrupt(text));
    }
    if first % sub.components != 0 || last % sub.components != 0 {
        let mut text = "cr2: sRAW slices of ".to_string();
        push_decimal(&mut text, first as u64);
        text.append(" and ");
        push_decimal(&mut text, last as u64);
        text.append(" samples are not whole ");
        push_decimal(&mut text, sub.components as u64);
        text.append("-sample MCUs");
        return Err(Error::Corrupt(text));
    }
    if width.checked_mul(3).is_none() {
        return Err(corrupt("cr2: sRAW frame too wide"));
    }
    let total: usize = match frame_samples(width, sub.height, 3) {
        Ok(total) => total,
        Err(e) => return Err(e),
    };
    assert(total == width * sub.height * 3);
    place_blocks(sub, width, slices, total)
}

fn place_blocks(sub: &SubsampledImage, width: usize, slices: [usize; 3], total: usize) -> (r: Result<
    Vec<i32>,
>)
    requires
        sub.components >= 2,
        slices@[0] * slices@[1] + slices@[2] == sub.row,
        slices@[1] as int % sub.components as int == 0,
        slices@[2] as int % sub.components as int == 0,
        width * 3 <= usize::MAX,
        frame_samples_spec(width, sub.height, 3) == Outcome::<usize>::Ok(total),
        total == width * sub.height * 3,
    ensures
        deep_outcome(r) == planes_of(*sub, width, slices@),
{
    let ghost goal = Seq::new(
        (width * sub.height * 3) as nat,
        |i: int| plane_sample(*sub, width as int, slices@, i),
    );
    let mut out: Vec<i32> = Vec::new();
    let mut y: usize = 0;
    while y < sub.height
        invariant
            y <= sub.height,
            sub.components >= 2,
            slices@[0] * slices@[1] + slices@[2] == sub.row,
            slices@[1] as int % sub.components as int == 0,
            slices@[2] as int % sub.components as int == 0,
            width * 3 <= usize::MAX,
            frame_samples_spec(width, sub.height, 3) == Outcome::<usize>::Ok(total),
            goal == Seq::new(
                (width * sub.height * 3) as nat,
                |i: int| plane_sample(*sub, width as int, slices@, i),
            ),
            out@.len() == 3 * (y * width),
            out@.len() <= goal.len(),
            out@ == goal.take(out@.len() as int),
            forall|v: int, x: int|
                0 <= v < y && 0 <= x < covered(*sub, width as int) ==> #[trigger] block_present(
                    *sub,
                    slices@,
                    v,
                    x,
                ),
        decreases sub.height - y,
    {
        let mut x: usize = 0;
        while x < width
            invariant
                y < sub.height,
                x <= width,
                sub.components >= 2,
                slices@[0] * slices@[1] + slices@[2] == sub.row,
                slices@[1] as int % sub.components as int == 0,
                slices@[2] as int % sub.components as int == 0,
                width * 3 <= usize::MAX,
                frame_samples_spec(width, sub.height, 3) == Outcome::<usize>::Ok(total),
                goal == Seq::new(
                    (width * sub.height * 3) as nat,
                    |i: int| plane_sample(*sub, width as int, slices@, i),
                ),
                out@.len() == 3 * (y * width + x),
                out@.len() <= goal.len(),
                out@ == goal.take(out@.len() as int),
                forall|v: int, u: int|
                    0 <= v < y && 0 <= u < covered(*sub, width as int)
                        ==> #[trigger] block_present(*sub, slices@, v, u),
                forall|u: int|
                    0 <= u < x && u < covered(*sub, width as int) ==> #[trigger] block_present(
                        *sub,
                        slices@,
                        y as int,
                        u,
                    ),
            decreases width - x,
        {
            match plane_pixel(sub, width, slices, y, x) {
                None => {
                    assert(!block_present(*sub, slices@, y as int, x as int));
                    return Err(corrupt("cr2: sRAW slice runs past the decoded frame"));
                },
                Some((luma, cb, cr)) => {
                    proof {
                        lemma_place(width as int, sub.height as int, y as int, x as int);
                        assert(width * sub.height * 3 == 3 * (width * sub.height))
                            by (nonlinear_arith);
                    }
                    out.push(luma);
                    out.push(cb);
                    out.push(cr);
                    assert(out@ =~= goal.take(out@.len() as int));
                },
            }
            x = x + 1;
        }
        proof {
            assert((y + 1) * width == y * width + width) by (nonlinear_arith);
        }
        y = y + 1;
    }
    proof {
        assert(3 * (y * width) == width * sub.height * 3) by (nonlinear_arith)
            requires
                y == sub.height,
        ;
    }
    assert(out@ =~= goal);
    Ok(out)
}

proof fn lemma_strip_of(n: int, count: int, s: int, j: int)
    requires
        0 <= n,
        0 <= s <= count,
        0 <= j,
        s < count ==> j < n,
    ensures
        n > 0 && s < count ==> (s * (2 * n) + 2 * j) / (2 * n) == s,
        n > 0 && s == count ==> (s * (2 * n) + 2 * j) / (2 * n) >= count,
{
    if n > 0 {
        let columns = 2 * n;
        let c = s * columns + 2 * j;
        if s < count {
            lemma_place_inverse(columns, s, 2 * j);
        } else {
            assert(c / columns >= count) by (nonlinear_arith)
                requires
                    columns > 0,
                    c == count * columns + 2 * j,
                    0 <= j,
                    0 <= count,
            ;
        }
    }
}

/// Block `j` of block row `b` of strip `s` of a frame that was cut into
/// `count` strips of `n` blocks and a last one of `m`: the strips follow
/// each other in the stream, each of them row by row. Of a block the luma
/// of its pixels comes first, two to a row, and then its two chroma
/// samples, which stay on its first pixel and are centred on zero.
pub proof fn law_blocks_lie_strip_by_strip(
    sub: SubsampledImage,
    width: int,
    slices: Seq<usize>,
    n: int,
    m: int,
    s: int,
    b: int,
    j: int,
    dy: int,
    dx: int,
)
    requires
        slices.len() == 3,
        sub.block_rows > 0,
        sub.components == 2 * sub.block_rows + 2,
        0 <= n,
        0 <= m,
        slices[1] == n * sub.components,
        slices[2] == m * sub.components,
        sub.row == slices[0] * slices[1] + slices[2],
        n == 0 ==> s == 0,
        0 <= s <= slices[0],
        0 <= j < if n > 0 && s < slices[0] {
            n
        } else {
            m
        },
        0 <= b,
        0 <= dy < sub.block_rows,
        0 <= dx < 2,
        2 * (s * n + j) + dx < width - width % 2,
        b * sub.block_rows + dy < sub.height,
    ensures
        ({
            let rows = ceil_div(sub.height as int, sub.block_rows as int);
            let across = if n > 0 && s < slices[0] {
                n
            } else {
                m
            };
            let at = sub.components * (s * n * rows + b * across + j);
            let (y, x) = (b * sub.block_rows + dy, 2 * (s * n + j) + dx);
            let i = 3 * (y * width + x);
            &&& plane_sample(sub, width, slices, i) == sub.data@[at + 2 * dy + dx]
            &&& plane_sample(sub, width, slices, i + 1) == if dy == 0 && dx == 0 {
                sub.data@[at + 2 * sub.block_rows] - 16384
            } else {
                0
            }
            &&& plane_sample(sub, width, slices, i + 2) == if dy == 0 && dx == 0 {
                sub.data@[at + 2 * sub.block_rows + 1] - 16384
            } else {
                0
            }
        }),
{
    let comp = sub.components as int;
    let bh = sub.block_rows as int;
    let rows = ceil_div(sub.height as int, bh);
    let count = if n == 0 {
        0
    } else {
        slices[0] as int
    };
    assert(n == 0 ==> slices[1] == 0) by {
        assert(0 * comp == 0);
    }
    assert(n > 0 ==> slices[1] > 0) by (nonlinear_arith)
        requires
            slices[1] == n * comp,
            comp > 0,
    ;
    let across = if s < count {
        n
    } else {
        m
    };
    let (y, x) = (b * bh + dy, 2 * (s * n + j) + dx);
    let (first, last) = (slices[1] as int, slices[2] as int);
    let c = 2 * (s * n + j);
    // The pixel's row and column.
    assert(y >= 0 && y % bh == dy && y / bh == b && (y - dy) / bh == b) by {
        lemma_place_inverse(bh, b, dy);
        lemma_place_inverse(bh, b, 0);
        assert(0 <= b * bh) by (nonlinear_arith)
            requires
                0 <= b,
                0 < bh,
        ;
    }
    assert(0 <= s * n) by (nonlinear_arith)
        requires
            0 <= s,
            0 <= n,
    ;
    assert(x % 2 == dx && x - x % 2 == c);
    lemma_place_inverse(width, y, x);
    let pixel = y * width + x;
    assert(0 <= y * width) by (nonlinear_arith)
        requires
            0 <= y,
            0 <= width,
    ;
    // The strip and the block in it.
    assert(first / comp == n) by {
        vstd::arithmetic::div_mod::lemma_div_multiples_vanish(n, comp);
        assert(n * comp == comp * n) by (nonlinear_arith);
    }
    lemma_strip_of(n, count, s, j);
    assert(s * (2 * n) + 2 * j == c) by (nonlinear_arith)
        requires
            c == 2 * (s * n + j),
    ;
    let at = block_place(sub, slices, b * bh, c);
    assert(block_place(sub, slices, y - dy, c) == at);
    let width_of = if s < count {
        first
    } else {
        last
    };
    assert(at == s * first * rows + b * width_of + j * comp);
    assert(at == comp * (s * n * rows + b * across + j)) by (nonlinear_arith)
        requires
            at == s * first * rows + b * width_of + j * comp,
            first == n * comp,
            width_of == across * comp,
    ;
    // It is among those that are placed.
    assert(sub.row as int / comp == count * n + m) by {
        assert(slices[0] * first == slices[0] * n * comp) by (nonlinear_arith)
            requires
                first == n * comp,
        ;
        assert(slices[0] * n == count * n) by (nonlinear_arith)
            requires
                n == 0 || slices[0] == count,
        ;
        assert(sub.row == comp * (count * n + m)) by (nonlinear_arith)
            requires
                sub.row == count * n * comp + m * comp,
        ;
        vstd::arithmetic::div_mod::lemma_div_multiples_vanish(count * n + m, comp);
    }
    assert(s * n + j < count * n + m) by (nonlinear_arith)
        requires
            0 <= s <= count,
            s < count ==> j < n,
            s == count ==> j < m,
            0 <= m,
            0 <= n,
    ;
    assert(c < covered(sub, width));
    assert((3 * pixel) / 3 == pixel && (3 * pixel + 1) / 3 == pixel && (3 * pixel + 2) / 3
        == pixel);
}

// ------------------------------------------------------ interpolation

/// The rounded mean of two samples.
pub open spec fn mean(a: i32, b: i32) -> i32 {
    ((a + b + 1) / 2) as i32
}

fn mean_of(a: i32, b: i32) -> (r: i32)
    ensures
        r == mean(a, b),
{
    let sum: i64 = a as i64 + b as i64 + 1;
    if sum >= 0 {
        (sum as u64 / 2) as i32
    } else {
        let below: u64 = ((-(sum + 1)) as u64) / 2;
        (-(below as i64) - 1) as i32
    }
}

/// Sample `i` once the rows between two blocks have their chroma.
pub open spec fn filled_down(planes: Seq<i32>, width: int, height: int, p: int, i: int) -> i32 {
    let (y, x, channel) = (i / 3 / width, i / 3 % width, i % 3);
    if p >= 2 && channel != 0 && y % 2 == 1 && x % 2 == 0 {
        mean(
            planes[i - 3 * width],
            planes[if y + 1 < height {
                i + 3 * width
            } else {
                i - 3 * width
            }],
        )
    } else {
        planes[i]
    }
}

/// Sample `i` once the columns between two blocks have their chroma too.
pub open spec fn filled_across(planes: Seq<i32>, width: int, i: int) -> i32 {
    let (x, channel) = (i / 3 % width, i % 3);
    if channel != 0 && x % 2 == 1 {
        mean(
            planes[i - 3],
            planes[if x + 1 < width {
                i + 3
            } else {
                i - 3
            }],
        )
    } else {
        planes[i]
    }
}

/// Planes with the chroma between the anchors filled in.
pub open spec fn upsampled(planes: Seq<i32>, width: int, height: int, p: int) -> Seq<i32> {
    let frame = width * height * 3;
    let down = Seq::new(frame as nat, |i: int| filled_down(planes, width, height, p, i));
    Seq::new(
        planes.len(),
        |i: int|
            if i < frame {
                filled_across(down, width, i)
            } else {
                planes[i]
            },
    )
}

proof fn lemma_sample_of(width: int, height: int, i: int)
    requires
        width > 0,
        0 <= i < width * height * 3,
    ensures
        0 <= i / 3 / width < height,
        0 <= i / 3 % width < width,
        i / 3 / width >= 1 ==> i - 3 * width >= 0,
        i / 3 / width + 1 < height ==> i + 3 * width < width * height * 3,
        i / 3 % width >= 1 ==> i - 3 >= 0,
        i / 3 % width + 1 < width ==> i + 3 < width * height * 3,
{
    assert(width * height * 3 == 3 * (width * height)) by (nonlinear_arith);
    let pixel = i / 3;
    lemma_place_of(width, height, pixel);
    let (y, x) = (pixel / width, pixel % width);
    if y >= 1 {
        assert(y * width >= width) by (nonlinear_arith)
            requires
                y >= 1,
                width > 0,
        ;
    }
    if y + 1 < height {
        lemma_place(width, height, y + 1, x);
        assert((y + 1) * width == y * width + width) by (nonlinear_arith);
    }
    if x + 1 < width {
        lemma_place(width, height, y, x + 1);
    }
    assert(0 <= y * width) by (nonlinear_arith)
        requires
            y >= 0,
            width > 0,
    ;
}

/// Fills the chroma the encoder did not send: down the columns of anchors
/// where a block is two rows tall, then across.
pub fn sraw_upsample(planes: &mut [i32], width: usize, height: usize, p: usize)
    requires
        width * height * 3 <= old(planes)@.len(),
    ensures
        final(planes)@ == upsampled(old(planes)@, width as int, height as int, p as int),
{
    assert(planes@.len() == planes.len());
    let ghost start = planes@;
    let ghost (w, h, n) = (width as int, height as int, width * height * 3);
    if width == 0 || height == 0 {
        proof {
            assert(w * h * 3 == 0) by (nonlinear_arith)
                requires
                    w == 0 || h == 0,
            ;
        }
        assert(planes@ =~= upsampled(start, w, h, p as int));
        return;
    }
    proof {
        assert(0 <= w * h <= n) by (nonlinear_arith)
            requires
                w >= 0,
                h >= 0,
                n == w * h * 3,
        ;
        assert(w * 3 <= n) by (nonlinear_arith)
            requires
                w >= 0,
                h >= 1,
                n == w * h * 3,
        ;
    }
    let frame: usize = width * height * 3;
    let mut down: Vec<i32> = Vec::new();
    let ghost down_goal = Seq::new(n as nat, |i: int| filled_down(start, w, h, p as int, i));
    let mut i: usize = 0;
    while i < frame
        invariant
            planes@ == start,
            planes@.len() == planes.len(),
            w == width,
            h == height,
            n == w * h * 3,
            frame == n,
            w > 0,
            w * 3 <= n,
            n <= start.len(),
            start.len() <= usize::MAX,
            i <= frame,
            down_goal == Seq::new(n as nat, |i: int| filled_down(start, w, h, p as int, i)),
            down@ == down_goal.take(i as int),
        decreases frame - i,
    {
        proof {
            lemma_sample_of(w, h, i as int);
        }
        let y: usize = i / 3 / width;
        let x: usize = i / 3 % width;
        let value: i32 = if p >= 2 && i % 3 != 0 && y % 2 == 1 && x % 2 == 0 {
            let above: i32 = planes[i - 3 * width];
            let below: i32 = if y + 1 < height {
                planes[i + 3 * width]
            } else {
                above
            };
            mean_of(above, below)
        } else {
            planes[i]
        };
        down.push(value);
        i = i + 1;
        assert(down@ =~= down_goal.take(i as int));
    }
    assert(down@ =~= down_goal);
    let ghost goal = upsampled(start, w, h, p as int);
    let mut i: usize = 0;
    while i < frame
        invariant
            planes@.len() == start.len(),
            planes@.len() == planes.len(),
            w == width,
            h == height,
            n == w * h * 3,
            frame == n,
            w > 0,
            n <= start.len(),
            start.len() <= usize::MAX,
            i <= frame,
            down_goal == Seq::new(n as nat, |i: int| filled_down(start, w, h, p as int, i)),
            down@ == down_goal,
            goal == upsampled(start, w, h, p as int),
            forall|k: int| 0 <= k < i ==> planes@[k] == goal[k],
            forall|k: int| n <= k < start.len() ==> planes@[k] == start[k],
        decreases frame - i,
    {
        proof {
            lemma_sample_of(w, h, i as int);
        }
        let x: usize = i / 3 % width;
        let value: i32 = if i % 3 != 0 && x % 2 == 1 {
            let left: i32 = down[i - 3];
            let right: i32 = if x + 1 < width {
                down[i + 3]
            } else {
                left
            };
            mean_of(left, right)
        } else {
            down[i]
        };
        assert(value == goal[i as int]);
        planes[i] = value;
        i = i + 1;
    }
    assert(planes@ =~= goal);
}

/// Interpolation leaves every luma sample alone, and with it the chroma at
/// every even column that no vertical step fills.
pub proof fn law_upsampling_keeps_what_was_sent(
    planes: Seq<i32>,
    width: int,
    height: int,
    p: int,
    i: int,
)
    requires
        width > 0,
        height > 0,
        width * height * 3 <= planes.len(),
        0 <= i < planes.len(),
        i % 3 == 0 || (i / 3 % width % 2 == 0 && (p < 2 || i / 3 / width % 2 == 0)),
    ensures
        upsampled(planes, width, height, p)[i] == planes[i],
{
}

/// Whether a number is the mean of two, rounded up.
pub open spec fn halfway(m: int, a: int, b: int) -> bool {
    a + b <= 2 * m <= a + b + 1
}

/// The chroma that was not sent is the mean of its neighbours': in an odd
/// column of those left and right of it, in an odd row of a frame with
/// blocks of two rows of those above and below, and at the last column or
/// row the neighbour that is there.
pub proof fn law_missing_chroma_is_between_its_neighbours(
    planes: Seq<i32>,
    width: int,
    height: int,
    p: int,
    y: int,
    x: int,
    channel: int,
)
    requires
        width * height * 3 <= planes.len(),
        0 <= y < height,
        0 <= x < width,
        1 <= channel < 3,
    ensures
        ({
            let out = upsampled(planes, width, height, p);
            let i = 3 * (y * width + x) + channel;
            &&& x % 2 == 1 && x + 1 < width ==> halfway(
                out[i] as int,
                out[i - 3] as int,
                out[i + 3] as int,
            )
            &&& x % 2 == 1 && x + 1 == width ==> out[i] == out[i - 3]
            &&& p >= 2 && x % 2 == 0 && y % 2 == 1 && y + 1 < height ==> halfway(
                out[i] as int,
                out[i - 3 * width] as int,
                out[i + 3 * width] as int,
            )
            &&& p >= 2 && x % 2 == 0 && y % 2 == 1 && y + 1 == height ==> out[i] == out[i - 3
                * width]
        }),
{
    let pixel = y * width + x;
    let i = 3 * pixel + channel;
    lemma_chroma_at(planes, width, height, p, y, x, channel);
    if x % 2 == 1 {
        lemma_chroma_at(planes, width, height, p, y, x - 1, channel);
        if x + 1 < width {
            lemma_chroma_at(planes, width, height, p, y, x + 1, channel);
        }
    } else if y % 2 == 1 {
        lemma_chroma_at(planes, width, height, p, y - 1, x, channel);
        assert((y - 1) * width == y * width - width) by (nonlinear_arith);
        if y + 1 < height {
            lemma_chroma_at(planes, width, height, p, y + 1, x, channel);
            assert((y + 1) * width == y * width + width) by (nonlinear_arith);
        }
    }
}

proof fn lemma_chroma_at(
    planes: Seq<i32>,
    width: int,
    height: int,
    p: int,
    y: int,
    x: int,
    channel: int,
)
    requires
        width * height * 3 <= planes.len(),
        0 <= y < height,
        0 <= x < width,
        1 <= channel < 3,
    ensures
        ({
            let down = Seq::new(
                (width * height * 3) as nat,
                |i: int| filled_down(planes, width, height, p, i),
            );
            let i = 3 * (y * width + x) + channel;
            &&& 0 <= i < width * height * 3
            &&& i / 3 == y * width + x
            &&& i / 3 / width == y
            &&& i / 3 % width == x
            &&& i % 3 == channel
            &&& upsampled(planes, width, height, p)[i] == filled_across(down, width, i)
            &&& down[i] == filled_down(planes, width, height, p, i)
        }),
{
    lemma_place(width, height, y, x);
    lemma_place_inverse(width, y, x);
    let i = 3 * (y * width + x) + channel;
    assert(width * height * 3 == 3 * (width * height)) by (nonlinear_arith);
    assert(i / 3 == y * width + x && i % 3 == channel);
}

// -------------------------------------------------------------- colour

fn floored(a: i128, d: u64) -> (r: i128)
    requires
        d > 0,
        -0x1000_0000_0000_0000_0000_0000_0000 <= a <= 0x1000_0000_0000_0000_0000_0000_0000,
    ensures
        r == a as int / d as int,
        -0x1000_0000_0000_0000_0000_0000_0001 <= r <= 0x1000_0000_0000_0000_0000_0000_0000,
{
    if a >= 0 {
        let r: i128 = (a as u128 / d as u128) as i128;
        proof {
            assert(a as int / d as int <= a) by (nonlinear_arith)
                requires
                    a >= 0,
                    d > 0,
            ;
        }
        r
    } else {
        let n: u128 = (-(a + 1)) as u128;
        let q: u128 = n / d as u128;
        proof {
            let (gn, gd) = (n as int, d as int);
            vstd::arithmetic::div_mod::lemma_fundamental_div_mod(gn, gd);
            vstd::arithmetic::div_mod::lemma_mod_bound(gn, gd);
            let (gq, gr) = (-(gn / gd) - 1, gd - gn % gd - 1);
            assert(gq * gd == -(gd * (gn / gd)) - gd) by (nonlinear_arith)
                requires
                    gq == -(gn / gd) - 1,
            ;
            assert(a == gq * gd + gr);
            vstd::arithmetic::div_mod::lemma_fundamental_div_mod_converse(a as int, gd, gq, gr);
            assert(gn / gd <= gn) by (nonlinear_arith)
                requires
                    gn >= 0,
                    gd > 0,
            ;
        }
        -(q as i128) - 1
    }
}

/// One camera channel of a pixel, before its gain: luma plus a mix of the
/// two chroma channels, each scaled by four and shifted by the hue offset
/// of the block shape.
pub open spec fn camera_channel(planes: Seq<i32>, p: int, pixel: int, channel: int) -> int {
    let y = planes[3 * pixel] as int;
    let cb = 4 * planes[3 * pixel + 1] + 4 * (p + 1);
    let cr = 4 * planes[3 * pixel + 2] + 4 * (p + 1);
    y + (if channel == 0 {
        50 * cb + 22929 * cr
    } else if channel == 1 {
        -5640 * cb - 11751 * cr
    } else {
        29040 * cb - 101 * cr
    }) / 16384
}

/// Sample `i` of the picture: the camera channel times its gain over 1024,
/// kept to fifteen bits. Samples past the last whole pixel are black.
pub open spec fn rgb_sample(planes: Seq<i32>, p: int, multipliers: Seq<i32>, i: int) -> u16 {
    let pixel = i / 3;
    if 3 * pixel + 3 > planes.len() {
        0
    } else {
        let scaled = camera_channel(planes, p, pixel, i % 3) * multipliers[i % 3] / 1024;
        if scaled < 0 {
            0
        } else if scaled > 32767 {
            32767
        } else {
            scaled as u16
        }
    }
}

/// How a picture's sample follows from its pixel: `camera` is the luma and
/// a share of both chroma numbers, in parts of 16384, rounded down, and the
/// sample is it times the gain, in parts of 1024, rounded down and kept
/// between 0 and 32767.
pub open spec fn reconstructed(
    sample: u16,
    luma: int,
    mix: int,
    camera: int,
    gain: int,
) -> bool {
    &&& 16384 * (camera - luma) <= mix < 16384 * (camera - luma + 1)
    &&& if camera * gain < 0 {
        sample == 0
    } else if camera * gain >= 32767 * 1024 {
        sample == 32767
    } else {
        1024 * sample <= camera * gain < 1024 * (sample + 1)
    }
}

/// The three samples of a pixel from its luma and chroma. The chroma counts
/// four times, after one more than the rows and columns of a block is added
/// to each.
pub proof fn law_pixels_are_reconstructed(
    planes: Seq<i32>,
    p: int,
    multipliers: Seq<i32>,
    pixel: int,
)
    requires
        0 <= pixel,
        3 * pixel + 3 <= planes.len(),
    ensures
        ({
            let luma = planes[3 * pixel] as int;
            let cb = 4 * (planes[3 * pixel + 1] + p + 1);
            let cr = 4 * (planes[3 * pixel + 2] + p + 1);
            &&& exists|camera: int| #[trigger]
                reconstructed(
                    rgb_sample(planes, p, multipliers, 3 * pixel),
                    luma,
                    50 * cb + 22929 * cr,
                    camera,
                    multipliers[0] as int,
                )
            &&& exists|camera: int| #[trigger]
                reconstructed(
                    rgb_sample(planes, p, multipliers, 3 * pixel + 1),
                    luma,
                    -5640 * cb - 11751 * cr,
                    camera,
                    multipliers[1] as int,
                )
            &&& exists|camera: int| #[trigger]
                reconstructed(
                    rgb_sample(planes, p, multipliers, 3 * pixel + 2),
                    luma,
                    29040 * cb - 101 * cr,
                    camera,
                    multipliers[2] as int,
                )
        }),
{
    let luma = planes[3 * pixel] as int;
    let cb = 4 * (planes[3 * pixel + 1] + p + 1);
    let cr = 4 * (planes[3 * pixel + 2] + p + 1);
    assert((3 * pixel) / 3 == pixel && (3 * pixel + 1) / 3 == pixel && (3 * pixel + 2) / 3
        == pixel);
    assert(reconstructed(
        rgb_sample(planes, p, multipliers, 3 * pixel),
        luma,
        50 * cb + 22929 * cr,
        camera_channel(planes, p, pixel, 0),
        multipliers[0] as int,
    ));
    assert(reconstructed(
        rgb_sample(planes, p, multipliers, 3 * pixel + 1),
        luma,
        -5640 * cb - 11751 * cr,
        camera_channel(planes, p, pixel, 1),
        multipliers[1] as int,
    ));
    assert(reconstructed(
        rgb_sample(planes, p, multipliers, 3 * pixel + 2),
        luma,
        29040 * cb - 101 * cr,
        camera_channel(planes, p, pixel, 2),
        multipliers[2] as int,
    ));
}

fn camera_mix(y: i32, cb: i128, cr: i128, channel: usize) -> (r: i128)
    requires
        -0x10_0000_0000_0000_0000 <= cb <= 0x10_0000_0000_0000_0000,
        -0x10_0000_0000_0000_0000 <= cr <= 0x10_0000_0000_0000_0000,
        channel < 3,
    ensures
        r == y + (if channel == 0 {
            50 * cb + 22929 * cr
        } else if channel == 1 {
            -5640 * cb - 11751 * cr
        } else {
            29040 * cb - 101 * cr
        }) / 16384,
        -0x100_0000_0000_0000_0000 <= r <= 0x100_0000_0000_0000_0000,
{
    let mix: i128 = if channel == 0 {
        50 * cb + 22929 * cr
    } else if channel == 1 {
        -5640 * cb - 11751 * cr
    } else {
        29040 * cb - 101 * cr
    };
    y as i128 + floored(mix, 16384)
}

fn gained(camera: i128, multiplier: i32) -> (r: u16)
    requires
        -0x100_0000_0000_0000_0000 <= camera <= 0x100_0000_0000_0000_0000,
    ensures
        ({
            let scaled = camera * multiplier / 1024;
            r == if scaled < 0 {
                0
            } else if scaled > 32767 {
                32767
            } else {
                scaled
            }
        }),
{
    proof {
        assert(-0x1000_0000_0000_0000_0000_0000_0000 <= camera * multiplier
            <= 0x1000_0000_0000_0000_0000_0000_0000) by (nonlinear_arith)
            requires
                -0x100_0000_0000_0000_0000 <= camera <= 0x100_0000_0000_0000_0000,
                -0x8000_0000 <= multiplier <= 0x7fff_ffff,
        ;
    }
    let scaled: i128 = floored(camera * multiplier as i128, 1024);
    if scaled < 0 {
        0
    } else if scaled > 32767 {
        32767
    } else {
        scaled as u16
    }
}

/// Turns Y, Cb, Cr planes into the camera's own RGB.
pub fn sraw_to_rgb(planes: &[i32], p: usize, multipliers: [i32; 3]) -> (out: Vec<u16>)
    ensures
        out@ == Seq::new(
            planes@.len(),
            |i: int| rgb_sample(planes@, p as int, multipliers@, i),
        ),
{
    assert(planes@.len() == planes.len());
    let ghost goal = Seq::new(
        planes@.len(),
        |i: int| rgb_sample(planes@, p as int, multipliers@, i),
    );
    let hue: i128 = 4 * (p as i128 + 1);
    let mut out: Vec<u16> = Vec::new();
    let mut i: usize = 0;
    while i < planes.len()
        invariant
            planes@.len() == planes.len(),
            i <= planes@.len(),
            hue == 4 * (p + 1),
            goal == Seq::new(
                planes@.len(),
                |i: int| rgb_sample(planes@, p as int, multipliers@, i),
            ),
            out@ == goal.take(i as int),
        decreases planes@.len() - i,
    {
        let channel: usize = i % 3;
        let at: usize = i - channel;
        assert(3 * (i as int / 3) == at);
        if planes.len() - at < 3 {
            out.push(0);
        } else {
            let cb: i128 = 4 * planes[at + 1] as i128 + hue;
            let cr: i128 = 4 * planes[at + 2] as i128 + hue;
            let camera: i128 = camera_mix(planes[at], cb, cr, channel);
            assert(camera == camera_channel(planes@, p as int, i as int / 3, channel as int));
            out.push(gained(camera, multipliers[channel]));
        }
        i = i + 1;
        assert(out@ =~= goal.take(i as int));
    }
    assert(out@ =~= goal);
    out
}

// ---------------------------------------------------------- makernote

/// Where the picture sits on the sensor: its inclusive borders, and the
/// optically black mask where the frame holds one.
#[derive(Debug, Clone, Copy, PartialEq, Eq, Structural)]
pub struct SensorInfo {
    pub left: usize,
    pub top: usize,
    pub right: usize,
    pub bottom: usize,
    pub mask: Option<Rect>,
}

/// What a record of 16-bit words says of the sensor.
pub open spec fn sensor_of(values: Seq<u16>) -> Option<SensorInfo> {
    if values.len() < 9 || values[7] <= values[5] || values[8] <= values[6] {
        None
    } else {
        Some(
            SensorInfo {
                left: values[5] as usize,
                top: values[6] as usize,
                right: values[7] as usize,
                bottom: values[8] as usize,
                mask: if values.len() >= 13 && values[11] > values[9] && values[12] > values[10] {
                    Some(
                        Rect {
                            x: values[9] as usize,
                            y: values[10] as usize,
                            width: (values[11] - values[9] + 1) as usize,
                            height: (values[12] - values[10] + 1) as usize,
                        },
                    )
                } else {
                    None
                },
            },
        )
    }
}

impl SensorInfo {
    /// Reads the borders out of a record's words.
    pub fn of(values: &[u16]) -> (r: Option<SensorInfo>)
        ensures
            r == sensor_of(values@),
    {
        if values.len() < 9 || values[7] <= values[5] || values[8] <= values[6] {
            return None;
        }
        let mask: Option<Rect> = if values.len() >= 13 && values[11] > values[9] && values[12]
            > values[10] {
            Some(
                Rect {
                    x: values[9] as usize,
                    y: values[10] as usize,
                    width: (values[11] - values[9]) as usize + 1,
                    height: (values[12] - values[10]) as usize + 1,
                },
            )
        } else {
            None
        };
        Some(
            SensorInfo {
                left: values[5] as usize,
                top: values[6] as usize,
                right: values[7] as usize,
                bottom: values[8] as usize,
                mask,
            },
        )
    }

    /// The borders as a rectangle, when they lie inside the frame.
    pub open spec fn shown(self, width: int, height: int) -> Option<Rect> {
        if self.left <= self.right < width && self.top <= self.bottom < height {
            Some(
                Rect {
                    x: self.left,
                    y: self.top,
                    width: (self.right - self.left + 1) as usize,
                    height: (self.bottom - self.top + 1) as usize,
                },
            )
        } else {
            None
        }
    }

    /// The borders as a rectangle, when they lie inside the frame.
    pub fn crop(&self, width: usize, height: usize) -> (r: Option<Rect>)
        ensures
            r == self.shown(width as int, height as int),
    {
        if self.left <= self.right && self.right < width && self.top <= self.bottom && self.bottom
            < height {
            Some(
                Rect {
                    x: self.left,
                    y: self.top,
                    width: self.right - self.left + 1,
                    height: self.bottom - self.top + 1,
                },
            )
        } else {
            None
        }
    }
}

/// The columns up to and with the picture's last, rounded up to eight.
pub open spec fn rounded_columns(right: int) -> int {
    ceil_div(right + 1, 8) * 8
}

/// The width a subsampled frame is trimmed to: what the stream codes, cut
/// at the right where the sensor's borders end, and even.
pub open spec fn trimmed_width(sensor: Option<SensorInfo>, jpeg_width: int) -> int {
    let full = jpeg_width - jpeg_width % 2;
    match sensor {
        None => full,
        Some(s) => if rounded_columns(s.right as int) < full {
            rounded_columns(s.right as int)
        } else {
            full
        },
    }
}

/// The width a subsampled frame is trimmed to.
pub fn sraw_width(sensor: Option<&SensorInfo>, jpeg_width: usize) -> (width: usize)
    ensures
        width == trimmed_width(
            match sensor {
                Some(s) => Some(*s),
                None => None,
            },
            jpeg_width as int,
        ),
{
    let full: usize = jpeg_width - jpeg_width % 2;
    match sensor {
        None => full,
        Some(s) => {
            let columns: u128 = s.right as u128 + 1;
            let rounded: u128 = if columns % 8 == 0 {
                columns
            } else {
                columns + (8 - columns % 8)
            };
            assert(rounded == rounded_columns(s.right as int));
            if rounded < full as u128 {
                rounded as usize
            } else {
                full
            }
        },
    }
}

/// A trimmed frame is even and no wider than what is coded. Where it is
/// narrower than that, it ends at the first column past the picture's last
/// that eight divides.
pub proof fn law_trimmed_frames_keep_the_picture(sensor: Option<SensorInfo>, jpeg_width: int)
    requires
        0 <= jpeg_width,
    ensures
        ({
            let width = trimmed_width(sensor, jpeg_width);
            &&& width % 2 == 0
            &&& 0 <= width <= jpeg_width
            &&& sensor is None ==> width + 1 >= jpeg_width
            &&& width + 1 < jpeg_width ==> width % 8 == 0 && sensor->0.right < width
                <= sensor->0.right + 8
            &&& sensor is Some && width + 1 >= jpeg_width ==> sensor->0.right + 8 >= width
        }),
{
}

/// The largest and the smallest of four words are among them, and none is
/// larger or smaller.
pub proof fn law_largest_and_smallest_bound_all(q: Seq<u16>)
    requires
        q.len() == 4,
    ensures
        q.contains(largest(q)),
        q.contains(smallest(q)),
        forall|i: int| 0 <= i < 4 ==> smallest(q) <= #[trigger] q[i] <= largest(q),
{
    let four = (q[0], q[1], q[2], q[3]);
}

/// Colour numbers, laid out by version.
pub struct ColorData {
    pub values: Vec<u16>,
    pub version: i32,
}

/// Four words in a row.
pub open spec fn quad(values: Seq<u16>, at: int) -> Seq<u16> {
    values.subrange(at, at + 4)
}

/// The largest of four words.
pub open spec fn largest(q: Seq<u16>) -> u16 {
    let a = if q[0] >= q[1] {
        q[0]
    } else {
        q[1]
    };
    let b = if q[2] >= q[3] {
        q[2]
    } else {
        q[3]
    };
    if a >= b {
        a
    } else {
        b
    }
}

/// The smallest of four words.
pub open spec fn smallest(q: Seq<u16>) -> u16 {
    let a = if q[0] <= q[1] {
        q[0]
    } else {
        q[1]
    };
    let b = if q[2] <= q[3] {
        q[2]
    } else {
        q[3]
    };
    if a <= b {
        a
    } else {
        b
    }
}

/// A level times the largest of its quad over 1024, bounded.
pub open spec fn gain(level: u16, most: u16) -> int {
    let raw = level * most / 1024;
    if raw > 0x10_0000 {
        0x10_0000
    } else {
        raw
    }
}

/// [`ColorData`] as a mathematical value.
pub struct ColorModel {
    pub values: Seq<u16>,
    pub version: int,
}

impl View for ColorData {
    type V = ColorModel;

    open spec fn view(&self) -> ColorModel {
        ColorModel { values: self.values@, version: self.version as int }
    }
}

/// The colour numbers that a record's words are, unless there are too few.
pub open spec fn colors_of(values: Seq<u16>) -> Option<ColorModel> {
    if values.len() < 32 {
        None
    } else {
        Some(ColorModel { values, version: signed16(values[0] as int) })
    }
}

impl ColorModel {
    /// Where the as-shot white balance starts.
    pub open spec fn shot_at(self) -> Option<int> {
        let n = self.values.len();
        let at: int = if n == 582 {
            25
        } else if n == 653 {
            24
        } else if self.version < 0 {
            71
        } else {
            63
        };
        if at + 4 <= n {
            Some(at)
        } else {
            None
        }
    }

    /// Where the channel gains of a subsampled frame start.
    pub open spec fn gains_at(self) -> Option<int> {
        let at: int = if self.version == 6 || self.version == 7 {
            0x4E
        } else if self.version == 10 {
            0x7B
        } else {
            0x80
        };
        if (self.version == 6 || self.version == 7 || self.version == 10 || self.version == 14) && at
            + 4 <= self.values.len() {
            Some(at)
        } else {
            None
        }
    }

    /// Where the black levels start.
    pub open spec fn blacks_at(self) -> Option<int> {
        let at: int = if self.version == 1 {
            196
        } else if self.version == 4 || self.version == 5 {
            692
        } else if self.version == 6 || self.version == 7 {
            715
        } else if self.version == 10 {
            504
        } else {
            556
        };
        if self.values.len() >= 653 && (self.version == 1 || 4 <= self.version <= 7 || self.version
            == 10 || self.version == 14) && at + 4 <= self.values.len() {
            Some(at)
        } else {
            None
        }
    }

    /// The as-shot levels of R, G, B and the second G. None of the first
    /// three is zero.
    pub open spec fn shot(self) -> Option<Seq<u16>> {
        match self.shot_at() {
            Some(at) => {
                let q = quad(self.values, at);
                if q[0] == 0 || q[1] == 0 || q[3] == 0 {
                    None
                } else {
                    Some(seq![q[0], q[1], q[3], q[2]])
                }
            },
            None => None,
        }
    }

    /// The gains of R, G and B that a subsampled frame is finished with.
    pub open spec fn gains(self) -> Option<Seq<i32>> {
        match self.gains_at() {
            Some(at) => {
                let q = quad(self.values, at);
                if q[1] != q[2] || q[1] > 1170 + 128 || q[1] < 1170 - 128 || q[0] == 0 || q[3] == 0 {
                    None
                } else {
                    let most = largest(q);
                    Some(
                        seq![
                            gain(q[0], most) as i32,
                            gain(q[1], most) as i32,
                            gain(q[3], most) as i32,
                        ],
                    )
                }
            },
            None => None,
        }
    }

    /// The black levels of R, G, G and B, where they look like black
    /// levels: small, and close to each other.
    pub open spec fn blacks(self) -> Option<Seq<u16>> {
        match self.blacks_at() {
            Some(at) => {
                let q = quad(self.values, at);
                if largest(q) < 8192 && largest(q) - smallest(q) <= 64 {
                    Some(q)
                } else {
                    None
                }
            },
            None => None,
        }
    }
}

impl ColorData {
    /// Takes a record's words; the first, signed, is the version.
    pub fn of(values: Vec<u16>) -> (r: Option<ColorData>)
        ensures
            match r {
                Some(data) => colors_of(values@) == Some(data@),
                None => colors_of(values@) is None,
            },
    {
        if values.len() < 32 {
            return None;
        }
        let stamp: u16 = values[0];
        let version: i32 = if stamp < 0x8000 {
            stamp as i32
        } else {
            stamp as i32 - 0x1_0000
        };
        Some(ColorData { values, version })
    }

    /// How many words the block holds.
    pub fn count(&self) -> (n: usize)
        ensures
            n == self.values@.len(),
    {
        self.values.len()
    }

    /// One word of the block.
    pub fn short(&self, i: usize) -> (r: Option<u16>)
        ensures
            r == if i < self.values@.len() {
                Some(self.values@[i as int])
            } else {
                None
            },
    {
        if i < self.values.len() {
            Some(self.values[i])
        } else {
            None
        }
    }

    /// Where the as-shot white balance starts, or `None` for a block too
    /// short to hold it there.
    pub fn as_shot_offset(&self) -> (r: Option<usize>)
        ensures
            match r {
                Some(at) => self@.shot_at() == Some(at as int),
                None => self@.shot_at() is None,
            },
    {
        let n: usize = self.count();
        let at: usize = if n == 582 {
            25
        } else if n == 653 {
            24
        } else if self.version < 0 {
            71
        } else {
            63
        };
        if at + 4 <= n {
            Some(at)
        } else {
            None
        }
    }

    /// The as-shot levels of R, G, B and the second G, to be read relative
    /// to the first G. None of the first three is zero.
    pub fn as_shot_wb(&self) -> (r: Option<[u16; 4]>)
        ensures
            match r {
                Some(levels) => self@.shot() == Some(levels@),
                None => self@.shot() is None,
            },
    {
        match self.as_shot_offset() {
            None => None,
            Some(at) => {
                let (red, g1, g2, blue) = (
                    self.values[at],
                    self.values[at + 1],
                    self.values[at + 2],
                    self.values[at + 3],
                );
                if g1 == 0 || red == 0 || blue == 0 {
                    None
                } else {
                    let levels: [u16; 4] = [red, g1, blue, g2];
                    assert(levels@ =~= seq![red, g1, blue, g2]);
                    Some(levels)
                }
            },
        }
    }

    /// Where the channel gains of a subsampled frame start, by version.
    pub fn sraw_mul_offset(&self) -> (r: Option<usize>)
        ensures
            match r {
                Some(at) => self@.gains_at() == Some(at as int),
                None => self@.gains_at() is None,
            },
    {
        let at: usize = if self.version == 6 || self.version == 7 {
            0x4E
        } else if self.version == 10 {
            0x7B
        } else if self.version == 14 {
            0x80
        } else {
            return None;
        };
        if at + 4 <= self.count() {
            Some(at)
        } else {
            None
        }
    }

    /// The gains of R, G and B that a subsampled frame is finished with.
    ///
    /// The two greens must agree and lie near 1170, which is the sign that
    /// the offset is right for this block; every level is then multiplied
    /// by the largest of the four over 1024.
    pub fn sraw_multipliers(&self) -> (r: Option<[i32; 3]>)
        ensures
            match r {
                Some(levels) => self@.gains() == Some(levels@),
                None => self@.gains() is None,
            },
    {
        match self.sraw_mul_offset() {
            None => None,
            Some(at) => {
                let (red, g1, g2, blue) = (
                    self.values[at],
                    self.values[at + 1],
                    self.values[at + 2],
                    self.values[at + 3],
                );
                if g1 != g2 || g1 > 1298 || g1 < 1042 || red == 0 || blue == 0 {
                    None
                } else {
                    let most: u16 = largest_of(red, g1, g2, blue);
                    let gains: [i32; 3] = [
                        gain_of(red, most),
                        gain_of(g1, most),
                        gain_of(blue, most),
                    ];
                    assert(gains@ =~= self@.gains()->0);
                    Some(gains)
                }
            },
        }
    }

    /// The black levels of R, G, G and B, where the version says where
    /// they are and they look like black levels: small, and close to each
    /// other.
    pub fn black_levels(&self) -> (r: Option<[u16; 4]>)
        ensures
            match r {
                Some(levels) => self@.blacks() == Some(levels@),
                None => self@.blacks() is None,
            },
    {
        if self.count() < 653 {
            return None;
        }
        let at: usize = if self.version == 1 {
            196
        } else if self.version == 4 || self.version == 5 {
            692
        } else if self.version == 6 || self.version == 7 {
            715
        } else if self.version == 10 {
            504
        } else if self.version == 14 {
            556
        } else {
            return None;
        };
        if at + 4 > self.count() {
            return None;
        }
        let (a, b, c, d) = (
            self.values[at],
            self.values[at + 1],
            self.values[at + 2],
            self.values[at + 3],
        );
        let high: u16 = largest_of(a, b, c, d);
        let low: u16 = smallest_of(a, b, c, d);
        if high < 8192 && high - low <= 64 {
            let levels: [u16; 4] = [a, b, c, d];
            assert(levels@ =~= quad(self.values@, at as int));
            Some(levels)
        } else {
            None
        }
    }
}

fn largest_of(a: u16, b: u16, c: u16, d: u16) -> (r: u16)
    ensures
        r == largest(seq![a, b, c, d]),
        r >= a && r >= b && r >= c && r >= d,
{
    let e: u16 = if a >= b {
        a
    } else {
        b
    };
    let f: u16 = if c >= d {
        c
    } else {
        d
    };
    if e >= f {
        e
    } else {
        f
    }
}

fn smallest_of(a: u16, b: u16, c: u16, d: u16) -> (r: u16)
    ensures
        r == smallest(seq![a, b, c, d]),
        r <= a && r <= b && r <= c && r <= d,
{
    let e: u16 = if a <= b {
        a
    } else {
        b
    };
    let f: u16 = if c <= d {
        c
    } else {
        d
    };
    if e <= f {
        e
    } else {
        f
    }
}

fn gain_of(level: u16, most: u16) -> (r: i32)
    ensures
        r == gain(level, most),
{
    proof {
        assert(0 <= level * most <= 0xffff * 0xffff) by (nonlinear_arith)
            requires
                0 <= level <= 0xffff,
                0 <= most <= 0xffff,
        ;
    }
    let raw: u32 = level as u32 * most as u32 / 1024;
    if raw > 0x10_0000 {
        0x10_0000
    } else {
        raw as i32
    }
}

// --------------------------------------------------------------- black

/// How many of the first `n` positions of a Bayer tile, in raster order,
/// are neither red nor blue.
pub open spec fn greens_before(cfa: CfaModel, n: int) -> int
    decreases n,
{
    if n <= 0 {
        0
    } else {
        let color = cfa.color((n - 1) % 2, (n - 1) / 2);
        greens_before(cfa, n - 1) + if color == Some(CfaColor::Red) || color == Some(
            CfaColor::Blue,
        ) {
            0int
        } else {
            1
        }
    }
}

/// The level of position `i` of a Bayer tile, from levels named by colour:
/// the first green in raster order has the first green level, the rest the
/// second.
pub open spec fn level_at(levels: Seq<u16>, cfa: CfaModel, i: int) -> u16 {
    match cfa.color(i % 2, i / 2) {
        Some(CfaColor::Red) => levels[0],
        Some(CfaColor::Blue) => levels[3],
        _ => if greens_before(cfa, i) == 0 {
            levels[1]
        } else {
            levels[2]
        },
    }
}

/// Levels in R, G, G, B order go to the filters of their colours: of the
/// filters that are neither red nor blue the first in raster order has the
/// second level and every later one the third.
pub proof fn law_levels_go_to_their_filters(levels: Seq<u16>, cfa: CfaModel, i: int, j: int)
    requires
        0 <= i < j < 4,
    ensures
        ({
            let (a, b) = (cfa.color(i % 2, i / 2), cfa.color(j % 2, j / 2));
            &&& a == Some(CfaColor::Red) ==> level_at(levels, cfa, i) == levels[0]
            &&& b == Some(CfaColor::Red) ==> level_at(levels, cfa, j) == levels[0]
            &&& a == Some(CfaColor::Blue) ==> level_at(levels, cfa, i) == levels[3]
            &&& b == Some(CfaColor::Blue) ==> level_at(levels, cfa, j) == levels[3]
            &&& is_green(cfa, i) && is_green(cfa, j) ==> level_at(levels, cfa, j) == levels[2]
            &&& is_green(cfa, i) && (forall|k: int| 0 <= k < i ==> !is_green(cfa, k))
                ==> level_at(levels, cfa, i) == levels[1]
        }),
{
    lemma_greens_before(cfa, i);
    lemma_greens_before(cfa, j);
}

/// Whether a position of a Bayer tile is neither red nor blue.
pub open spec fn is_green(cfa: CfaModel, i: int) -> bool {
    let color = cfa.color(i % 2, i / 2);
    color != Some(CfaColor::Red) && color != Some(CfaColor::Blue)
}

proof fn lemma_greens_before(cfa: CfaModel, n: int)
    requires
        0 <= n,
    ensures
        greens_before(cfa, n) >= 0,
        greens_before(cfa, n) == 0 <==> (forall|k: int| 0 <= k < n ==> !is_green(cfa, k)),
    decreases n,
{
    if n > 0 {
        lemma_greens_before(cfa, n - 1);
        assert(is_green(cfa, n - 1) ==> greens_before(cfa, n) > 0);
        if greens_before(cfa, n) == 0 {
            assert forall|k: int| 0 <= k < n implies !is_green(cfa, k) by {
                if k < n - 1 {
                    assert(!is_green(cfa, k));
                }
            }
        } else if forall|k: int| 0 <= k < n ==> !is_green(cfa, k) {
            assert(forall|k: int| 0 <= k < n - 1 ==> !is_green(cfa, k));
            assert(!is_green(cfa, n - 1));
        }
    }
}

/// Four levels in R, G, G, B order put on the four positions of a Bayer
/// tile.
pub fn spread_black(levels: [u16; 4], cfa: &Cfa) -> (out: [u16; 4])
    ensures
        forall|i: int| 0 <= i < 4 ==> #[trigger] out[i] == level_at(levels@, cfa@, i),
{
    let mut out: [u16; 4] = [levels[1];4];
    let mut greens: usize = 0;
    let mut i: usize = 0;
    while i < 4
        invariant
            i <= 4,
            greens == greens_before(cfa@, i as int),
            greens <= i,
            forall|k: int| 0 <= k < i ==> #[trigger] out[k] == level_at(levels@, cfa@, k),
        decreases 4 - i,
    {
        reveal_with_fuel(greens_before, 2);
        match cfa.color_at(i % 2, i / 2) {
            Some(CfaColor::Red) => {
                out[i] = levels[0];
            },
            Some(CfaColor::Blue) => {
                out[i] = levels[3];
            },
            _ => {
                out[i] = if greens == 0 {
                    levels[1]
                } else {
                    levels[2]
                };
                greens = greens + 1;
            },
        }
        i = i + 1;
    }
    out
}

/// How many samples are less than `v`.
pub open spec fn below(s: Seq<u16>, v: int) -> int
    decreases s.len(),
{
    if s.len() == 0 {
        0
    } else {
        below(s.drop_last(), v) + if s.last() < v {
            1int
        } else {
            0
        }
    }
}

/// Whether `v` stands in the middle of the samples in order: at most half
/// of them are less, and more than half are no more.
pub open spec fn is_median(s: Seq<u16>, v: int) -> bool {
    below(s, v) <= s.len() as int / 2 < below(s, v + 1)
}

proof fn lemma_below_grows(s: Seq<u16>, u: int, v: int)
    requires
        u <= v,
    ensures
        0 <= below(s, u) <= below(s, v) <= s.len(),
        v > 0xffff ==> below(s, v) == s.len(),
        u <= 0 ==> below(s, u) == 0,
    decreases s.len(),
{
    if s.len() > 0 {
        lemma_below_grows(s.drop_last(), u, v);
    }
}

/// There is at most one middle value.
pub proof fn law_median_is_unique(s: Seq<u16>, u: int, v: int)
    requires
        is_median(s, u),
        is_median(s, v),
    ensures
        u == v,
{
    if u < v {
        lemma_below_grows(s, u + 1, v);
    } else if v < u {
        lemma_below_grows(s, v + 1, u);
    }
}

/// How many samples equal each value.
fn histogram(s: &[u16]) -> (counts: Vec<usize>)
    ensures
        counts@.len() == 0x1_0000,
        forall|v: int|
            0 <= v < 0x1_0000 ==> #[trigger] counts@[v] == below(s@, v + 1) - below(s@, v),
{
    let mut counts: Vec<usize> = vec![0usize; 0x1_0000];
    assert(s@.len() == s.len());
    let mut i: usize = 0;
    assert(s@.take(0) =~= Seq::<u16>::empty());
    while i < s.len()
        invariant
            s@.len() == s.len(),
            i <= s@.len(),
            counts@.len() == 0x1_0000,
            forall|v: int|
                0 <= v < 0x1_0000 ==> #[trigger] counts@[v] == below(s@.take(i as int), v + 1)
                    - below(s@.take(i as int), v),
        decreases s@.len() - i,
    {
        let at: usize = s[i] as usize;
        proof {
            let now = s@.take(i as int);
            let next = s@.take(i + 1);
            assert(next.drop_last() =~= now);
            assert(next.last() == s@[i as int]);
            lemma_below_grows(now, at as int, at + 1);
        }
        counts.set(at, counts[at] + 1);
        i = i + 1;
    }
    assert(s@.take(i as int) =~= s@);
    counts
}

/// The middle sample, in order.
pub fn median(s: &[u16]) -> (r: Option<u16>)
    ensures
        match r {
            Some(v) => s@.len() > 0 && is_median(s@, v as int),
            None => s@.len() == 0,
        },
{
    assert(s@.len() == s.len());
    if s.len() == 0 {
        return None;
    }
    let counts = histogram(s);
    let mid: usize = s.len() / 2;
    let mut seen: usize = 0;
    let mut v: u32 = 0;
    proof {
        lemma_below_grows(s@, 0, 0x1_0000);
    }
    while v < 0x1_0000
        invariant
            v <= 0x1_0000,
            counts@.len() == 0x1_0000,
            forall|v: int|
                0 <= v < 0x1_0000 ==> #[trigger] counts@[v] == below(s@, v + 1) - below(s@, v),
            seen == below(s@, v as int),
            seen <= mid,
            mid == s@.len() as int / 2,
            0 < s@.len() <= usize::MAX,
            below(s@, 0x1_0000) == s@.len(),
        decreases 0x1_0000 - v,
    {
        proof {
            lemma_below_grows(s@, v + 1, v + 1);
        }
        let next: usize = seen + counts[v as usize];
        if next > mid {
            return Some(v as u16);
        }
        seen = next;
        v = v + 1;
    }
    assert(false);
    None
}

/// Every second sample of a row, from column `x` up to `right`.
pub open spec fn row_phase(data: Seq<u16>, width: int, y: int, x: int, right: int) -> Seq<u16>
    decreases right + 1 - x,
{
    if x >= right {
        Seq::empty()
    } else {
        seq![data[y * width + x]] + row_phase(data, width, y, x + 2, right)
    }
}

/// Every second row of an area, from row `y` up to `bottom`.
pub open spec fn area_phase(
    data: Seq<u16>,
    width: int,
    x: int,
    right: int,
    y: int,
    bottom: int,
) -> Seq<u16>
    decreases bottom + 1 - y,
{
    if y >= bottom {
        Seq::empty()
    } else {
        row_phase(data, width, y, x, right) + area_phase(data, width, x, right, y + 2, bottom)
    }
}

/// The first position from `start` on with this parity.
pub open spec fn first_of_phase(start: int, parity: int) -> int {
    if start % 2 == parity {
        start
    } else {
        start + 1
    }
}

/// The samples of an area that stand on one position of the Bayer tile.
pub open spec fn phase_samples(data: Seq<u16>, width: int, area: Rect, phase: int) -> Seq<u16> {
    area_phase(
        data,
        width,
        first_of_phase(area.x as int, phase % 2),
        area.x + area.width,
        first_of_phase(area.y as int, phase / 2),
        area.y + area.height,
    )
}

fn collect_phase(data: &[u16], width: usize, height: usize, area: Rect, phase: usize) -> (out: Vec<
    u16,
>)
    requires
        phase < 4,
        area.x + area.width <= width,
        area.y + area.height <= height,
        width * height <= data@.len(),
    ensures
        out@ == phase_samples(data@, width as int, area, phase as int),
{
    let px: usize = phase % 2;
    let py: usize = phase / 2;
    let right: usize = area.x + area.width;
    let bottom: usize = area.y + area.height;
    let ghost x0 = first_of_phase(area.x as int, px as int);
    let ghost y0 = first_of_phase(area.y as int, py as int);
    let ghost goal = phase_samples(data@, width as int, area, phase as int);
    let mut out: Vec<u16> = Vec::new();
    let mut y: usize = area.y;
    if y % 2 != py {
        if y >= bottom {
            assert(out@ =~= goal);
            return out;
        }
        y = y + 1;
    }
    assert(out@ + area_phase(data@, width as int, x0, right as int, y as int, bottom as int)
        =~= goal);
    while y < bottom
        invariant
            right == area.x + area.width,
            right <= width,
            bottom <= height,
            width * height <= data@.len(),
            px < 2,
            x0 == first_of_phase(area.x as int, px as int),
            out@ + area_phase(data@, width as int, x0, right as int, y as int, bottom as int)
                == goal,
        decreases bottom + 2 - y,
    {
        let ghost rest = area_phase(
            data@,
            width as int,
            x0,
            right as int,
            y + 2,
            bottom as int,
        );
        let mut x: usize = area.x;
        let mut some = true;
        if x % 2 != px {
            if x >= right {
                some = false;
            } else {
                x = x + 1;
            }
        }
        if some {
            assert(x == x0);
            assert(out@ + (row_phase(data@, width as int, y as int, x as int, right as int) + rest)
                == goal);
            while x < right
                invariant
                    right <= width,
                    y < height,
                    width * height <= data@.len(),
                    out@ + (row_phase(data@, width as int, y as int, x as int, right as int) + rest)
                        == goal,
                decreases right + 2 - x,
            {
                proof {
                    lemma_place(width as int, height as int, y as int, x as int);
                }
                let ghost before = out@;
                let ghost tail = row_phase(data@, width as int, y as int, x + 2, right as int);
                let value: u16 = sample_of(data, width, height, y, x);
                out.push(value);
                assert(out@ + (tail + rest) =~= before + ((seq![value] + tail) + rest));
                if right - x < 2 {
                    assert(tail =~= Seq::<u16>::empty());
                    x = right;
                    assert(row_phase(data@, width as int, y as int, x as int, right as int)
                        =~= Seq::<u16>::empty());
                } else {
                    x = x + 2;
                }
            }
            assert(out@ + rest =~= goal);
        } else {
            assert(row_phase(data@, width as int, y as int, x0, right as int)
                =~= Seq::<u16>::empty());
            assert(out@ + rest =~= goal);
        }
        if bottom - y < 2 {
            y = bottom;
            assert(rest =~= Seq::<u16>::empty());
            assert(out@ + area_phase(
                data@,
                width as int,
                x0,
                right as int,
                y as int,
                bottom as int,
            ) =~= goal);
        } else {
            y = y + 2;
        }
    }
    assert(out@ =~= goal);
    out
}

fn sample_of(data: &[u16], width: usize, height: usize, y: usize, x: usize) -> (v: u16)
    requires
        y < height,
        x < width,
        width * height <= data@.len(),
    ensures
        v == data@[y * width + x],
{
    proof {
        assert(data@.len() == data.len());
        lemma_place(width as int, height as int, y as int, x as int);
    }
    data[y * width + x]
}

/// The area of a frame that lies under metal: the mask the file names, or
/// the space to the left of the picture, less a guard.
pub open spec fn dark_area(sensor: SensorInfo, height: usize) -> Option<Rect> {
    match sensor.mask {
        Some(mask) => Some(mask),
        None => if sensor.left >= 8 {
            Some(Rect { x: 0, y: 0, width: (sensor.left - 4) as usize, height })
        } else {
            None
        },
    }
}

/// The dark area, where it lies inside the frame and holds samples of all
/// four positions of the Bayer tile.
pub open spec fn usable_dark_area(
    data: Seq<u16>,
    width: usize,
    height: usize,
    sensor: Option<SensorInfo>,
) -> Option<Rect> {
    match sensor {
        None => None,
        Some(s) => match dark_area(s, height) {
            None => None,
            Some(area) => if area.x + area.width <= width && area.y + area.height <= height && (
            forall|phase: int|
                0 <= phase < 4 ==> #[trigger] phase_samples(data, width as int, area, phase).len()
                    > 0) {
                Some(area)
            } else {
                None
            },
        },
    }
}

/// The black level measured on the frame's own masked pixels, one median
/// for each position of the Bayer tile.
pub fn masked_black(data: &[u16], width: usize, height: usize, sensor: Option<&SensorInfo>) -> (r:
    Option<[u16; 4]>)
    requires
        width * height <= data@.len(),
    ensures
        match usable_dark_area(
            data@,
            width,
            height,
            match sensor {
                Some(s) => Some(*s),
                None => None,
            },
        ) {
            Some(area) => r is Some && forall|phase: int|
                0 <= phase < 4 ==> is_median(
                    phase_samples(data@, width as int, area, phase),
                    #[trigger] r->0[phase] as int,
                ),
            None => r is None,
        },
{
    let s = match sensor {
        Some(s) => s,
        None => return None,
    };
    let area: Rect = match s.mask {
        Some(mask) => mask,
        None => if s.left >= 8 {
            Rect { x: 0, y: 0, width: s.left - 4, height }
        } else {
            return None;
        },
    };
    if area.x > width || area.width > width - area.x || area.y > height || area.height > height
        - area.y {
        return None;
    }
    let mut out: [u16; 4] = [0;4];
    let mut phase: usize = 0;
    while phase < 4
        invariant
            phase <= 4,
            area.x + area.width <= width,
            area.y + area.height <= height,
            width * height <= data@.len(),
            forall|k: int|
                0 <= k < phase ==> is_median(
                    phase_samples(data@, width as int, area, k),
                    #[trigger] out[k] as int,
                ),
            forall|k: int|
                0 <= k < phase ==> #[trigger] phase_samples(data@, width as int, area, k).len() > 0,
            sensor == Some(s),
            dark_area(*s, height) == Some(area),
        decreases 4 - phase,
    {
        let samples = collect_phase(data, width, height, area, phase);
        match median(samples.as_slice()) {
            None => {
                assert(phase_samples(data@, width as int, area, phase as int).len() == 0);
                return None;
            },
            Some(v) => {
                out[phase] = v;
            },
        }
        phase = phase + 1;
    }
    Some(out)
}

/// A stretch of columns of a frame, line by line.
pub open spec fn column_strip(frame: Seq<u16>, width: int, height: int, x: int, across: int) -> Seq<
    u16,
> {
    Seq::new((across * height) as nat, |i: int| frame[place(width, i / across, x + i % across)])
}

/// The first `n` stretches of `first` columns, one behind the other.
pub open spec fn column_strips(
    frame: Seq<u16>,
    width: int,
    height: int,
    first: int,
    n: int,
) -> Seq<u16>
    decreases n,
{
    if n <= 0 {
        Seq::empty()
    } else {
        column_strips(frame, width, height, first, n - 1) + column_strip(
            frame,
            width,
            height,
            (n - 1) * first,
            first,
        )
    }
}

/// A frame cut into the slices `[count, first, last]`.
pub open spec fn sliced(frame: Seq<u16>, height: int, slices: Seq<usize>) -> Seq<u16> {
    let (count, first, last) = (slices[0] as int, slices[1] as int, slices[2] as int);
    let width = count * first + last;
    if count == 0 || first == 0 {
        frame
    } else {
        column_strips(frame, width, height, first, count) + column_strip(
            frame,
            width,
            height,
            count * first,
            last,
        )
    }
}

proof fn lemma_strip_at(
    frame: Seq<u16>,
    width: int,
    height: int,
    x: int,
    across: int,
    y: int,
    dx: int,
)
    requires
        0 <= y < height,
        0 <= dx < across,
    ensures
        0 <= y * across + dx < across * height,
        column_strip(frame, width, height, x, across)[y * across + dx] == frame[place(
            width,
            y,
            x + dx,
        )],
{
    lemma_place(across, height, y, dx);
    lemma_place_inverse(across, y, dx);
}

proof fn lemma_strips_at(
    frame: Seq<u16>,
    width: int,
    height: int,
    first: int,
    n: int,
    s: int,
    y: int,
    dx: int,
)
    requires
        0 <= s < n,
        0 < first,
        0 <= y < height,
        0 <= dx < first,
    ensures
        column_strips(frame, width, height, first, n).len() == n * first * height,
        0 <= s * first * height + y * first + dx < n * first * height,
        column_strips(frame, width, height, first, n)[s * first * height + y * first + dx]
            == frame[place(width, y, s * first + dx)],
    decreases n,
{
    let at = s * first * height + y * first + dx;
    lemma_strips_length(frame, width, height, first, n);
    lemma_strips_length(frame, width, height, first, n - 1);
    lemma_strip_at(frame, width, height, (n - 1) * first, first, y, dx);
    assert(0 <= s * first * height) by (nonlinear_arith)
        requires
            0 <= s,
            0 < first,
            0 < height,
    ;
    assert((n - 1) * first * height + first * height == n * first * height) by (nonlinear_arith);
    if s < n - 1 {
        lemma_strips_at(frame, width, height, first, n - 1, s, y, dx);
    }
}

proof fn lemma_strips_length(frame: Seq<u16>, width: int, height: int, first: int, n: int)
    requires
        0 <= n,
        0 < first,
        0 <= height,
    ensures
        column_strips(frame, width, height, first, n).len() == n * first * height,
    decreases n,
{
    if n > 0 {
        lemma_strips_length(frame, width, height, first, n - 1);
        assert(0 <= first * height) by (nonlinear_arith)
            requires
                0 < first,
                0 <= height,
        ;
        assert((n - 1) * first * height + first * height == n * first * height)
            by (nonlinear_arith);
    } else {
        assert(n * first * height == 0) by (nonlinear_arith)
            requires
                n == 0,
        ;
    }
}

/// A frame that was cut into slices and is put together again is the
/// frame.
pub proof fn law_deslicing_undoes_slicing(frame: Seq<u16>, height: int, slices: Seq<usize>)
    requires
        height >= 0,
        slices.len() == 3,
        slices[0] * slices[1] + slices[2] <= usize::MAX,
        frame.len() == (slices[0] * slices[1] + slices[2]) * height,
        frame.len() <= usize::MAX,
    ensures
        desliced(
            sliced(frame, height, slices),
            slices[0] * slices[1] + slices[2],
            height,
            slices,
        ) == Outcome::<(int, Seq<u16>)>::Ok((slices[0] * slices[1] + slices[2], frame)),
{
    let (count, first, last) = (slices[0] as int, slices[1] as int, slices[2] as int);
    let width = count * first + last;
    if count > 0 && first > 0 {
        let cut = sliced(frame, height, slices);
        let front = column_strips(frame, width, height, first, count);
        let tail = column_strip(frame, width, height, count * first, last);
        lemma_strips_length(frame, width, height, first, count);
        assert(0 <= last * height) by (nonlinear_arith)
            requires
                0 <= last,
                0 <= height,
        ;
        assert(count * first * height + last * height == (count * first + last) * height)
            by (nonlinear_arith);
        assert(cut.len() == frame.len());
        let back = Seq::new(
            cut.len(),
            |i: int| cut[slice_place(count, first, last, height, i / width, i % width)],
        );
        assert forall|i: int| 0 <= i < frame.len() implies #[trigger] back[i] == frame[i] by {
            assert(0 < width) by (nonlinear_arith)
                requires
                    0 < count,
                    0 < first,
                    0 <= last,
                    width == count * first + last,
            ;
            lemma_place_of(width, height, i);
            let (y, x) = (i / width, i % width);
            lemma_slice_place(count, first, last, height, y, x);
            let s = x / first;
            if s < count {
                let dx = x - s * first;
                lemma_strips_at(frame, width, height, first, count, s, y, dx);
                assert(cut[s * first * height + y * first + dx] == front[s * first * height + y
                    * first + dx]);
            } else {
                let dx = x - count * first;
                lemma_strip_at(frame, width, height, count * first, last, y, dx);
                assert(cut[front.len() + (y * last + dx)] == tail[y * last + dx]);
            }
        }
        assert(back =~= frame);
    }
}

/// No two samples of a frame come from the same place in the stream: the
/// slices are a rearrangement.
pub proof fn law_slices_do_not_overlap(
    count: int,
    first: int,
    last: int,
    height: int,
    y: int,
    x: int,
    v: int,
    u: int,
)
    requires
        count > 0,
        first > 0,
        last >= 0,
        0 <= y < height,
        0 <= x < count * first + last,
        0 <= v < height,
        0 <= u < count * first + last,
        slice_place(count, first, last, height, y, x) == slice_place(
            count,
            first,
            last,
            height,
            v,
            u,
        ),
    ensures
        y == v,
        x == u,
{
    lemma_strip(count, first, last, height, y, x);
    lemma_strip(count, first, last, height, v, u);
    let s = if x / first < count {
        x / first
    } else {
        count
    };
    let t = if u / first < count {
        u / first
    } else {
        count
    };
    let at = slice_place(count, first, last, height, y, x);
    if s < t {
        assert(s * first * height + first * height <= t * first * height) by (nonlinear_arith)
            requires
                s + 1 <= t,
                first > 0,
                height > 0,
        ;
    } else if t < s {
        assert(t * first * height + first * height <= s * first * height) by (nonlinear_arith)
            requires
                t + 1 <= s,
                first > 0,
                height > 0,
        ;
    } else {
        let across = if s < count {
            first
        } else {
            last
        };
        let off = at - s * first * height;
        vstd::arithmetic::div_mod::lemma_fundamental_div_mod_converse(
            off,
            across,
            y,
            x - s * first,
        );
        vstd::arithmetic::div_mod::lemma_fundamental_div_mod_converse(
            off,
            across,
            v,
            u - t * first,
        );
    }
}

proof fn lemma_strip(count: int, first: int, last: int, height: int, y: int, x: int)
    requires
        count > 0,
        first > 0,
        last >= 0,
        0 <= y < height,
        0 <= x < count * first + last,
    ensures
        ({
            let s = if x / first < count {
                x / first
            } else {
                count
            };
            let across = if s < count {
                first
            } else {
                last
            };
            let off = slice_place(count, first, last, height, y, x) - s * first * height;
            &&& 0 <= s
            &&& 0 <= x - s * first < across
            &&& off == y * across + (x - s * first)
            &&& 0 <= off < across * height
        }),
{
    lemma_slice_place(count, first, last, height, y, x);
    let s = if x / first < count {
        x / first
    } else {
        count
    };
    let across = if s < count {
        first
    } else {
        last
    };
    assert(0 <= y * across) by (nonlinear_arith)
        requires
            0 <= y,
            0 <= across,
    ;
    assert(y * across + across <= across * height) by (nonlinear_arith)
        requires
            y + 1 <= height,
            0 <= across,
    ;
}

// ------------------------------------------------------------- the file

/// `[slice count, first slice width, last slice width]`.
pub const CR2_SLICE: u16 = 0xC640;

/// The Bayer phase of the sensor frame as a small number.
pub const CR2_CFA_PATTERN: u16 = 0xC5E0;

/// Makernote: the body as a number.
pub const MODEL_ID: u16 = 0x0010;

/// Makernote: where the picture sits on the sensor.
pub const SENSOR_INFO: u16 = 0x00E0;

/// Makernote: the colour numbers.
pub const COLOR_DATA: u16 = 0x4001;

/// Where a directory's one strip lies: start and end.
pub open spec fn strip_range(tiff: TiffModel, ifd: IfdModel) -> Outcome<(int, int)> {
    match (tiff.number(ifd, STRIP_OFFSETS), tiff.number(ifd, STRIP_BYTE_COUNTS)) {
        (Some(offset), Some(count)) => {
            let (start, end) = (offset + tiff.base, offset + tiff.base + count);
            if start > usize::MAX {
                Err(Fault::Corrupt("cr2: strip offset out of range"@))
            } else if end > usize::MAX {
                Err(Fault::Corrupt("cr2: strip length out of range"@))
            } else if end > tiff.bytes.len() {
                Err(
                    Fault::Corrupt(
                        "cr2: strip "@ + decimal(start) + ".."@ + decimal(end)
                            + " lies outside the file"@,
                    ),
                )
            } else {
                Ok((start, end))
            }
        },
        _ => Err(Fault::Corrupt("cr2: raw IFD without a strip"@)),
    }
}

fn raw_stream(tiff: &Tiff<'_>, ifd: &Ifd) -> (r: Result<(usize, usize)>)
    requires
        tiff@.well_formed(),
        ifd@.inside(tiff.bytes@),
    ensures
        match r {
            Ok((start, end)) => strip_range(tiff@, ifd@) == Outcome::<(int, int)>::Ok(
                (start as int, end as int),
            ) && start <= end <= tiff.bytes@.len(),
            Err(e) => strip_range(tiff@, ifd@) == Outcome::<(int, int)>::Err(e@),
        },
{
    assert(tiff.bytes@.len() == tiff.bytes.len());
    let (offset, count): (u32, u32) = match (
        first_number(tiff, ifd, STRIP_OFFSETS),
        first_number(tiff, ifd, STRIP_BYTE_COUNTS),
    ) {
        (Some(offset), Some(count)) => (offset, count),
        _ => return Err(corrupt("cr2: raw IFD without a strip")),
    };
    let start: u128 = offset as u128 + tiff.base as u128;
    let end: u128 = start + count as u128;
    if start > usize::MAX as u128 {
        return Err(corrupt("cr2: strip offset out of range"));
    }
    if end > usize::MAX as u128 {
        return Err(corrupt("cr2: strip length out of range"));
    }
    if end > tiff.bytes.len() as u128 {
        let mut text = "cr2: strip ".to_string();
        push_decimal(&mut text, start as u64);
        text.append("..");
        push_decimal(&mut text, end as u64);
        text.append(" lies outside the file");
        return Err(Error::Corrupt(text));
    }
    Ok((start as usize, end as usize))
}

/// The first directory from the `i`th on that lies at an offset and has
/// strips.
pub open spec fn pointed_ifd(tiff: TiffModel, offset: int, i: int) -> Option<int>
    decreases tiff.ifds.len() - i,
{
    if i < 0 || i >= tiff.ifds.len() {
        None
    } else if tiff.ifds[i].offset == offset && tiff.ifds[i].field(STRIP_OFFSETS) is Some {
        Some(i)
    } else {
        pointed_ifd(tiff, offset, i + 1)
    }
}

/// The first directory from the `i`th on that is cut into slices.
pub open spec fn sliced_ifd(tiff: TiffModel, i: int) -> Option<int>
    decreases tiff.ifds.len() - i,
{
    if i < 0 || i >= tiff.ifds.len() {
        None
    } else if tiff.ifds[i].field(CR2_SLICE) is Some {
        Some(i)
    } else {
        sliced_ifd(tiff, i + 1)
    }
}

/// The first directory from the `i`th on whose strip is a lossless JPEG.
pub open spec fn lossless_ifd(tiff: TiffModel, lossless: Seq<bool>, i: int) -> Option<int>
    decreases tiff.ifds.len() - i,
{
    if i < 0 || i >= tiff.ifds.len() {
        None
    } else if strip_range(tiff, tiff.ifds[i]) is Ok && i < lossless.len() && lossless[i] {
        Some(i)
    } else {
        lossless_ifd(tiff, lossless, i + 1)
    }
}

/// The directory holding the sensor data. Byte 12 points straight at it;
/// the searches after that are for files whose pointer does not land on a
/// directory. `lossless` says of each directory whether its strip is a
/// lossless JPEG.
pub open spec fn sensor_ifd(tiff: TiffModel, lossless: Seq<bool>) -> Option<int> {
    let pointed = match word32_in(tiff.bytes, 12, tiff.little) {
        Some(offset) => pointed_ifd(tiff, offset + tiff.base, 0),
        None => None,
    };
    match pointed {
        Some(i) => Some(i),
        None => match sliced_ifd(tiff, 0) {
            Some(i) => Some(i),
            None => lossless_ifd(tiff, lossless, 0),
        },
    }
}

fn find_pointed(tiff: &Tiff<'_>, offset: u128) -> (r: Option<usize>)
    ensures
        match r {
            Some(i) => pointed_ifd(tiff@, offset as int, 0) == Some(i as int) && i
                < tiff.ifds@.len(),
            None => pointed_ifd(tiff@, offset as int, 0) is None,
        },
{
    let mut i: usize = 0;
    while i < tiff.ifds.len()
        invariant
            i <= tiff.ifds@.len(),
            pointed_ifd(tiff@, offset as int, 0) == pointed_ifd(tiff@, offset as int, i as int),
        decreases tiff.ifds@.len() - i,
    {
        assert(tiff@.ifds[i as int] == tiff.ifds@[i as int]@);
        if tiff.ifds[i].offset as u128 == offset && tiff.ifds[i].has(STRIP_OFFSETS) {
            return Some(i);
        }
        i = i + 1;
    }
    None
}

fn find_sliced(tiff: &Tiff<'_>) -> (r: Option<usize>)
    ensures
        match r {
            Some(i) => sliced_ifd(tiff@, 0) == Some(i as int) && i < tiff.ifds@.len(),
            None => sliced_ifd(tiff@, 0) is None,
        },
{
    let mut i: usize = 0;
    while i < tiff.ifds.len()
        invariant
            i <= tiff.ifds@.len(),
            sliced_ifd(tiff@, 0) == sliced_ifd(tiff@, i as int),
        decreases tiff.ifds@.len() - i,
    {
        assert(tiff@.ifds[i as int] == tiff.ifds@[i as int]@);
        if tiff.ifds[i].has(CR2_SLICE) {
            return Some(i);
        }
        i = i + 1;
    }
    None
}

fn find_lossless(tiff: &Tiff<'_>, lossless: &[bool]) -> (r: Option<usize>)
    requires
        tiff@.well_formed(),
    ensures
        match r {
            Some(i) => lossless_ifd(tiff@, lossless@, 0) == Some(i as int) && i < tiff.ifds@.len(),
            None => lossless_ifd(tiff@, lossless@, 0) is None,
        },
{
    let mut i: usize = 0;
    while i < tiff.ifds.len()
        invariant
            tiff@.well_formed(),
            i <= tiff.ifds@.len(),
            lossless_ifd(tiff@, lossless@, 0) == lossless_ifd(tiff@, lossless@, i as int),
        decreases tiff.ifds@.len() - i,
    {
        assert(tiff@.ifds[i as int] == tiff.ifds@[i as int]@);
        assert(tiff@.ifds[i as int].inside(tiff.bytes@));
        if i < lossless.len() && lossless[i] && raw_stream(tiff, &tiff.ifds[i]).is_ok() {
            return Some(i);
        }
        i = i + 1;
    }
    None
}

fn raw_ifd(tiff: &Tiff<'_>, lossless: &[bool]) -> (r: Option<usize>)
    requires
        tiff@.well_formed(),
    ensures
        match r {
            Some(i) => sensor_ifd(tiff@, lossless@) == Some(i as int) && i < tiff.ifds@.len(),
            None => sensor_ifd(tiff@, lossless@) is None,
        },
{
    if let Some(offset) = tiff.u32_at(12) {
        if let Some(i) = find_pointed(tiff, offset as u128 + tiff.base as u128) {
            return Some(i);
        }
    }
    if let Some(i) = find_sliced(tiff) {
        return Some(i);
    }
    find_lossless(tiff, lossless)
}

/// How a row of samples is cut: what the directory says, or one
/// full-width slice.
pub open spec fn cut_of(tiff: TiffModel, ifd: IfdModel, row: usize) -> Seq<usize> {
    match ifd.field(CR2_SLICE) {
        Some(e) => if e.count >= 3 {
            seq![
                or_zero(e.natural(tiff.bytes, tiff.little, 0)) as usize,
                or_zero(e.natural(tiff.bytes, tiff.little, 1)) as usize,
                or_zero(e.natural(tiff.bytes, tiff.little, 2)) as usize,
            ]
        } else {
            seq![0, 0, row]
        },
        None => seq![0, 0, row],
    }
}

fn number_or_zero(tiff: &Tiff<'_>, e: Entry, i: usize) -> (n: usize)
    requires
        e.inside(tiff.bytes@),
    ensures
        n == or_zero(e.natural(tiff.bytes@, tiff.little, i as int)) as usize,
{
    match tiff.u32(e, i) {
        Some(n) => n as usize,
        None => 0,
    }
}

/// How a row of samples is cut. A field that is there but short cannot be
/// trusted, and stands for one full-width slice as an absent one does.
pub fn slices(tiff: &Tiff<'_>, ifd: &Ifd, row: usize) -> (cut: [usize; 3])
    requires
        ifd@.inside(tiff.bytes@),
    ensures
        cut@ == cut_of(tiff@, ifd@, row),
{
    if let Some(e) = field_of(tiff, ifd, CR2_SLICE) {
        if e.count >= 3 {
            let cut: [usize; 3] = [
                number_or_zero(tiff, e, 0),
                number_or_zero(tiff, e, 1),
                number_or_zero(tiff, e, 2),
            ];
            assert(cut@ =~= cut_of(tiff@, ifd@, row));
            return cut;
        }
    }
    let cut: [usize; 3] = [0, 0, row];
    assert(cut@ =~= cut_of(tiff@, ifd@, row));
    cut
}

/// The number of the Bayer phase: the sensor directory's, or the first in
/// the file.
pub open spec fn phase_number(tiff: TiffModel, ifd: IfdModel) -> Option<u32> {
    let entry = match ifd.field(CR2_CFA_PATTERN) {
        Some(e) => Some(e),
        None => tiff.field(CR2_CFA_PATTERN),
    };
    match entry {
        Some(e) => match e.natural(tiff.bytes, tiff.little, 0) {
            Some(n) => Some(n as u32),
            None => None,
        },
        None => None,
    }
}

/// The Bayer phase at the sensor frame's origin.
pub fn cfa(tiff: &Tiff<'_>, raw_ifd: &Ifd) -> (cfa: Cfa)
    requires
        tiff@.well_formed(),
        raw_ifd@.inside(tiff.bytes@),
    ensures
        cfa@ == phase(phase_number(tiff@, raw_ifd@)),
{
    let entry = match field_of(tiff, raw_ifd, CR2_CFA_PATTERN) {
        Some(e) => Some(e),
        None => tiff.find(CR2_CFA_PATTERN),
    };
    match entry {
        Some(e) => cfa_of(tiff.u32(e, 0)),
        None => cfa_of(None),
    }
}

/// A makernote record's values as 16-bit words: a list of them, or the
/// same words as plain bytes.
pub open spec fn words_of(tiff: TiffModel, entry: Option<Entry>) -> Option<Seq<u16>> {
    match entry {
        Some(e) => {
            let n: int = if e.kind == 3 {
                e.count as int
            } else if e.kind == 1 || e.kind == 7 {
                e.count as int / 2
            } else {
                0
            };
            Some(
                Seq::new(n as nat, |i: int| word16(tiff.bytes, e.offset + 2 * i, tiff.little) as u16),
            )
        },
        None => None,
    }
}

fn shorts(tiff: &Tiff<'_>, e: Entry) -> (out: Vec<u16>)
    requires
        e.inside(tiff.bytes@),
    ensures
        words_of(tiff@, Some(e)) == Some(out@),
{
    assert(tiff.bytes@.len() == tiff.bytes.len());
    let n: usize = if e.kind == 3 {
        e.count
    } else if e.kind == 1 || e.kind == 7 {
        e.count / 2
    } else {
        0
    };
    let mut out: Vec<u16> = Vec::new();
    let mut i: usize = 0;
    while i < n
        invariant
            tiff.bytes@.len() == tiff.bytes.len(),
            i <= n,
            e.offset + 2 * n <= tiff.bytes@.len(),
            out@ == Seq::new(
                i as nat,
                |k: int| word16(tiff.bytes@, e.offset + 2 * k, tiff.little) as u16,
            ),
        decreases n - i,
    {
        out.push(read_word16(tiff.bytes, e.offset + 2 * i, tiff.little));
        i = i + 1;
        assert(out@ =~= Seq::new(
            i as nat,
            |k: int| word16(tiff.bytes@, e.offset + 2 * k, tiff.little) as u16,
        ));
    }
    assert(out@ =~= words_of(tiff@, Some(e))->0);
    out
}

fn read_word16(bytes: &[u8], at: usize, little: bool) -> (w: u16)
    requires
        at + 2 <= bytes@.len(),
    ensures
        w == word16(bytes@, at as int, little) as u16,
{
    if little {
        read_le16(bytes, at)
    } else {
        read_be16(bytes, at)
    }
}

/// The makernote: a plain directory in the file's byte order, with
/// offsets from the start of the file like any other.
pub open spec fn maker_of(tiff: TiffModel) -> Option<TiffModel> {
    match tiff.field(MAKER_NOTE) {
        Some(e) => match bare_at(tiff.bytes, e.offset as int, 0, tiff.little) {
            Ok(maker) => Some(maker),
            Err(_) => None,
        },
        None => None,
    }
}

fn makernote<'a>(tiff: &Tiff<'a>) -> (r: Option<Tiff<'a>>)
    requires
        tiff@.well_formed(),
    ensures
        match r {
            Some(maker) => maker_of(tiff@) == Some(maker@) && maker@.well_formed(),
            None => maker_of(tiff@) is None,
        },
{
    match tiff.find(MAKER_NOTE) {
        Some(e) => match Tiff::parse_at(tiff.bytes, e.offset, tiff.little) {
            Ok(maker) => Some(maker),
            Err(_) => None,
        },
        None => None,
    }
}

/// What the makernote's record says of the sensor.
pub open spec fn maker_sensor(maker: TiffModel) -> Option<SensorInfo> {
    match words_of(maker, maker.root().field(SENSOR_INFO)) {
        Some(words) => sensor_of(words),
        None => None,
    }
}

/// What the makernote's record says of colour.
pub open spec fn maker_colors(maker: TiffModel) -> Option<ColorModel> {
    match words_of(maker, maker.root().field(COLOR_DATA)) {
        Some(words) => colors_of(words),
        None => None,
    }
}

fn sensor_info(maker: &Tiff<'_>) -> (r: Option<SensorInfo>)
    requires
        maker@.well_formed(),
    ensures
        r == maker_sensor(maker@),
{
    match field_of(maker, maker.root(), SENSOR_INFO) {
        Some(e) => SensorInfo::of(shorts(maker, e).as_slice()),
        None => None,
    }
}

fn color_data(maker: &Tiff<'_>) -> (r: Option<ColorData>)
    requires
        maker@.well_formed(),
    ensures
        match r {
            Some(data) => maker_colors(maker@) == Some(data@),
            None => maker_colors(maker@) is None,
        },
{
    match field_of(maker, maker.root(), COLOR_DATA) {
        Some(e) => ColorData::of(shorts(maker, e)),
        None => None,
    }
}

// ------------------------------------------------------------ decoding

/// What a lossless JPEG decoder makes of the stream that holds the sensor
/// data.
pub enum Stream {
    /// It has no sampling factors to read.
    Unreadable(Error),
    /// Its chroma is subsampled.
    Subsampled(Result<SubsampledImage>),
    /// All its components are sampled alike.
    Plain { header: Result<LosslessHeader>, frame: Result<LosslessFrame> },
}

/// [`Stream`] as a mathematical value.
pub enum StreamModel {
    Unreadable(Fault),
    Subsampled(Outcome<SubsampledImage>),
    Plain { header: Outcome<LosslessHeader>, frame: Outcome<LosslessModel> },
}

impl View for Stream {
    type V = StreamModel;

    open spec fn view(&self) -> StreamModel {
        match self {
            Stream::Unreadable(e) => StreamModel::Unreadable(e@),
            Stream::Subsampled(sub) => StreamModel::Subsampled(outcome(*sub)),
            Stream::Plain { header, frame } => StreamModel::Plain {
                header: outcome(*header),
                frame: deep_outcome(*frame),
            },
        }
    }
}

impl StreamModel {
    /// Whether a subsampled frame has the luma and the chroma of a block.
    pub open spec fn well_formed(self) -> bool {
        self matches StreamModel::Subsampled(Ok(sub)) ==> sub.components >= 2
    }
}

/// What every frame of a file shares: the camera, the orientation, the
/// shooting data and the preview.
pub open spec fn with_common(raw: RawModel, tiff: TiffModel) -> RawModel {
    RawModel {
        make: trimmed(camera_of(tiff).0),
        model: trimmed(camera_of(tiff).1),
        orientation: orientation_of(tiff),
        metadata: metadata_of(tiff),
        preview: best_picture(tiff, tiff.ifds.len() as int),
        ..raw
    }
}

fn common_fields(raw: &mut RawImage, tiff: &Tiff<'_>)
    requires
        tiff@.well_formed(),
    ensures
        final(raw)@ == with_common(old(raw)@, tiff@),
{
    let (make, model) = make_model(tiff);
    raw.set_camera(make.as_str(), model.as_str());
    raw.orientation = orientation(tiff);
    raw.metadata = metadata(tiff);
    raw.preview = largest_jpeg(tiff);
}

/// As-shot levels of R, G, B and the second G as gains relative to the
/// first green.
pub open spec fn shot_gains(q: Seq<u16>) -> Seq<Gain> {
    seq![
        Gain::of(q[0] as u32, q[1] as u32),
        Gain::unit(),
        Gain::of(q[2] as u32, q[1] as u32),
        Gain::of(q[3] as u32, q[1] as u32),
    ]
}

/// The crop and the white balance that a makernote adds to a frame.
pub open spec fn balanced(
    raw: RawModel,
    sensor: Option<SensorInfo>,
    colors: Option<ColorModel>,
) -> RawModel {
    RawModel {
        crop: match sensor {
            Some(s) => match s.shown(raw.width, raw.height) {
                Some(crop) => crop,
                None => raw.crop,
            },
            None => raw.crop,
        },
        wb_coeffs: match colors {
            Some(c) => match c.shot() {
                Some(q) => shot_gains(q),
                None => raw.wb_coeffs,
            },
            None => raw.wb_coeffs,
        },
        ..raw
    }
}

/// Optional colour numbers as a mathematical value.
pub open spec fn maybe_colors(colors: Option<ColorData>) -> Option<ColorModel> {
    match colors {
        Some(c) => Some(c@),
        None => None,
    }
}

fn balance(raw: &mut RawImage, sensor: &Option<SensorInfo>, colors: &Option<ColorData>)
    ensures
        final(raw)@ == balanced(old(raw)@, *sensor, maybe_colors(*colors)),
{
    if let Some(s) = sensor {
        if let Some(crop) = s.crop(raw.width, raw.height) {
            raw.crop = crop;
        }
    }
    if let Some(c) = colors {
        if let Some(q) = c.as_shot_wb() {
            let green: u32 = q[1] as u32;
            raw.wb_coeffs = [
                Gain::of(q[0] as u32, green),
                Gain::unit(),
                Gain::of(q[2] as u32, green),
                Gain::of(q[3] as u32, green),
            ];
            assert(raw.wb_coeffs@ =~= shot_gains(q@));
        }
    }
}

/// The middle value of samples.
pub open spec fn median_of(s: Seq<u16>) -> int {
    choose|v: int| is_median(s, v)
}

/// No black level at all.
pub open spec fn no_black() -> Seq<Ratio> {
    all_four(Ratio::whole(0))
}

/// Black levels by position from levels by colour.
pub open spec fn spread(cfa: CfaModel, q: Seq<u16>) -> Seq<Ratio> {
    Seq::new(4, |i: int| Ratio::whole(level_at(q, cfa, i) as u32))
}

/// Black levels by position measured on an area.
pub open spec fn measured(data: Seq<u16>, width: int, area: Rect) -> Seq<Ratio> {
    Seq::new(4, |i: int| Ratio::whole(median_of(phase_samples(data, width, area, i)) as u32))
}

/// The black levels of a frame: those the makernote gives, and where it
/// gives none, or zero, those measured on the masked border.
pub open spec fn dark_levels(
    raw: RawModel,
    sensor: Option<SensorInfo>,
    colors: Option<ColorModel>,
) -> Seq<Ratio> {
    let given = match colors {
        Some(c) => match c.blacks() {
            Some(q) => spread(raw.cfa, q),
            None => no_black(),
        },
        None => no_black(),
    };
    if given == no_black() {
        match usable_dark_area(raw.data, raw.width as usize, raw.height as usize, sensor) {
            Some(area) => measured(raw.data, raw.width, area),
            None => no_black(),
        }
    } else {
        given
    }
}

fn whole_levels(levels: [u16; 4]) -> (out: [Ratio; 4])
    ensures
        out@ == Seq::new(4, |i: int| Ratio::whole(levels[i] as u32)),
{
    let out: [Ratio; 4] = [
        Ratio::whole(levels[0] as u32),
        Ratio::whole(levels[1] as u32),
        Ratio::whole(levels[2] as u32),
        Ratio::whole(levels[3] as u32),
    ];
    assert forall|i: int| 0 <= i < 4 implies out@[i] == Ratio::whole(levels[i] as u32) by {
        assert(i == 0 || i == 1 || i == 2 || i == 3);
    }
    assert(out@ =~= Seq::new(4, |i: int| Ratio::whole(levels[i] as u32)));
    out
}

fn read_dark(raw: &RawImage, sensor: &Option<SensorInfo>, colors: &Option<ColorData>) -> (out: [Ratio;
    4])
    requires
        raw.width * raw.height <= raw.data@.len(),
    ensures
        out@ == dark_levels(raw@, *sensor, maybe_colors(*colors)),
{
    let mut given: [u16; 4] = [0;4];
    let ghost mut stated = no_black();
    if let Some(c) = colors {
        if let Some(q) = c.black_levels() {
            given = spread_black(q, &raw.cfa);
            proof {
                stated = spread(raw.cfa@, q@);
            }
        }
    }
    let out = whole_levels(given);
    assert(out@ =~= stated);
    if given[0] != 0 || given[1] != 0 || given[2] != 0 || given[3] != 0 {
        proof {
            assert(stated[0].num == given[0] && stated[1].num == given[1] && stated[2].num
                == given[2] && stated[3].num == given[3]);
            assert(no_black()[0].num == 0 && no_black()[1].num == 0 && no_black()[2].num == 0
                && no_black()[3].num == 0);
        }
        return out;
    }
    assert(stated =~= no_black());
    match masked_black(raw.data.as_slice(), raw.width, raw.height, sensor.as_ref()) {
        Some(levels) => {
            let found = whole_levels(levels);
            proof {
                let area = usable_dark_area(raw.data@, raw.width, raw.height, *sensor)->0;
                assert forall|i: int| 0 <= i < 4 implies found@[i] == measured(
                    raw.data@,
                    raw.width as int,
                    area,
                )[i] by {
                    let s = phase_samples(raw.data@, raw.width as int, area, i);
                    assert(is_median(s, levels[i] as int));
                    law_median_is_unique(s, levels[i] as int, median_of(s));
                }
                assert(found@ =~= measured(raw.data@, raw.width as int, area));
            }
            found
        },
        None => out,
    }
}

/// A depth that samples can have.
pub open spec fn clamped_precision(precision: u32) -> int {
    if precision < 1 {
        1
    } else if precision > 16 {
        16
    } else {
        precision as int
    }
}

/// Black levels, unless one of them reaches saturation: that is a record
/// gone wrong, and an unbalanced picture beats a refusal.
pub open spec fn below_white(levels: Seq<Ratio>, white: Ratio) -> Seq<Ratio> {
    if levels[0].less(white) && levels[1].less(white) && levels[2].less(white) && levels[3].less(
        white,
    ) {
        levels
    } else {
        no_black()
    }
}

/// A Bayer frame with everything the file says of it.
pub open spec fn bayer_described(
    tiff: TiffModel,
    ifd: IfdModel,
    width: int,
    height: int,
    precision: u32,
    data: Seq<u16>,
) -> RawModel {
    let plain = plain_image(
        Format::Cr2,
        width as usize,
        height as usize,
        1,
        data,
        phase(phase_number(tiff, ifd)),
    );
    // The stream's precision is the sensor's.
    let white = full_scale_of(clamped_precision(precision));
    let raw = RawModel { white_level: white, ..with_common(plain, tiff) };
    let told = match maker_of(tiff) {
        Some(maker) => RawModel {
            black_levels: dark_levels(raw, maker_sensor(maker), maker_colors(maker)),
            ..balanced(raw, maker_sensor(maker), maker_colors(maker))
        },
        None => raw,
    };
    RawModel { black_levels: below_white(told.black_levels, white), ..told }
}

fn describe_bayer(
    tiff: &Tiff<'_>,
    ifd: &Ifd,
    width: usize,
    height: usize,
    precision: u32,
    data: Vec<u16>,
) -> (raw: RawImage)
    requires
        tiff@.well_formed(),
        ifd@.inside(tiff.bytes@),
        width * height <= data@.len(),
    ensures
        raw@ == bayer_described(tiff@, ifd@, width as int, height as int, precision, data@),
{
    let cfa = cfa(tiff, ifd);
    let mut raw = RawImage::new(Format::Cr2, width, height, 1, data, cfa);
    common_fields(&mut raw, tiff);
    let depth: u32 = if precision < 1 {
        1
    } else if precision > 16 {
        16
    } else {
        precision
    };
    let white = full_scale(depth);
    raw.white_level = white;
    if let Some(maker) = makernote(tiff) {
        let sensor = sensor_info(&maker);
        let colors = color_data(&maker);
        assert(maybe_colors(colors) == maker_colors(maker@));
        let dark = read_dark(&raw, &sensor, &colors);
        balance(&mut raw, &sensor, &colors);
        raw.black_levels = dark;
    }
    let levels: [Ratio; 4] = raw.black_levels;
    if !(levels[0].is_less(white) && levels[1].is_less(white) && levels[2].is_less(white)
        && levels[3].is_less(white)) {
        raw.black_levels = [Ratio::whole(0);4];
        assert(raw.black_levels@ =~= no_black());
    }
    raw
}

/// What a frame whose components are sampled alike decodes to. A row of
/// the sensor is grouped into two or four components; three means colour.
pub open spec fn bayer_frame(
    tiff: TiffModel,
    ifd: IfdModel,
    header: Outcome<LosslessHeader>,
    frame: Outcome<LosslessModel>,
) -> Outcome<RawModel> {
    match header {
        Err(fault) => Err(fault),
        Ok(shape) => if shape.components == 3 {
            Err(
                Fault::Unsupported(
                    "cr2: a three-component lossless JPEG without sampling factors (an sRAW/mRAW shape no Canon body writes)"@,
                ),
            )
        } else {
            match frame {
                Err(fault) => Err(fault),
                Ok(frame) => {
                    let row = frame.width * frame.components;
                    if row > usize::MAX {
                        Err(Fault::Corrupt("cr2: lossless JPEG frame too wide"@))
                    } else {
                        match desliced(
                            frame.data,
                            row,
                            frame.height,
                            cut_of(tiff, ifd, row as usize),
                        ) {
                            Err(fault) => Err(fault),
                            Ok((width, data)) => Ok(
                                bayer_described(
                                    tiff,
                                    ifd,
                                    width,
                                    frame.height,
                                    shape.precision,
                                    data,
                                ),
                            ),
                        }
                    }
                },
            }
        },
    }
}

fn bayer(
    tiff: &Tiff<'_>,
    ifd: &Ifd,
    header: Result<LosslessHeader>,
    frame: Result<LosslessFrame>,
) -> (r: Result<RawImage>)
    requires
        tiff@.well_formed(),
        ifd@.inside(tiff.bytes@),
    ensures
        deep_outcome(r) == bayer_frame(tiff@, ifd@, outcome(header), deep_outcome(frame)),
{
    let shape = match header {
        Ok(shape) => shape,
        Err(e) => return Err(e),
    };
    if shape.components == 3 {
        return Err(
            unsupported(
                "cr2: a three-component lossless JPEG without sampling factors (an sRAW/mRAW shape no Canon body writes)",
            ),
        );
    }
    let frame = match frame {
        Ok(frame) => frame,
        Err(e) => return Err(e),
    };
    let row: usize = match frame.width.checked_mul(frame.components) {
        Some(row) => row,
        None => return Err(corrupt("cr2: lossless JPEG frame too wide")),
    };
    let cut = slices(tiff, ifd, row);
    match deslice(frame.data.as_slice(), row, frame.height, cut) {
        Ok((width, data)) => {
            proof {
                lemma_desliced_len(frame.data@, row as int, frame.height as int, cut@);
            }
            Ok(describe_bayer(tiff, ifd, width, frame.height, shape.precision, data))
        },
        Err(e) => Err(e),
    }
}

proof fn lemma_desliced_len(samples: Seq<u16>, row: int, height: int, slices: Seq<usize>)
    ensures
        desliced(samples, row, height, slices) matches Ok((width, data)) ==> width * height
            == data.len(),
{
}

// ---------------------------------------------------- subsampled frames

/// The number of a body.
pub open spec fn body_of(maker: TiffModel) -> Option<u32> {
    match maker.number(maker.root(), MODEL_ID) {
        Some(n) => Some(n as u32),
        None => None,
    }
}

/// The gains that a subsampled frame is finished with: unity where the
/// file has none.
pub open spec fn finish_gains(colors: Option<ColorModel>) -> Seq<i32> {
    let unity: Seq<i32> = seq![1024i32, 1024i32, 1024i32];
    match colors {
        Some(c) => match c.gains() {
            Some(gains) => gains,
            None => unity,
        },
        None => unity,
    }
}

/// A subsampled frame with everything the file says of it. The colour
/// reconstruction has centred the data, so no pedestal is left.
pub open spec fn sraw_described(
    tiff: TiffModel,
    sensor: Option<SensorInfo>,
    colors: Option<ColorModel>,
    width: int,
    sub: SubsampledImage,
    planes: Seq<i32>,
) -> RawModel {
    let full = upsampled(planes, width, sub.height as int, sub.p as int);
    let data = Seq::new(
        full.len(),
        |i: int| rgb_sample(full, sub.p as int, finish_gains(colors), i),
    );
    let plain = plain_image(
        Format::Cr2,
        width as usize,
        sub.height,
        3,
        data,
        no_array(),
    );
    RawModel {
        black_levels: no_black(),
        white_level: Ratio::whole(16383),
        ..balanced(with_common(plain, tiff), sensor, colors)
    }
}

/// What a subsampled frame decodes to, on a body whose colours are known.
pub open spec fn sraw_frame(
    tiff: TiffModel,
    ifd: IfdModel,
    sub: Outcome<SubsampledImage>,
) -> Outcome<RawModel> {
    let maker = maker_of(tiff);
    let (sensor, colors, body) = match maker {
        Some(m) => (maker_sensor(m), maker_colors(m), body_of(m)),
        None => (None, None, None),
    };
    if !is_verified_body(body) {
        Err(
            Fault::Unsupported(
                "Canon sRAW on "@ + body_name(body, camera_of(tiff).1)
                    + ": colour reconstruction not verified for this body"@,
            ),
        )
    } else {
        match sub {
            Err(fault) => Err(fault),
            Ok(sub) => {
                let width = trimmed_width(sensor, sub.width as int);
                match planes_of(sub, width as usize, cut_of(tiff, ifd, sub.row)) {
                    Err(fault) => Err(fault),
                    Ok(planes) => Ok(
                        sraw_described(tiff, sensor, colors, width, sub, planes),
                    ),
                }
            },
        }
    }
}

fn describe_sraw(
    tiff: &Tiff<'_>,
    sensor: &Option<SensorInfo>,
    colors: &Option<ColorData>,
    width: usize,
    sub: &SubsampledImage,
    planes: Vec<i32>,
) -> (raw: RawImage)
    requires
        tiff@.well_formed(),
        width * sub.height * 3 <= planes@.len(),
    ensures
        raw@ == sraw_described(
            tiff@,
            *sensor,
            maybe_colors(*colors),
            width as int,
            *sub,
            planes@,
        ),
{
    let mut planes = planes;
    sraw_upsample(planes.as_mut_slice(), width, sub.height, sub.p);
    let mut gains: [i32; 3] = [1024;3];
    if let Some(c) = colors {
        if let Some(found) = c.sraw_multipliers() {
            gains = found;
        }
    }
    assert(gains@ =~= finish_gains(maybe_colors(*colors)));
    let data = sraw_to_rgb(planes.as_slice(), sub.p, gains);
    let mut raw = RawImage::new(Format::Cr2, width, sub.height, 3, data, Cfa::Linear);
    common_fields(&mut raw, tiff);
    balance(&mut raw, sensor, colors);
    raw.black_levels = [Ratio::whole(0);4];
    assert(raw.black_levels@ =~= no_black());
    raw.white_level = Ratio::whole(16383);
    raw
}

fn sraw(tiff: &Tiff<'_>, ifd: &Ifd, sub: Result<SubsampledImage>) -> (r: Result<RawImage>)
    requires
        tiff@.well_formed(),
        ifd@.inside(tiff.bytes@),
        sub matches Ok(s) ==> s.components >= 2,
    ensures
        deep_outcome(r) == sraw_frame(tiff@, ifd@, outcome(sub)),
{
    let mut sensor: Option<SensorInfo> = None;
    let mut colors: Option<ColorData> = None;
    let mut body: Option<u32> = None;
    if let Some(maker) = makernote(tiff) {
        sensor = sensor_info(&maker);
        colors = color_data(&maker);
        body = first_number(&maker, maker.root(), MODEL_ID);
        assert(maybe_colors(colors) == maker_colors(maker@));
        assert(body == body_of(maker@));
    }
    let (_, model) = make_model(tiff);
    match sraw_verified_body(body, model.as_str()) {
        Ok(_) => {},
        Err(e) => return Err(e),
    }
    let sub = match sub {
        Ok(sub) => sub,
        Err(e) => return Err(e),
    };
    let width: usize = sraw_width(sensor.as_ref(), sub.width);
    let cut = slices(tiff, ifd, sub.row);
    let planes = match sraw_planes(&sub, width, cut) {
        Ok(planes) => planes,
        Err(e) => return Err(e),
    };
    proof {
        assert(0 <= width * sub.height * 3) by (nonlinear_arith)
            requires
                0 <= width,
                0 <= sub.height,
        ;
    }
    Ok(describe_sraw(tiff, &sensor, &colors, width, &sub, planes))
}

/// What a parsed file decodes to; `lossless` says of each directory
/// whether its strip is a lossless JPEG, and `stream` what a lossless JPEG
/// decoder makes of the sensor data.
pub open spec fn decoded(tiff: TiffModel, lossless: Seq<bool>, stream: StreamModel) -> Outcome<
    RawModel,
> {
    match sensor_ifd(tiff, lossless) {
        None => Err(Fault::Corrupt("cr2: no IFD holds sensor data"@)),
        Some(i) => match strip_range(tiff, tiff.ifds[i]) {
            Err(fault) => Err(fault),
            Ok(_) => match stream {
                StreamModel::Unreadable(fault) => Err(fault),
                StreamModel::Subsampled(sub) => sraw_frame(tiff, tiff.ifds[i], sub),
                StreamModel::Plain { header, frame } => bayer_frame(
                    tiff,
                    tiff.ifds[i],
                    header,
                    frame,
                ),
            },
        },
    }
}

/// Decodes the sensor frame of a parsed file.
pub fn decode_tiff(tiff: &Tiff<'_>, lossless: &[bool], stream: Stream) -> (r: Result<RawImage>)
    requires
        tiff@.well_formed(),
        stream@.well_formed(),
    ensures
        deep_outcome(r) == decoded(tiff@, lossless@, stream@),
{
    let i: usize = match raw_ifd(tiff, lossless) {
        Some(i) => i,
        None => return Err(corrupt("cr2: no IFD holds sensor data")),
    };
    let ifd = &tiff.ifds[i];
    assert(tiff@.ifds[i as int] == ifd@);
    assert(tiff@.ifds[i as int].inside(tiff.bytes@));
    match raw_stream(tiff, ifd) {
        Ok(_) => {},
        Err(e) => return Err(e),
    }
    match stream {
        Stream::Unreadable(e) => Err(e),
        Stream::Subsampled(sub) => sraw(tiff, ifd, sub),
        Stream::Plain { header, frame } => bayer(tiff, ifd, header, frame),
    }
}

/// Decodes a CR2 into its sensor frame and metadata. `lossless` says of
/// each directory whether its strip, which [`strips`] lists, is a lossless
/// JPEG, and `stream` what a lossless JPEG decoder makes of the stream
/// that [`sensor_stream`] names.
pub fn decode(bytes: &[u8], lossless: &[bool], stream: Stream) -> (r: Result<RawImage>)
    requires
        stream@.well_formed(),
    ensures
        deep_outcome(r) == match tiff_at(bytes@, 0) {
            Ok(tiff) => decoded(tiff, lossless@, stream@),
            Err(fault) => Outcome::<RawModel>::Err(fault),
        },
{
    match Tiff::parse(bytes) {
        Ok(tiff) => decode_tiff(&tiff, lossless, stream),
        Err(e) => Err(e),
    }
}

/// Where each directory's strip lies, if it has one inside the file.
pub open spec fn strip_list(tiff: TiffModel, n: int) -> Seq<Option<(int, int)>> {
    Seq::new(
        n as nat,
        |i: int|
            match strip_range(tiff, tiff.ifds[i]) {
                Ok(range) => Some(range),
                Err(_) => None,
            },
    )
}

/// A range without its machine types.
pub open spec fn wide_range(range: Option<(usize, usize)>) -> Option<(int, int)> {
    match range {
        Some((start, end)) => Some((start as int, end as int)),
        None => None,
    }
}

/// Where each directory's strip lies, start and end, if it has one inside
/// the file.
pub fn strips(bytes: &[u8]) -> (r: Result<Vec<Option<(usize, usize)>>>)
    ensures
        match r {
            Ok(found) => tiff_at(bytes@, 0) matches Ok(tiff) && found@.map_values(
                |range| wide_range(range),
            ) == strip_list(tiff, tiff.ifds.len() as int),
            Err(e) => tiff_at(bytes@, 0) == Outcome::<TiffModel>::Err(e@),
        },
{
    let tiff = match Tiff::parse(bytes) {
        Ok(tiff) => tiff,
        Err(e) => return Err(e),
    };
    let mut found: Vec<Option<(usize, usize)>> = Vec::new();
    let mut i: usize = 0;
    while i < tiff.ifds.len()
        invariant
            tiff@.well_formed(),
            i <= tiff.ifds@.len(),
            found@.map_values(|range| wide_range(range)) == strip_list(tiff@, i as int),
        decreases tiff.ifds@.len() - i,
    {
        assert(tiff@.ifds[i as int] == tiff.ifds@[i as int]@);
        assert(tiff@.ifds[i as int].inside(tiff.bytes@));
        let ghost before = found@;
        let range: Option<(usize, usize)> = match raw_stream(&tiff, &tiff.ifds[i]) {
            Ok(range) => Some(range),
            Err(_) => None,
        };
        found.push(range);
        i = i + 1;
        assert(found@.map_values(|range| wide_range(range)) =~= before.map_values(
            |range| wide_range(range),
        ).push(wide_range(range)));
        assert(strip_list(tiff@, i as int) =~= strip_list(tiff@, i - 1).push(wide_range(range)));
    }
    Ok(found)
}

/// Where the stream lies that holds the sensor data.
pub open spec fn stream_range(tiff: TiffModel, lossless: Seq<bool>) -> Outcome<(int, int)> {
    match sensor_ifd(tiff, lossless) {
        None => Err(Fault::Corrupt("cr2: no IFD holds sensor data"@)),
        Some(i) => strip_range(tiff, tiff.ifds[i]),
    }
}

/// Where the stream lies that holds the sensor data: start and end.
pub fn sensor_stream(bytes: &[u8], lossless: &[bool]) -> (r: Result<(usize, usize)>)
    ensures
        match r {
            Ok((start, end)) => tiff_at(bytes@, 0) matches Ok(tiff) && stream_range(tiff, lossless@)
                == Outcome::<(int, int)>::Ok((start as int, end as int)) && start <= end
                <= bytes@.len(),
            Err(e) => match tiff_at(bytes@, 0) {
                Ok(tiff) => stream_range(tiff, lossless@) == Outcome::<(int, int)>::Err(e@),
                Err(fault) => e@ == fault,
            },
        },
{
    let tiff = match Tiff::parse(bytes) {
        Ok(tiff) => tiff,
        Err(e) => return Err(e),
    };
    let i: usize = match raw_ifd(&tiff, lossless) {
        Some(i) => i,
        None => return Err(corrupt("cr2: no IFD holds sensor data")),
    };
    assert(tiff@.ifds[i as int] == tiff.ifds@[i as int]@);
    assert(tiff@.ifds[i as int].inside(tiff.bytes@));
    raw_stream(&tiff, &tiff.ifds[i])
}

/// The largest embedded JPEG.
pub fn preview(bytes: &[u8]) -> (r: Result<Option<Vec<u8>>>)
    ensures
        preview_outcome(r) == pictured(bytes@),
{
    match Tiff::parse(bytes) {
        Ok(tiff) => Ok(largest_jpeg(&tiff)),
        Err(e) => Err(e),
    }
}

/// The picture's area reaches from its first column and row to its last,
/// both of them in it, where they lie in the frame; elsewhere there is
/// none.
pub proof fn law_borders_are_inside_the_picture(
    sensor: SensorInfo,
    width: int,
    height: int,
    x: int,
    y: int,
)
    requires
        width <= usize::MAX,
        height <= usize::MAX,
    ensures
        sensor.shown(width, height) is Some <==> sensor.left <= sensor.right && sensor.right < width
            && sensor.top <= sensor.bottom && sensor.bottom < height,
        sensor.shown(width, height) matches Some(area) ==> (area.x <= x < area.x + area.width
            && area.y <= y < area.y + area.height <==> sensor.left <= x <= sensor.right
            && sensor.top <= y <= sensor.bottom),
{
}

} // verus!
