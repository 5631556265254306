//! Sigma X3F: the raw of the Foveon cameras, whose sensor stacks three
//! photodiodes at every pixel. A frame has three samples a pixel and no
//! filter array.
//!
//! A file opens with `FOVb` and *ends* with a pointer to its directory.
//! The compressed sensor data is Foveon's "TRUE" entropy code in two
//! geometries: three full-resolution planes, or a full-resolution top
//! layer over two quarter-resolution ones.

use crate::bytes::{
    be16, fits, has_tag, holds, holds_number, law_numbers_are_read_from_their_bytes, le16, le32,
    owned, read_be16, read_le16, read_le32, tagged,
};
use crate::raw::formats::srw::{plain, plain_frame};
use crate::raw::bits::{
    after, bits_of, category_code, category_of, category_value, from_category,
    law_categories_are_read_back, law_numbers_are_read_back, lemma_top_bits, lemma_window,
    lemma_word_bound, msb_bits, power_of_two, reached, word, BitPump, BitPumpMsb,
};
use crate::raw::common::{
    camera_of, make_model, merge, merged, metadata_of, orientation, orientation_of,
};
use crate::raw::frame::{
    all_four, maybe_bytes, maybe_text, plain_image, Metadata, MetadataModel, Ratio, RawImage,
    RawModel,
};
use crate::raw::image::{exif_orientation, no_array, Cfa, Orientation};
use crate::raw::tiff::{tiff_at, Tiff, TiffModel};
use crate::grid::{lemma_place, lemma_place_inverse, place};
use crate::raw::predict::{continued, Parity, ParityModel};
use crate::raw::{
    corrupt, deep_outcome, frame_samples, frame_samples_spec, preview_outcome, unsupported, Error,
    Fault, Format, Outcome, Rect, Result,
};
use crate::text::{
    characters, decimal, joined, push_char, push_decimal, same_text, trim, trimmed,
};
use vstd::arithmetic::power2::{lemma2_to64, lemma_pow2_adds, lemma_pow2_pos, pow2};
use vstd::prelude::*;
use vstd::slice::slice_subrange;

verus! {

// --- The entropy engine -------------------------------------------
//
// A layer is a category-Huffman stream: each Huffman symbol is a
// magnitude-bit count, and that many bits then give a signed difference,
// a leading one being the positive half. Differences run through a
// two-parity horizontal predictor.

/// The longest code among the first `n` pairs.
pub open spec fn longest(pairs: Seq<(u8, u8)>, n: nat) -> nat
    decreases n,
{
    if n == 0 {
        0
    } else {
        let before = longest(pairs, (n - 1) as nat);
        if pairs[n - 1].0 > before {
            pairs[n - 1].0 as nat
        } else {
            before
        }
    }
}

/// The first window that begins with a code of length `pair.0`, kept in
/// the top bits of `pair.1`.
pub open spec fn first_window(pair: (u8, u8), max_len: nat) -> int {
    (pair.1 as int / pow2((8 - pair.0) as nat) as int) * pow2((max_len - pair.0) as nat)
}

/// Whether a window begins with a code.
pub open spec fn begins_with(pair: (u8, u8), max_len: nat, window: int) -> bool {
    first_window(pair, max_len) <= window < first_window(pair, max_len) + pow2(
        (max_len - pair.0) as nat,
    )
}

/// No window begins with two of the first `n` codes.
pub open spec fn prefix_free(pairs: Seq<(u8, u8)>, max_len: nat, n: nat) -> bool {
    forall|j: int, k: int, w: int|
        0 <= j < k < n && #[trigger] begins_with(pairs[j], max_len, w)
            ==> !#[trigger] begins_with(pairs[k], max_len, w)
}

/// The symbol and code length of a window under the first `n` codes; a
/// length of zero marks a window that no code begins.
pub open spec fn window_symbol(pairs: Seq<(u8, u8)>, max_len: nat, n: nat, window: int) -> (u8, u8)
    decreases n,
{
    if n == 0 {
        (0, 0)
    } else if begins_with(pairs[n - 1], max_len, window) {
        ((n - 1) as u8, pairs[n - 1].0)
    } else {
        window_symbol(pairs, max_len, (n - 1) as nat, window)
    }
}

/// The symbol and code length of every window.
pub open spec fn code_table(pairs: Seq<(u8, u8)>) -> Seq<(u8, u8)> {
    let max_len = longest(pairs, pairs.len());
    Seq::new(pow2(max_len), |w: int| window_symbol(pairs, max_len, pairs.len(), w))
}

/// Why a list of codes makes no table.
pub open spec fn code_fault(pairs: Seq<(u8, u8)>) -> Option<Fault> {
    let max_len = longest(pairs, pairs.len());
    if max_len == 0 || max_len > 8 || exists|k: int|
        0 <= k < pairs.len() && (#[trigger] pairs[k]).0 == 0 {
        Some(
            Fault::Corrupt("X3F Huffman code length "@ + decimal(max_len as int) + " out of range"@),
        )
    } else if pairs.len() > 17 {
        Some(
            Fault::Corrupt(
                "X3F Huffman table of "@ + decimal(pairs.len() as int)
                    + " symbols; a difference has at most 16 bits"@,
            ),
        )
    } else if !prefix_free(pairs, max_len, pairs.len()) {
        Some(Fault::Corrupt("X3F Huffman codes are not prefix-free"@))
    } else {
        None
    }
}

proof fn lemma_window_of(pairs: Seq<(u8, u8)>, max_len: nat, n: nat, k: int, w: int)
    requires
        prefix_free(pairs, max_len, pairs.len()),
        0 <= k < n <= pairs.len(),
        begins_with(pairs[k], max_len, w),
    ensures
        window_symbol(pairs, max_len, n, w) == (k as u8, pairs[k].0),
    decreases n,
{
    if k < n - 1 {
        assert(!begins_with(pairs[n - 1], max_len, w));
        lemma_window_of(pairs, max_len, (n - 1) as nat, k, w);
    }
}

/// The codes of a table decode to their own symbols: a window that begins
/// with the code of symbol `k` stands for `k`, and for no other.
pub proof fn law_codes_decode_to_their_symbols(pairs: Seq<(u8, u8)>, k: int, w: int)
    requires
        code_fault(pairs) is None,
        0 <= k < pairs.len(),
        0 <= w < pow2(longest(pairs, pairs.len())),
        begins_with(pairs[k], longest(pairs, pairs.len()), w),
    ensures
        code_table(pairs)[w] == (k as u8, pairs[k].0),
{
    lemma_window_of(pairs, longest(pairs, pairs.len()), pairs.len(), k, w);
}

/// The longest code is as long as one of the codes, and no code is longer.
pub proof fn law_no_code_is_longer_than_the_longest(pairs: Seq<(u8, u8)>, n: nat)
    requires
        n <= pairs.len(),
    ensures
        forall|k: int| 0 <= k < n ==> (#[trigger] pairs[k]).0 <= longest(pairs, n),
        longest(pairs, n) > 0 ==> exists|k: int|
            0 <= k < n && (#[trigger] pairs[k]).0 == longest(pairs, n),
    decreases n,
{
    if n > 0 {
        law_no_code_is_longer_than_the_longest(pairs, (n - 1) as nat);
        let last = pairs[n - 1];
    }
}

/// A window begins with a code where its first bits are the code's, which
/// are the first of its byte.
pub proof fn law_codes_are_the_first_bits_of_their_bytes(
    pair: (u8, u8),
    max_len: nat,
    window: int,
)
    requires
        1 <= pair.0 <= max_len <= 8,
        0 <= window,
    ensures
        begins_with(pair, max_len, window) <==> window / (pow2((max_len - pair.0) as nat) as int)
            == pair.1 as int / (pow2((8 - pair.0) as nat) as int),
{
    let step = pow2((max_len - pair.0) as nat) as int;
    let code = pair.1 as int / pow2((8 - pair.0) as nat) as int;
    lemma_pow2_pos((max_len - pair.0) as nat);
    let first = code * step;
    assert(first <= window < first + step <==> window / step == code) by (nonlinear_arith)
        requires
            step > 0,
            first == code * step,
    ;
}

/// A "category" Huffman table, built from the file's byte pairs. The
/// symbol is the pair's index; the code is the top bits of the code byte.
/// Decoding is a single flat lookup on the longest code length.
pub struct Huff {
    pub max_len: u32,
    /// One entry of `(symbol, code length)` per window; a length of zero
    /// marks a window no code begins.
    pub table: Vec<(u8, u8)>,
}

impl Huff {
    /// One entry per window, symbols of at most sixteen bits.
    pub open spec fn well_formed(&self) -> bool {
        &&& 1 <= self.max_len <= 8
        &&& self.table@.len() == pow2(self.max_len as nat)
        &&& forall|w: int|
            0 <= w < self.table@.len() ==> (#[trigger] self.table@[w]).0 <= 16 && self.table@[w].1
                <= 8
    }

    /// The table of the codes `pairs`.
    pub open spec fn is_for(&self, pairs: Seq<(u8, u8)>) -> bool {
        &&& self.max_len == longest(pairs, pairs.len())
        &&& self.table@ == code_table(pairs)
    }

    /// `pairs[k] = (code length, code byte)` of symbol `k`.
    pub fn build(pairs: &[(u8, u8)]) -> (r: Result<Huff>)
        ensures
            match r {
                Ok(huff) => code_fault(pairs@) is None && huff.is_for(pairs@)
                    && huff.well_formed(),
                Err(e) => code_fault(pairs@) == Some(e@),
            },
    {
        let mut max_len: u32 = 0;
        let mut unused: bool = false;
        let mut i: usize = 0;
        while i < pairs.len()
            invariant
                i <= pairs@.len(),
                max_len == longest(pairs@, i as nat),
                unused == exists|k: int| 0 <= k < i && (#[trigger] pairs@[k]).0 == 0,
                forall|k: int| 0 <= k < i ==> (#[trigger] pairs@[k]).0 <= max_len,
            decreases pairs@.len() - i,
        {
            let length: u32 = pairs[i].0 as u32;
            if length > max_len {
                max_len = length;
            }
            if length == 0 {
                assert(pairs@[i as int].0 == 0);
                unused = true;
            }
            i = i + 1;
        }
        if max_len == 0 || max_len > 8 || unused {
            let mut text = "X3F Huffman code length ".to_string();
            push_decimal(&mut text, max_len as u64);
            text.append(" out of range");
            return Err(Error::Corrupt(text));
        }
        if pairs.len() > 17 {
            let mut text = "X3F Huffman table of ".to_string();
            push_decimal(&mut text, pairs.len() as u64);
            text.append(" symbols; a difference has at most 16 bits");
            return Err(Error::Corrupt(text));
        }
        let ghost m = max_len as nat;
        let size: usize = power_of_two(max_len) as usize;
        let mut table: Vec<(u8, u8)> = Vec::new();
        while table.len() < size
            invariant
                table@.len() <= size,
                forall|w: int| 0 <= w < table@.len() ==> #[trigger] table@[w] == (0u8, 0u8),
            decreases size - table@.len(),
        {
            table.push((0, 0));
        }
        let mut symbol: usize = 0;
        while symbol < pairs.len()
            invariant
                symbol <= pairs@.len() <= 17,
                1 <= max_len <= 8,
                m == max_len,
                max_len == longest(pairs@, pairs@.len()),
                forall|k: int| 0 <= k < pairs@.len() ==> 1 <= (#[trigger] pairs@[k]).0 <= max_len,
                table@.len() == size,
                size == pow2(m),
                prefix_free(pairs@, m, symbol as nat),
                forall|w: int|
                    0 <= w < size ==> #[trigger] table@[w] == window_symbol(
                        pairs@,
                        m,
                        symbol as nat,
                        w,
                    ),
                pairs@.len() <= 17,
                !(exists|k: int| 0 <= k < pairs@.len() && (#[trigger] pairs@[k]).0 == 0),
            decreases pairs@.len() - symbol,
        {
            let (length, code_byte) = pairs[symbol];
            let ghost pair = pairs@[symbol as int];
            proof {
                lemma_window_room(pair, m);
                lemma_pow2_pos((8 - length) as nat);
            }
            let code: u32 = code_byte as u32 / power_of_two(8 - length as u32);
            let step: u32 = power_of_two(max_len - length as u32);
            let base: usize = (code * step) as usize;
            let end: usize = base + step as usize;
            let mut w: usize = base;
            while w < end
                invariant
                    symbol < pairs@.len() <= 17,
                    pair == pairs@[symbol as int],
                    pair.0 == length,
                    1 <= length <= max_len <= 8,
                    m == max_len,
                    max_len == longest(pairs@, pairs@.len()),
                    base <= w <= end <= size,
                    table@.len() == size,
                    size == pow2(m),
                    base == first_window(pair, m),
                    end == base + pow2((m - length) as nat),
                    prefix_free(pairs@, m, symbol as nat),
                    forall|v: int|
                        0 <= v < size && !(base <= v < w) ==> #[trigger] table@[v]
                            == window_symbol(pairs@, m, symbol as nat, v),
                    forall|v: int|
                        base <= v < w ==> #[trigger] table@[v] == (symbol as u8, length)
                            && window_symbol(pairs@, m, symbol as nat, v).1 == 0,
                    forall|k: int|
                        0 <= k < pairs@.len() ==> 1 <= (#[trigger] pairs@[k]).0 <= max_len,
                    !(exists|k: int| 0 <= k < pairs@.len() && (#[trigger] pairs@[k]).0 == 0),
                decreases end - w,
            {
                if table[w].1 != 0 {
                    proof {
                        lemma_window_taken(pairs@, m, symbol as nat, w as int);
                        let j = choose|j: int|
                            0 <= j < symbol && begins_with(#[trigger] pairs@[j], m, w as int);
                        assert(begins_with(pairs@[symbol as int], m, w as int));
                        assert(!prefix_free(pairs@, m, pairs@.len()));
                    }
                    return Err(corrupt("X3F Huffman codes are not prefix-free"));
                }
                table.set(w, (symbol as u8, length));
                w = w + 1;
            }
            proof {
                assert forall|j: int, k: int, v: int|
                    0 <= j < k < symbol + 1 && #[trigger] begins_with(
                        pairs@[j],
                        m,
                        v,
                    ) implies !#[trigger] begins_with(pairs@[k], m, v) by {
                    if k == symbol && begins_with(pairs@[k], m, v) {
                        lemma_window_room(pairs@[j], m);
                        lemma_window_untaken(pairs@, m, symbol as nat, v, j);
                        assert(table@[v] == (symbol as u8, length));
                        assert(false);
                    }
                }
            }
            symbol = symbol + 1;
        }
        proof {
            assert forall|w: int| 0 <= w < table@.len() implies (#[trigger] table@[w]).0 <= 16
                && table@[w].1 <= 8 by {
                lemma_window_range(pairs@, m, pairs@.len(), w);
            }
        }
        assert(table@ =~= code_table(pairs@));
        Ok(Huff { max_len, table })
    }

    /// The next symbol, or `None` on a bit pattern no code begins.
    pub fn decode(&self, pump: &mut BitPumpMsb) -> (r: Option<u32>)
        requires
            self.well_formed(),
        ensures
            final(pump).source() == old(pump).source(),
            match symbol_of(self.table@, self.max_len as nat, old(pump).rest()) {
                Some((symbol, length)) => r == Some(symbol as u32) && final(pump).rest() == after(
                    old(pump).rest(),
                    length as nat,
                ) && final(pump).consumed() == reached(
                    old(pump).consumed(),
                    length as int,
                    old(pump).source(),
                ) && symbol <= 16,
                None => r is None && *final(pump) == *old(pump),
            },
    {
        let window: u32 = pump.peek(self.max_len);
        let (symbol, length) = self.table[window as usize];
        if length == 0 {
            return None;
        }
        pump.consume(length as u32);
        Some(symbol as u32)
    }
}

/// The symbol a stream begins with under a table, and its code's length.
pub open spec fn symbol_of(table: Seq<(u8, u8)>, max_len: nat, rest: Seq<bool>) -> Option<
    (int, int),
> {
    let entry = table[word(rest, max_len) as int];
    if entry.1 == 0 {
        None
    } else {
        Some((entry.0 as int, entry.1 as int))
    }
}

proof fn lemma_window_room(pair: (u8, u8), m: nat)
    requires
        1 <= pair.0 <= m <= 8,
    ensures
        0 <= first_window(pair, m),
        first_window(pair, m) + pow2((m - pair.0) as nat) <= pow2(m),
        pow2(m) <= 256,
{
    let l = pair.0 as nat;
    let d = pow2((8 - l) as nat) as int;
    let s = pow2((m - l) as nat) as int;
    lemma_pow2_pos((8 - l) as nat);
    lemma_pow2_pos((m - l) as nat);
    lemma_pow2_adds(l, (8 - l) as nat);
    lemma_pow2_adds(l, (m - l) as nat);
    lemma2_to64();
    let code = pair.1 as int / d;
    assert(0 <= code && code < pow2(l)) by (nonlinear_arith)
        requires
            code == pair.1 as int / d,
            d > 0,
            pow2(l) * d == 256,
            pair.1 < 256,
    ;
    assert(0 <= code * s) by (nonlinear_arith)
        requires
            0 <= code,
            0 < s,
    ;
    assert(code * s + s <= pow2(l) * s) by (nonlinear_arith)
        requires
            code + 1 <= pow2(l),
            0 < s,
    ;
    vstd::arithmetic::power2::lemma_pow2_strictly_increases(m, 9);
    assert(pow2(m) <= 256) by {
        if m < 8 {
            vstd::arithmetic::power2::lemma_pow2_strictly_increases(m, 8);
        }
    }
}

proof fn lemma_window_taken(pairs: Seq<(u8, u8)>, m: nat, n: nat, w: int)
    requires
        window_symbol(pairs, m, n, w).1 != 0,
    ensures
        exists|j: int| 0 <= j < n && begins_with(#[trigger] pairs[j], m, w),
    decreases n,
{
    if n > 0 && !begins_with(pairs[n - 1], m, w) {
        lemma_window_taken(pairs, m, (n - 1) as nat, w);
    } else if n > 0 {
        assert(begins_with(pairs[n - 1], m, w));
    }
}

proof fn lemma_window_untaken(pairs: Seq<(u8, u8)>, m: nat, n: nat, w: int, j: int)
    requires
        0 <= j < n <= pairs.len(),
        begins_with(pairs[j], m, w),
        forall|k: int| 0 <= k < n ==> (#[trigger] pairs[k]).0 != 0,
    ensures
        window_symbol(pairs, m, n, w).1 != 0,
    decreases n,
{
    if !begins_with(pairs[n - 1], m, w) {
        lemma_window_untaken(pairs, m, (n - 1) as nat, w, j);
    }
}

proof fn lemma_window_range(pairs: Seq<(u8, u8)>, m: nat, n: nat, w: int)
    requires
        n <= pairs.len(),
        n <= 17,
        forall|k: int| 0 <= k < pairs.len() ==> (#[trigger] pairs[k]).0 <= 8,
    ensures
        window_symbol(pairs, m, n, w).0 <= 16,
        window_symbol(pairs, m, n, w).1 <= 8,
    decreases n,
{
    if n > 0 {
        lemma_window_range(pairs, m, (n - 1) as nat, w);
    }
}

/// The size of a difference's magnitude, at most sixteen bits.
pub open spec fn magnitude(k: int) -> nat {
    if k <= 16 {
        k as nat
    } else {
        16
    }
}

/// One signed difference of `k` magnitude bits under the leading-bit sign
/// rule. Sizes above sixteen are taken as sixteen.
pub fn difference(pump: &mut BitPumpMsb, k: u32) -> (diff: i32)
    ensures
        diff == category_value(
            word(old(pump).rest(), magnitude(k as int)) as int,
            magnitude(k as int),
        ),
        final(pump).rest() == after(old(pump).rest(), magnitude(k as int)),
        final(pump).source() == old(pump).source(),
        final(pump).consumed() == reached(
            old(pump).consumed(),
            magnitude(k as int) as int,
            old(pump).source(),
        ),
        -0x1_0000 < diff < 0x1_0000,
{
    let bits: u32 = if k <= 16 {
        k
    } else {
        16
    };
    let value: u32 = pump.get(bits);
    from_category(value, bits)
}

/// Where the decoder of a layer stands.
pub struct LayerRun {
    pub plane: Seq<u16>,
    pub parity: ParityModel,
    pub rest: Seq<bool>,
}

/// The decoder of a layer after its first `n` pixels, row by row; `None`
/// when one of them begins with no code.
pub open spec fn layer_pixels(
    stream: Seq<u8>,
    table: Seq<(u8, u8)>,
    max_len: nat,
    seed: u16,
    cols: int,
    n: nat,
) -> Option<LayerRun>
    decreases n,
{
    if n == 0 {
        Some(
            LayerRun {
                plane: Seq::empty(),
                parity: ParityModel::seeded(seed),
                rest: msb_bits(stream),
            },
        )
    } else {
        match layer_pixels(stream, table, max_len, seed, cols, (n - 1) as nat) {
            None => None,
            Some(run) => match symbol_of(table, max_len, run.rest) {
                None => None,
                Some((symbol, length)) => {
                    let (row, col) = ((n - 1) / cols, (n - 1) % cols);
                    let rest = after(run.rest, length as nat);
                    let diff = category_value(word(rest, symbol as nat) as int, symbol as nat);
                    Some(
                        LayerRun {
                            plane: run.plane.push(run.parity.sample(row, col, diff)),
                            parity: run.parity.after(row, col, diff),
                            rest: after(rest, symbol as nat),
                        },
                    )
                },
            },
        }
    }
}

/// A layer's own grid of samples.
pub open spec fn layer(
    stream: Seq<u8>,
    table: Seq<(u8, u8)>,
    max_len: nat,
    seed: u16,
    cols: usize,
    rows: usize,
) -> Outcome<Seq<u16>> {
    match frame_samples_spec(cols, rows, 1) {
        Err(e) => Err(e),
        Ok(n) => match layer_pixels(stream, table, max_len, seed, cols as int, n as nat) {
            None => Err(Fault::Corrupt("X3F TRUE bitstream: no code matched"@)),
            Some(run) => Ok(run.plane),
        },
    }
}

proof fn lemma_layer_ends(
    stream: Seq<u8>,
    table: Seq<(u8, u8)>,
    max_len: nat,
    seed: u16,
    cols: int,
    a: nat,
    b: nat,
)
    requires
        a <= b,
        layer_pixels(stream, table, max_len, seed, cols, a) is None,
    ensures
        layer_pixels(stream, table, max_len, seed, cols, b) is None,
    decreases b - a,
{
    if a < b {
        lemma_layer_ends(stream, table, max_len, seed, cols, a, (b - 1) as nat);
    }
}

/// Decodes one layer's bitstream into its own grid. The bit reader
/// zero-fills past the end, so a truncated stream fails to find a code
/// rather than reading out of bounds.
pub fn decode_layer(slice: &[u8], huff: &Huff, seed: u16, cols: usize, rows: usize) -> (r: Result<
    Vec<u16>,
>)
    requires
        huff.well_formed(),
    ensures
        deep_outcome(r) == layer(
            slice@,
            huff.table@,
            huff.max_len as nat,
            seed,
            cols,
            rows,
        ),
        r matches Ok(plane) ==> plane@.len() == cols * rows,
{
    let total: usize = match frame_samples(cols, rows, 1) {
        Ok(n) => n,
        Err(e) => return Err(e),
    };
    let ghost (w, h, m) = (cols as int, rows as int, huff.max_len as nat);
    let mut out: Vec<u16> = Vec::new();
    let mut pump = BitPumpMsb::new(slice);
    let mut parity = Parity::new(seed);
    let mut row: usize = 0;
    proof {
        assert(w * h * 1 == w * h) by (nonlinear_arith);
        assert(0 * w == 0);
    }
    while row < rows
        invariant
            huff.well_formed(),
            w == cols,
            h == rows,
            m == huff.max_len,
            total == w * h,
            frame_samples_spec(cols, rows, 1) == Outcome::<usize>::Ok(total),
            row <= rows,
            out@.len() == row * w,
            layer_pixels(slice@, huff.table@, m, seed, w, out@.len()) == Some(
                LayerRun { plane: out@, parity: parity@, rest: pump.rest() },
            ),
        decreases rows - row,
    {
        let mut col: usize = 0;
        while col < cols
            invariant
                huff.well_formed(),
                w == cols,
                h == rows,
                m == huff.max_len,
                total == w * h,
                frame_samples_spec(cols, rows, 1) == Outcome::<usize>::Ok(total),
                row < rows,
                col <= cols,
                out@.len() == row * w + col,
                layer_pixels(slice@, huff.table@, m, seed, w, out@.len()) == Some(
                    LayerRun { plane: out@, parity: parity@, rest: pump.rest() },
                ),
            decreases cols - col,
        {
            proof {
                lemma_place_inverse(w, row as int, col as int);
                lemma_place(w, h, row as int, col as int);
            }
            let k: u32 = match huff.decode(&mut pump) {
                Some(k) => k,
                None => {
                    proof {
                        lemma_layer_ends(
                            slice@,
                            huff.table@,
                            m,
                            seed,
                            w,
                            out@.len() + 1,
                            total as nat,
                        );
                    }
                    return Err(corrupt("X3F TRUE bitstream: no code matched"));
                },
            };
            let diff: i32 = difference(&mut pump, k);
            out.push(parity.step(row, col, diff));
            col = col + 1;
        }
        proof {
            assert((row + 1) * w == row * w + w) by (nonlinear_arith);
        }
        row = row + 1;
    }
    proof {
        assert(row * w == w * h) by (nonlinear_arith)
            requires
                row == h,
        ;
    }
    Ok(out)
}

// --- Writing a layer ----------------------------------------------

/// The difference that pixel `n` of a plane is written as.
pub open spec fn layer_difference(plane: Seq<u16>, cols: int, seed: u16, n: int) -> int {
    plane[n] - continued(plane, cols, seed, n / cols, n % cols)
}

/// A plane from pixel `n` on, and then `tail`: of each pixel the top bits
/// of the code byte of its difference's size, and then the difference.
pub open spec fn written_layer(
    plane: Seq<u16>,
    cols: int,
    seed: u16,
    pairs: Seq<(u8, u8)>,
    n: nat,
    tail: Seq<bool>,
) -> Seq<bool>
    decreases plane.len() - n,
{
    if n >= plane.len() {
        tail
    } else {
        let diff = layer_difference(plane, cols, seed, n as int);
        let pair = pairs[category_of(diff) as int];
        bits_of(pair.1 as int, 8).take(pair.0 as int) + (bits_of(
            category_code(diff),
            category_of(diff),
        ) + written_layer(plane, cols, seed, pairs, n + 1, tail))
    }
}

proof fn lemma_longest(pairs: Seq<(u8, u8)>, n: nat, k: int)
    requires
        0 <= k < n <= pairs.len(),
    ensures
        pairs[k].0 <= longest(pairs, n),
    decreases n,
{
    if k < n - 1 {
        lemma_longest(pairs, (n - 1) as nat, k);
    }
}

proof fn lemma_code_is_read(pairs: Seq<(u8, u8)>, k: int, tail: Seq<bool>)
    requires
        code_fault(pairs) is None,
        0 <= k < pairs.len(),
    ensures
        ({
            let rest = bits_of(pairs[k].1 as int, 8).take(pairs[k].0 as int) + tail;
            &&& symbol_of(code_table(pairs), longest(pairs, pairs.len()), rest) == Some(
                (k, pairs[k].0 as int),
            )
            &&& after(rest, pairs[k].0 as nat) == tail
            &&& pairs.len() <= 17
        }),
{
    let m = longest(pairs, pairs.len());
    let l = pairs[k].0 as nat;
    lemma_longest(pairs, pairs.len(), k);
    lemma_top_bits(pairs[k].1 as int, l, (8 - l) as nat);
    let code = pairs[k].1 as int / pow2((8 - l) as nat) as int;
    lemma_window_room(pairs[k], m);
    lemma_pow2_adds(l, (8 - l) as nat);
    lemma2_to64();
    lemma_pow2_pos((8 - l) as nat);
    assert(0 <= code < pow2(l)) by (nonlinear_arith)
        requires
            code == pairs[k].1 as int / pow2((8 - l) as nat) as int,
            pow2((8 - l) as nat) > 0,
            pow2(l) * pow2((8 - l) as nat) == 256,
            0 <= pairs[k].1 < 256,
    ;
    lemma_window(code, l, m, tail);
    law_numbers_are_read_back(code, l, tail);
    let w = word(bits_of(code, l) + tail, m) as int;
    lemma_word_bound(bits_of(code, l) + tail, m);
    law_codes_decode_to_their_symbols(pairs, k, w);
}

proof fn lemma_layer_is_read(
    plane: Seq<u16>,
    cols: int,
    seed: u16,
    pairs: Seq<(u8, u8)>,
    stream: Seq<u8>,
    tail: Seq<bool>,
    n: nat,
)
    requires
        0 < cols,
        code_fault(pairs) is None,
        n <= plane.len(),
        forall|i: int|
            0 <= i < plane.len() ==> category_of(#[trigger] layer_difference(plane, cols, seed, i))
                < pairs.len(),
        msb_bits(stream) == written_layer(plane, cols, seed, pairs, 0, tail),
    ensures
        layer_pixels(stream, code_table(pairs), longest(pairs, pairs.len()), seed, cols, n) matches
            Some(run) && run.plane == plane.take(n as int) && run.parity.has_seen(
            plane,
            cols,
            seed,
            n as int / cols,
            n as int % cols,
        ) && run.rest == written_layer(plane, cols, seed, pairs, n, tail),
    decreases n,
{
    if n == 0 {
        ParityModel::lemma_seeded(plane, cols, seed);
        assert(plane.take(0) =~= Seq::empty());
        assert(0int / cols == 0 && 0int % cols == 0) by (nonlinear_arith)
            requires
                0 < cols,
        ;
    } else {
        let m = (n - 1) as nat;
        lemma_layer_is_read(plane, cols, seed, pairs, stream, tail, m);
        let run = layer_pixels(
            stream,
            code_table(pairs),
            longest(pairs, pairs.len()),
            seed,
            cols,
            m,
        )->0;
        let diff = layer_difference(plane, cols, seed, m as int);
        let k = category_of(diff);
        let more = written_layer(plane, cols, seed, pairs, n, tail);
        let (row, col) = (m as int / cols, m as int % cols);
        lemma_code_is_read(pairs, k as int, bits_of(category_code(diff), k) + more);
        law_categories_are_read_back(diff);
        law_numbers_are_read_back(category_code(diff), k, more);
        vstd::arithmetic::div_mod::lemma_fundamental_div_mod(m as int, cols);
        assert(row >= 0 && 0 <= col < cols) by (nonlinear_arith)
            requires
                row == m as int / cols,
                col == m as int % cols,
                0 < cols,
                0 <= m,
        ;
        assert(cols * row == row * cols) by (nonlinear_arith);
        assert(row * cols + col == m);
        run.parity.lemma_step(plane, cols, seed, row, col, diff);
        assert(plane.take(n as int) =~= plane.take(m as int).push(plane[m as int]));
        if col + 1 < cols {
            lemma_place_inverse(cols, row, col + 1);
        } else {
            lemma_place_inverse(cols, row + 1, 0);
            assert((row + 1) * cols == row * cols + cols) by (nonlinear_arith);
        }
    }
}

/// A decoded layer undoes its writing: under any table of codes that reaches
/// the plane's differences, each pixel being written as its difference from
/// the one two to its left, or in the first two columns from the one two
/// rows above, or there in the first two rows from the seed.
pub proof fn law_a_layer_undoes_its_writing(
    plane: Seq<u16>,
    cols: usize,
    rows: usize,
    seed: u16,
    pairs: Seq<(u8, u8)>,
    stream: Seq<u8>,
    tail: Seq<bool>,
)
    requires
        0 < cols,
        plane.len() == cols * rows,
        frame_samples_spec(cols, rows, 1) is Ok,
        code_fault(pairs) is None,
        forall|i: int|
            0 <= i < plane.len() ==> category_of(
                #[trigger] layer_difference(plane, cols as int, seed, i),
            ) < pairs.len(),
        msb_bits(stream) == written_layer(plane, cols as int, seed, pairs, 0, tail),
    ensures
        layer(stream, code_table(pairs), longest(pairs, pairs.len()), seed, cols, rows)
            == Outcome::<Seq<u16>>::Ok(plane),
{
    lemma_layer_is_read(plane, cols as int, seed, pairs, stream, tail, plane.len());
    assert(plane.take(plane.len() as int) =~= plane);
    assert(cols * rows * 1 == cols * rows) by (nonlinear_arith);
}

// --- The section header -------------------------------------------

/// An image section's header, and where its data starts.
#[derive(Debug, Clone, Copy)]
pub struct Image {
    /// 1 for the sensor's own data, 2 for a processed picture.
    pub kind: u32,
    /// How the data is coded.
    pub format: u32,
    pub columns: usize,
    pub rows: usize,
    pub data: usize,
    pub length: usize,
}

/// The parsed section header and the layer bitstreams.
pub struct TrueSection<'a> {
    pub seeds: [u16; 3],
    pub huff: Huff,
    /// Each layer's own decode grid (columns, rows).
    pub grids: [(usize, usize); 3],
    /// The three layer bitstreams, each from its 16-byte-aligned start.
    pub streams: [&'a [u8]; 3],
    /// The declared compressed byte size of each layer.
    pub sizes: [usize; 3],
    /// Whether the two lower layers are quarter-resolution.
    pub quattro: bool,
}

/// A [`TrueSection`] as a mathematical value.
pub struct TrueModel {
    pub seeds: Seq<u16>,
    pub pairs: Seq<(u8, u8)>,
    pub grids: Seq<(usize, usize)>,
    pub streams: Seq<Seq<u8>>,
    pub sizes: Seq<usize>,
    pub quattro: bool,
}

impl<'a> TrueSection<'a> {
    /// The section that `model` describes.
    pub open spec fn is_for(&self, model: TrueModel) -> bool {
        &&& self.seeds@ == model.seeds
        &&& self.huff.is_for(model.pairs)
        &&& self.grids@ == model.grids
        &&& model.streams == seq![self.streams[0]@, self.streams[1]@, self.streams[2]@]
        &&& self.sizes@ == model.sizes
        &&& self.quattro == model.quattro
    }
}

/// What is said of a header that ends too soon.
pub open spec fn header_truncated() -> Fault {
    Fault::Corrupt("X3F TRUE header truncated"@)
}

/// Where the bytes of a section end.
pub open spec fn section_end(bytes: Seq<u8>, raw: Image) -> int {
    if raw.data + raw.length <= bytes.len() {
        raw.data + raw.length
    } else {
        bytes.len() as int
    }
}

/// The grid stored at `at`.
pub open spec fn stored_grid(bytes: Seq<u8>, at: int) -> (usize, usize) {
    (le16(bytes, at) as usize, le16(bytes, at + 2) as usize)
}

/// A grid as debug text.
pub open spec fn grid_text(grid: (usize, usize)) -> Seq<char> {
    "("@ + decimal(grid.0 as int) + ", "@ + decimal(grid.1 as int) + ")"@
}

/// The plane table: the three grids, and whether they are the layout with
/// quarter-resolution lower layers. The table must describe *this* frame:
/// the two lower layers alike, the top layer the frame's height and its
/// width plus an overscan of at most a quarter.
pub open spec fn plane_table(bytes: Seq<u8>, at: int, cols: usize, rows: usize) -> Outcome<
    (Seq<(usize, usize)>, bool),
> {
    if !holds(bytes, at, 12) {
        Err(header_truncated())
    } else {
        let grids = seq![
            stored_grid(bytes, at),
            stored_grid(bytes, at + 4),
            stored_grid(bytes, at + 8),
        ];
        let quarter = grids[0] == (cols / 2, rows / 2);
        if !quarter && grids[0] != (cols, rows) {
            Err(
                Fault::Corrupt(
                    "X3F Quattro plane table: layer 0 is "@ + decimal(grids[0].0 as int) + "x"@
                        + decimal(grids[0].1 as int) + " for a "@ + decimal(cols as int) + "x"@
                        + decimal(rows as int) + " frame"@,
                ),
            )
        } else if grids[1] != grids[0] || grids[2].1 != rows || grids[2].0 < cols || grids[2].0
            > cols + cols / 4 {
            Err(
                Fault::Corrupt(
                    "X3F Quattro plane table ["@ + grid_text(grids[0]) + ", "@ + grid_text(grids[1])
                        + ", "@ + grid_text(grids[2]) + "] does not describe a "@ + decimal(
                        cols as int,
                    ) + "x"@ + decimal(rows as int) + " frame"@,
                ),
            )
        } else {
            Ok((grids, quarter))
        }
    }
}

/// The byte pairs from `at` up to the zero-length one, `n` being read
/// already, and where they end.
pub open spec fn pairs_from(bytes: Seq<u8>, at: int, n: nat) -> Outcome<(Seq<(u8, u8)>, int)>
    decreases bytes.len() - at,
{
    if !holds(bytes, at, 2) {
        Err(Fault::Corrupt("X3F Huffman table truncated"@))
    } else if bytes[at] == 0 {
        Ok((Seq::empty(), at + 2))
    } else if n >= 256 {
        Err(Fault::Corrupt("X3F Huffman table has no terminator"@))
    } else {
        match pairs_from(bytes, at + 2, n + 1) {
            Err(e) => Err(e),
            Ok((rest, end)) => Ok((seq![(bytes[at], bytes[at + 1])] + rest, end)),
        }
    }
}

/// `n` rounded up to a multiple of sixteen.
pub open spec fn round16(n: int) -> int {
    (n + 15) / 16 * 16
}

/// A layer's bytes, clamped to the section.
pub open spec fn layer_stream(bytes: Seq<u8>, start: int, size: int, limit: int) -> Seq<u8> {
    let end = if start + size <= limit {
        start + size
    } else {
        limit
    };
    if start <= end {
        bytes.subrange(start, end)
    } else {
        Seq::empty()
    }
}

/// What a section's header says, from the seeds on.
pub open spec fn true_body(
    bytes: Seq<u8>,
    raw: Image,
    at: int,
    quattro_format: bool,
    grids: Seq<(usize, usize)>,
    quattro: bool,
) -> Outcome<TrueModel> {
    if !holds(bytes, at, 8) {
        Err(header_truncated())
    } else {
        match pairs_from(bytes, at + 8, 0) {
            Err(e) => Err(e),
            Ok((pairs, end)) => match code_fault(pairs) {
                Some(fault) => Err(fault),
                None => {
                    let sizes_at = if quattro_format {
                        end + 4
                    } else {
                        end
                    };
                    if !holds(bytes, sizes_at, 12) {
                        Err(header_truncated())
                    } else {
                        let sizes = seq![
                            le32(bytes, sizes_at) as usize,
                            le32(bytes, sizes_at + 4) as usize,
                            le32(bytes, sizes_at + 8) as usize,
                        ];
                        let off = sizes_at + 12;
                        let declared = sizes[0] + sizes[1] + sizes[2];
                        let limit = section_end(bytes, raw);
                        let room = if off <= limit {
                            limit - off
                        } else {
                            0
                        };
                        if declared > usize::MAX {
                            Err(Fault::Corrupt("X3F layer sizes overflow"@))
                        } else if declared > room {
                            Err(
                                Fault::Corrupt(
                                    "X3F layers declare "@ + decimal(declared) + " bytes in a "@
                                        + decimal(room) + "-byte section"@,
                                ),
                            )
                        } else {
                            let second = off + round16(sizes[0] as int);
                            let third = second + round16(sizes[1] as int);
                            Ok(
                                TrueModel {
                                    seeds: seq![
                                        le16(bytes, at) as u16,
                                        le16(bytes, at + 2) as u16,
                                        le16(bytes, at + 4) as u16,
                                    ],
                                    pairs,
                                    grids,
                                    streams: seq![
                                        layer_stream(bytes, off, sizes[0] as int, limit),
                                        layer_stream(bytes, second, sizes[1] as int, limit),
                                        layer_stream(bytes, third, sizes[2] as int, limit),
                                    ],
                                    sizes,
                                    quattro,
                                },
                            )
                        }
                    }
                },
            },
        }
    }
}

/// What a section's header says: the optional plane table, the seeds, the
/// Huffman table, the layer sizes, and the layers they lead to.
pub open spec fn true_section(bytes: Seq<u8>, raw: Image, quattro_format: bool) -> Outcome<
    TrueModel,
> {
    let at = raw.data as int;
    if quattro_format {
        match plane_table(bytes, at, raw.columns, raw.rows) {
            Err(e) => Err(e),
            Ok((grids, quattro)) => true_body(bytes, raw, at + 12, true, grids, quattro),
        }
    } else {
        let whole = (raw.columns, raw.rows);
        true_body(bytes, raw, at, false, seq![whole, whole, whole], false)
    }
}

fn push_grid(text: &mut String, grid: (usize, usize))
    ensures
        final(text)@ == old(text)@ + grid_text(grid),
{
    text.append("(");
    push_decimal(text, grid.0 as u64);
    text.append(", ");
    push_decimal(text, grid.1 as u64);
    text.append(")");
    assert(text@ =~= old(text)@ + grid_text(grid));
}

fn read_plane_table(bytes: &[u8], at: usize, cols: usize, rows: usize) -> (r: Result<
    ([(usize, usize); 3], bool),
>)
    ensures
        match r {
            Ok(found) => plane_table(bytes@, at as int, cols, rows) == Outcome::<
                (Seq<(usize, usize)>, bool),
            >::Ok((found.0@, found.1)) && at + 12 <= bytes@.len(),
            Err(e) => plane_table(bytes@, at as int, cols, rows) == Outcome::<
                (Seq<(usize, usize)>, bool),
            >::Err(e@),
        },
{
    if !fits(bytes, at, 12) {
        return Err(corrupt("X3F TRUE header truncated"));
    }
    assert(bytes@.len() == bytes.len());
    let g0: (usize, usize) = (read_le16(bytes, at) as usize, read_le16(bytes, at + 2) as usize);
    let g1: (usize, usize) = (read_le16(bytes, at + 4) as usize, read_le16(bytes, at + 6) as usize);
    let g2: (usize, usize) = (
        read_le16(bytes, at + 8) as usize,
        read_le16(bytes, at + 10) as usize,
    );
    let quarter: bool = g0.0 == cols / 2 && g0.1 == rows / 2;
    if !quarter && !(g0.0 == cols && g0.1 == rows) {
        let mut text = "X3F Quattro plane table: layer 0 is ".to_string();
        push_decimal(&mut text, g0.0 as u64);
        text.append("x");
        push_decimal(&mut text, g0.1 as u64);
        text.append(" for a ");
        push_decimal(&mut text, cols as u64);
        text.append("x");
        push_decimal(&mut text, rows as u64);
        text.append(" frame");
        return Err(Error::Corrupt(text));
    }
    if g1.0 != g0.0 || g1.1 != g0.1 || g2.1 != rows || g2.0 < cols || g2.0 - cols > cols / 4 {
        let mut text = "X3F Quattro plane table [".to_string();
        push_grid(&mut text, g0);
        text.append(", ");
        push_grid(&mut text, g1);
        text.append(", ");
        push_grid(&mut text, g2);
        text.append("] does not describe a ");
        push_decimal(&mut text, cols as u64);
        text.append("x");
        push_decimal(&mut text, rows as u64);
        text.append(" frame");
        return Err(Error::Corrupt(text));
    }
    let grids: [(usize, usize); 3] = [g0, g1, g2];
    assert(grids@ =~= seq![
        stored_grid(bytes@, at as int),
        stored_grid(bytes@, at + 4),
        stored_grid(bytes@, at + 8),
    ]);
    Ok((grids, quarter))
}

fn read_pairs(bytes: &[u8], start: usize) -> (r: Result<(Vec<(u8, u8)>, usize)>)
    ensures
        match r {
            Ok(found) => pairs_from(bytes@, start as int, 0) == Outcome::<
                (Seq<(u8, u8)>, int),
            >::Ok((found.0@, found.1 as int)) && found.1 <= bytes@.len(),
            Err(e) => pairs_from(bytes@, start as int, 0) == Outcome::<
                (Seq<(u8, u8)>, int),
            >::Err(e@),
        },
{
    let mut pairs: Vec<(u8, u8)> = Vec::new();
    let mut at: usize = start;
    let ghost all = pairs_from(bytes@, start as int, 0);
    proof {
        if let Ok((rest, end)) = all {
            assert(Seq::<(u8, u8)>::empty() + rest =~= rest);
        }
    }
    loop
        invariant
            all == pairs_from(bytes@, start as int, 0),
            match pairs_from(bytes@, at as int, pairs@.len()) {
                Ok((rest, end)) => all == Outcome::<(Seq<(u8, u8)>, int)>::Ok(
                    (pairs@ + rest, end),
                ),
                Err(e) => all == Outcome::<(Seq<(u8, u8)>, int)>::Err(e),
            },
        decreases bytes@.len() - at,
    {
        if !fits(bytes, at, 2) {
            return Err(corrupt("X3F Huffman table truncated"));
        }
        assert(bytes@.len() == bytes.len());
        let length: u8 = bytes[at];
        let code: u8 = bytes[at + 1];
        if length == 0 {
            assert(pairs@ + Seq::<(u8, u8)>::empty() =~= pairs@);
            return Ok((pairs, at + 2));
        }
        if pairs.len() >= 256 {
            return Err(corrupt("X3F Huffman table has no terminator"));
        }
        let ghost before = pairs@;
        pairs.push((length, code));
        proof {
            if let Ok((rest, end)) = pairs_from(bytes@, at + 2, pairs@.len()) {
                assert(before + (seq![(length, code)] + rest) =~= pairs@ + rest);
            }
        }
        at = at + 2;
    }
}

fn cut_stream(bytes: &[u8], start: u128, size: usize, limit: usize) -> (stream: &[u8])
    requires
        limit <= bytes@.len(),
        start <= 0x2_0000_0000_0000_0000,
    ensures
        stream@ == layer_stream(bytes@, start as int, size as int, limit as int),
{
    let whole: u128 = start + size as u128;
    let end: usize = if whole <= limit as u128 {
        whole as usize
    } else {
        limit
    };
    let stream = if start <= end as u128 {
        slice_subrange(bytes, start as usize, end)
    } else {
        slice_subrange(bytes, 0, 0)
    };
    assert(stream@ =~= layer_stream(bytes@, start as int, size as int, limit as int));
    stream
}

fn rounded16(n: u32) -> (r: u128)
    ensures
        r == round16(n as int),
        r <= 0x1_0000_0010,
{
    (n as u128 + 15) / 16 * 16
}

fn read_body<'a>(
    bytes: &'a [u8],
    raw: &Image,
    at: usize,
    quattro_format: bool,
    grids: [(usize, usize); 3],
    quattro: bool,
) -> (r: Result<TrueSection<'a>>)
    ensures
        match r {
            Ok(section) => true_body(
                bytes@,
                *raw,
                at as int,
                quattro_format,
                grids@,
                quattro,
            ) is Ok && section.is_for(
                true_body(bytes@, *raw, at as int, quattro_format, grids@, quattro)->Ok_0,
            ) && section.huff.well_formed(),
            Err(e) => true_body(bytes@, *raw, at as int, quattro_format, grids@, quattro)
                == Outcome::<TrueModel>::Err(e@),
        },
{
    let limit: usize = match raw.data.checked_add(raw.length) {
        Some(end) if end <= bytes.len() => end,
        _ => bytes.len(),
    };
    let ghost body = true_body(bytes@, *raw, at as int, quattro_format, grids@, quattro);
    if !fits(bytes, at, 8) {
        return Err(corrupt("X3F TRUE header truncated"));
    }
    assert(bytes@.len() == bytes.len());
    let seeds: [u16; 3] = [
        read_le16(bytes, at),
        read_le16(bytes, at + 2),
        read_le16(bytes, at + 4),
    ];
    let (pairs, end) = match read_pairs(bytes, at + 8) {
        Ok(found) => found,
        Err(e) => return Err(e),
    };
    let huff = match Huff::build(pairs.as_slice()) {
        Ok(huff) => huff,
        Err(e) => return Err(e),
    };
    let reserved: usize = if quattro_format {
        4
    } else {
        0
    };
    if !fits(bytes, end, reserved + 12) {
        return Err(corrupt("X3F TRUE header truncated"));
    }
    let sizes_at: usize = end + reserved;
    let s0: u32 = read_le32(bytes, sizes_at);
    let s1: u32 = read_le32(bytes, sizes_at + 4);
    let s2: u32 = read_le32(bytes, sizes_at + 8);
    let sizes: [usize; 3] = [s0 as usize, s1 as usize, s2 as usize];
    let off: usize = sizes_at + 12;
    let declared: u64 = s0 as u64 + s1 as u64 + s2 as u64;
    if declared > usize::MAX as u64 {
        return Err(corrupt("X3F layer sizes overflow"));
    }
    let room: usize = if off <= limit {
        limit - off
    } else {
        0
    };
    if declared > room as u64 {
        let mut text = "X3F layers declare ".to_string();
        push_decimal(&mut text, declared);
        text.append(" bytes in a ");
        push_decimal(&mut text, room as u64);
        text.append("-byte section");
        return Err(Error::Corrupt(text));
    }
    let second: u128 = off as u128 + rounded16(s0);
    let third: u128 = second + rounded16(s1);
    let streams: [&'a [u8]; 3] = [
        cut_stream(bytes, off as u128, sizes[0], limit),
        cut_stream(bytes, second, sizes[1], limit),
        cut_stream(bytes, third, sizes[2], limit),
    ];
    let section = TrueSection { seeds, huff, grids, streams, sizes, quattro };
    proof {
        let model = body->Ok_0;
        assert(section.seeds@ =~= model.seeds);
        assert(section.sizes@ =~= model.sizes);
        assert(model.streams =~= seq![
            section.streams[0]@,
            section.streams[1]@,
            section.streams[2]@,
        ]);
    }
    Ok(section)
}

/// Parses everything between the image header and the layer bitstreams:
/// the optional plane table, the seeds, the per-file Huffman table, the
/// layer sizes, and the 16-byte-padded layers.
pub fn parse_true<'a>(bytes: &'a [u8], raw: &Image, quattro_format: bool) -> (r: Result<
    TrueSection<'a>,
>)
    ensures
        match r {
            Ok(section) => true_section(bytes@, *raw, quattro_format) is Ok && section.is_for(
                true_section(bytes@, *raw, quattro_format)->Ok_0,
            ) && section.huff.well_formed(),
            Err(e) => true_section(bytes@, *raw, quattro_format) == Outcome::<TrueModel>::Err(e@),
        },
{
    let whole: (usize, usize) = (raw.columns, raw.rows);
    let mut grids: [(usize, usize); 3] = [whole, whole, whole];
    let mut quattro: bool = false;
    let mut at: usize = raw.data;
    assert(grids@ =~= seq![whole, whole, whole]);
    if quattro_format {
        match read_plane_table(bytes, at, raw.columns, raw.rows) {
            Ok(found) => {
                grids = found.0;
                quattro = found.1;
            },
            Err(e) => return Err(e),
        }
        assert(bytes@.len() == bytes.len());
        at = at + 12;
    }
    read_body(bytes, raw, at, quattro_format, grids, quattro)
}

/// The samples of one layer of a section.
pub open spec fn section_layer(model: TrueModel, i: int) -> Outcome<Seq<u16>> {
    layer(
        model.streams[i],
        code_table(model.pairs),
        longest(model.pairs, model.pairs.len()),
        model.seeds[i],
        model.grids[i].0,
        model.grids[i].1,
    )
}

/// The first of a section's first `n` layers whose grid is not the frame's.
pub open spec fn grid_fault(model: TrueModel, cols: usize, rows: usize, n: nat) -> Option<Fault>
    decreases n,
{
    if n == 0 {
        None
    } else {
        match grid_fault(model, cols, rows, (n - 1) as nat) {
            Some(fault) => Some(fault),
            None => if model.grids[n - 1] != (cols, rows) {
                Some(
                    Fault::Corrupt(
                        "X3F layer "@ + decimal(n - 1) + " is "@ + decimal(
                            model.grids[n - 1].0 as int,
                        ) + "x"@ + decimal(model.grids[n - 1].1 as int) + " for a "@ + decimal(
                            cols as int,
                        ) + "x"@ + decimal(rows as int) + " frame"@,
                    ),
                )
            } else {
                None
            },
        }
    }
}

/// Sample `i` of the interleaved frame. With quarter-resolution lower
/// layers those land on the even rows and columns, zero elsewhere, and the
/// overscan of the top layer is dropped.
pub open spec fn frame_sample(model: TrueModel, planes: Seq<Seq<u16>>, cols: int, i: int) -> u16 {
    let channel = i % 3;
    let (row, col) = (i / 3 / cols, i / 3 % cols);
    let (across, down) = model.grids[channel];
    if model.quattro && channel < 2 {
        if row % 2 == 0 && col % 2 == 0 && row / 2 < down && col / 2 < across {
            planes[channel][place(across as int, row / 2, col / 2)]
        } else {
            0
        }
    } else {
        planes[channel][place(across as int, row, col)]
    }
}

/// The frame of a section whose layers decoded.
pub open spec fn interleaved(
    model: TrueModel,
    planes: Seq<Seq<u16>>,
    cols: usize,
    rows: usize,
) -> Outcome<Seq<u16>> {
    match if model.quattro {
        None
    } else {
        grid_fault(model, cols, rows, 3)
    } {
        Some(fault) => Err(fault),
        None => Ok(
            Seq::new(
                (3 * (cols * rows)) as nat,
                |i: int| frame_sample(model, planes, cols as int, i),
            ),
        ),
    }
}

/// Where the lower layers are of quarter resolution, a sample of theirs
/// lies on every second row and column, and there is nothing between them;
/// the top layer has a sample everywhere.
pub proof fn law_quarter_layers_lie_on_the_even_lattice(
    model: TrueModel,
    planes: Seq<Seq<u16>>,
    cols: usize,
    rows: usize,
    row: int,
    col: int,
    channel: int,
)
    requires
        model.quattro,
        0 <= row < rows,
        0 <= col < cols,
        0 <= channel < 3,
    ensures
        interleaved(model, planes, cols, rows) is Ok,
        ({
            let frame = interleaved(model, planes, cols, rows)->Ok_0;
            let (across, down) = model.grids[channel];
            let sample = frame[3 * place(cols as int, row, col) + channel];
            &&& frame.len() == 3 * (cols * rows)
            &&& channel == 2 ==> sample == planes[2][place(across as int, row, col)]
            &&& channel < 2 && (row % 2 == 1 || col % 2 == 1) ==> sample == 0
            &&& channel < 2 && row % 2 == 0 && col % 2 == 0 && row / 2 < down && col / 2 < across
                ==> sample == planes[channel][place(across as int, row / 2, col / 2)]
        }),
{
    lemma_place(cols as int, rows as int, row, col);
    lemma_place_inverse(cols as int, row, col);
    let at = place(cols as int, row, col);
    let i = 3 * at + channel;
    assert(i / 3 == at && i % 3 == channel);
}

/// Where every layer is as large as the frame, each pixel has a sample of
/// each; a layer of any other size is refused.
pub proof fn law_full_layers_are_interleaved(
    model: TrueModel,
    planes: Seq<Seq<u16>>,
    cols: usize,
    rows: usize,
    row: int,
    col: int,
    channel: int,
)
    requires
        !model.quattro,
        0 <= row < rows,
        0 <= col < cols,
        0 <= channel < 3,
    ensures
        interleaved(model, planes, cols, rows) is Ok <==> forall|k: int|
            0 <= k < 3 ==> #[trigger] model.grids[k] == (cols, rows),
        interleaved(model, planes, cols, rows) matches Ok(frame) ==> frame.len() == 3 * (cols
            * rows) && frame[3 * (row * cols + col) + channel] == planes[channel][row * cols + col],
{
    reveal_with_fuel(grid_fault, 4);
    assert(grid_fault(model, cols, rows, 3) is None <==> model.grids[0] == (cols, rows)
        && model.grids[1] == (cols, rows) && model.grids[2] == (cols, rows));
    lemma_place(cols as int, rows as int, row, col);
    lemma_place_inverse(cols as int, row, col);
    let at = row * cols + col;
    let i = 3 * at + channel;
    assert(i / 3 == at && i % 3 == channel);
}

proof fn lemma_body_parts(
    bytes: Seq<u8>,
    raw: Image,
    at: int,
    quattro_format: bool,
    grids: Seq<(usize, usize)>,
    quattro: bool,
    pairs: Seq<(u8, u8)>,
    skip: int,
)
    requires
        pairs_from(bytes, at + 8, 0) == Outcome::<(Seq<(u8, u8)>, int)>::Ok((pairs, skip)),
        true_body(bytes, raw, at, quattro_format, grids, quattro) is Ok,
    ensures
        ({
            let model = true_body(bytes, raw, at, quattro_format, grids, quattro)->Ok_0;
            let sizes_at = skip + if quattro_format {
                4int
            } else {
                0
            };
            let (a, b, c) = (
                le32(bytes, sizes_at),
                le32(bytes, sizes_at + 4),
                le32(bytes, sizes_at + 8),
            );
            let start = sizes_at + 12;
            let limit = section_end(bytes, raw);
            &&& model.pairs == pairs
            &&& model.seeds == seq![
                le16(bytes, at) as u16,
                le16(bytes, at + 2) as u16,
                le16(bytes, at + 4) as u16,
            ]
            &&& model.streams[0] == layer_stream(bytes, start, a, limit)
            &&& model.streams[1] == layer_stream(bytes, start + round16(a), b, limit)
            &&& model.streams[2] == layer_stream(bytes, start + round16(a) + round16(b), c, limit)
            &&& 0 < a + b + c ==> a + b + c <= limit - start
        }),
{
}

/// The seeds of a section lie where its header begins, two bytes each.
pub proof fn law_seeds_come_first(
    bytes: Seq<u8>,
    raw: Image,
    at: int,
    quattro_format: bool,
    grids: Seq<(usize, usize)>,
    quattro: bool,
    model: TrueModel,
    seeds: (u16, u16, u16),
)
    requires
        true_body(bytes, raw, at, quattro_format, grids, quattro) == Outcome::<TrueModel>::Ok(
            model,
        ),
        holds_number(bytes, at, seeds.0 as int, 2, true),
        holds_number(bytes, at + 2, seeds.1 as int, 2, true),
        holds_number(bytes, at + 4, seeds.2 as int, 2, true),
    ensures
        model.seeds == seq![seeds.0, seeds.1, seeds.2],
{
    let (pairs, skip) = pairs_from(bytes, at + 8, 0)->Ok_0;
    lemma_body_parts(bytes, raw, at, quattro_format, grids, quattro, pairs, skip);
    law_numbers_are_read_from_their_bytes(bytes, at, seeds.0 as int, true);
    law_numbers_are_read_from_their_bytes(bytes, at + 2, seeds.1 as int, true);
    law_numbers_are_read_from_their_bytes(bytes, at + 4, seeds.2 as int, true);
}

proof fn lemma_sizes(bytes: Seq<u8>, skip: int, a: int, b: int, c: int)
    requires
        0 <= a < 0x1_0000_0000,
        0 <= b < 0x1_0000_0000,
        0 <= c < 0x1_0000_0000,
        holds_number(bytes, skip, a, 4, true),
        holds_number(bytes, skip + 4, b, 4, true),
        holds_number(bytes, skip + 8, c, 4, true),
    ensures
        le32(bytes, skip) == a,
        le32(bytes, skip + 4) == b,
        le32(bytes, skip + 8) == c,
{
    law_numbers_are_read_from_their_bytes(bytes, skip, a, true);
    law_numbers_are_read_from_their_bytes(bytes, skip + 4, b, true);
    law_numbers_are_read_from_their_bytes(bytes, skip + 8, c, true);
}

proof fn lemma_padded(size: int)
    requires
        0 <= size,
    ensures
        round16(size) == padded(size),
        size <= padded(size),
{
}

proof fn lemma_layer_stream(bytes: Seq<u8>, start: int, size: int, limit: int)
    requires
        0 <= size,
        start + size <= limit,
    ensures
        layer_stream(bytes, start, size, limit) == bytes.subrange(start, start + size),
{
}

proof fn lemma_layers(
    bytes: Seq<u8>,
    streams: Seq<Seq<u8>>,
    start: int,
    limit: int,
    a: int,
    b: int,
    c: int,
)
    requires
        0 <= a,
        0 <= b,
        0 <= c,
        start + padded(a) + padded(b) + c <= limit,
        streams[0] == layer_stream(bytes, start, a, limit),
        streams[1] == layer_stream(bytes, start + round16(a), b, limit),
        streams[2] == layer_stream(bytes, start + round16(a) + round16(b), c, limit),
    ensures
        streams[0] == bytes.subrange(start, start + a),
        streams[1] == bytes.subrange(start + padded(a), start + padded(a) + b),
        streams[2] == bytes.subrange(
            start + padded(a) + padded(b),
            start + padded(a) + padded(b) + c,
        ),
{
    lemma_padded(a);
    lemma_padded(b);
    lemma_layer_stream(bytes, start, a, limit);
    lemma_layer_stream(bytes, start + padded(a), b, limit);
    lemma_layer_stream(bytes, start + padded(a) + padded(b), c, limit);
}

/// Where the layers of a section lie: their sizes follow the codes, past
/// four more bytes in the later formats, and the layers follow the sizes,
/// each of them from the next multiple of sixteen bytes on.
#[verifier::rlimit(30)]
pub proof fn law_layers_follow_their_sizes(
    bytes: Seq<u8>,
    raw: Image,
    at: int,
    quattro_format: bool,
    grids: Seq<(usize, usize)>,
    quattro: bool,
    model: TrueModel,
    skip: int,
    a: int,
    b: int,
    c: int,
)
    requires
        true_body(bytes, raw, at, quattro_format, grids, quattro) == Outcome::<TrueModel>::Ok(
            model,
        ),
        pairs_from(bytes, at + 8, 0) == Outcome::<(Seq<(u8, u8)>, int)>::Ok(
            (
                model.pairs,
                skip - if quattro_format {
                    4int
                } else {
                    0
                },
            ),
        ),
        0 <= a < 0x1_0000_0000,
        0 <= b < 0x1_0000_0000,
        0 <= c < 0x1_0000_0000,
        holds_number(bytes, skip, a, 4, true),
        holds_number(bytes, skip + 4, b, 4, true),
        holds_number(bytes, skip + 8, c, 4, true),
        skip + 12 + padded(a) + padded(b) + c <= section_end(bytes, raw),
    ensures
        ({
            let first = skip + 12;
            let second = first + padded(a);
            let third = second + padded(b);
            &&& model.streams[0] == bytes.subrange(first, first + a)
            &&& model.streams[1] == bytes.subrange(second, second + b)
            &&& model.streams[2] == bytes.subrange(third, third + c)
        }),
{
    let from = skip - if quattro_format {
        4int
    } else {
        0
    };
    lemma_body_parts(bytes, raw, at, quattro_format, grids, quattro, model.pairs, from);
    lemma_sizes(bytes, skip, a, b, c);
    lemma_layers(bytes, model.streams, skip + 12, section_end(bytes, raw), a, b, c);
}

/// The room that so many bytes take up to the next multiple of sixteen.
pub open spec fn padded(size: int) -> int {
    if size % 16 == 0 {
        size
    } else {
        size + 16 - size % 16
    }
}

/// The interleaved three-plane frame of a section.
pub open spec fn true_frame(bytes: Seq<u8>, raw: Image, quattro_format: bool) -> Outcome<Seq<u16>> {
    match true_section(bytes, raw, quattro_format) {
        Err(e) => Err(e),
        Ok(model) => match frame_samples_spec(raw.columns, raw.rows, 3) {
            Err(e) => Err(e),
            Ok(_) => match section_layer(model, 0) {
                Err(e) => Err(e),
                Ok(bottom) => match section_layer(model, 1) {
                    Err(e) => Err(e),
                    Ok(middle) => match section_layer(model, 2) {
                        Err(e) => Err(e),
                        Ok(top) => interleaved(
                            model,
                            seq![bottom, middle, top],
                            raw.columns,
                            raw.rows,
                        ),
                    },
                },
            },
        },
    }
}

/// What the plane table allows: every grid is the frame's own, or the
/// lower layers are half as wide and tall and the top one is as tall as
/// the frame and at least as wide.
proof fn lemma_section_grids(bytes: Seq<u8>, raw: Image, quattro_format: bool)
    requires
        true_section(bytes, raw, quattro_format) is Ok,
    ensures
        ({
            let model = true_section(bytes, raw, quattro_format)->Ok_0;
            &&& model.grids.len() == 3
            &&& model.streams.len() == 3
            &&& model.seeds.len() == 3
            &&& model.quattro ==> model.grids[2].0 >= raw.columns && model.grids[2].1 == raw.rows
        }),
{
    let at = raw.data as int;
    if quattro_format {
        let (grids, quattro) = plane_table(bytes, at, raw.columns, raw.rows)->Ok_0;
        lemma_plane_table(bytes, at, raw.columns, raw.rows);
        lemma_body_keeps_grids(bytes, raw, at + 12, true, grids, quattro);
    } else {
        let whole = (raw.columns, raw.rows);
        lemma_body_keeps_grids(bytes, raw, at, false, seq![whole, whole, whole], false);
    }
}

proof fn lemma_plane_table(bytes: Seq<u8>, at: int, cols: usize, rows: usize)
    ensures
        plane_table(bytes, at, cols, rows) matches Ok((grids, quattro)) ==> grids.len() == 3
            && grids[2].0 >= cols && grids[2].1 == rows,
{
}

proof fn lemma_body_keeps_grids(
    bytes: Seq<u8>,
    raw: Image,
    at: int,
    quattro_format: bool,
    grids: Seq<(usize, usize)>,
    quattro: bool,
)
    ensures
        true_body(bytes, raw, at, quattro_format, grids, quattro) matches Ok(model) ==> {
            &&& model.grids == grids
            &&& model.quattro == quattro
            &&& model.streams.len() == 3
            &&& model.seeds.len() == 3
        },
{
}

fn layer_of(section: &TrueSection, i: usize, Ghost(model): Ghost<TrueModel>) -> (r: Result<
    Vec<u16>,
>)
    requires
        i < 3,
        section.is_for(model),
        section.huff.well_formed(),
    ensures
        deep_outcome(r) == section_layer(model, i as int),
        r matches Ok(plane) ==> plane@.len() == model.grids[i as int].0 * model.grids[i as int].1,
{
    let (cols, rows) = section.grids[i];
    decode_layer(section.streams[i], &section.huff, section.seeds[i], cols, rows)
}

/// Decodes a section to the interleaved frame, three samples a pixel in
/// layer order from the bottom.
pub fn decode_true(bytes: &[u8], raw: &Image, quattro_format: bool) -> (r: Result<Vec<u16>>)
    ensures
        deep_outcome(r) == true_frame(bytes@, *raw, quattro_format),
{
    let (cols, rows) = (raw.columns, raw.rows);
    let section = match parse_true(bytes, raw, quattro_format) {
        Ok(section) => section,
        Err(e) => return Err(e),
    };
    let ghost model = true_section(bytes@, *raw, quattro_format)->Ok_0;
    if let Err(e) = frame_samples(cols, rows, 3) {
        return Err(e);
    }
    let bottom = match layer_of(&section, 0, Ghost(model)) {
        Ok(plane) => plane,
        Err(e) => return Err(e),
    };
    let middle = match layer_of(&section, 1, Ghost(model)) {
        Ok(plane) => plane,
        Err(e) => return Err(e),
    };
    let top = match layer_of(&section, 2, Ghost(model)) {
        Ok(plane) => plane,
        Err(e) => return Err(e),
    };
    if !section.quattro {
        let mut channel: usize = 0;
        while channel < 3
            invariant
                channel <= 3,
                section.is_for(model),
                model.grids.len() == 3,
                grid_fault(model, cols, rows, channel as nat) is None,
                !model.quattro,
                true_frame(bytes@, *raw, quattro_format) == interleaved(
                    model,
                    seq![bottom@, middle@, top@],
                    cols,
                    rows,
                ),
            decreases 3 - channel,
        {
            let (across, down) = section.grids[channel];
            if across != cols || down != rows {
                let mut text = "X3F layer ".to_string();
                push_decimal(&mut text, channel as u64);
                text.append(" is ");
                push_decimal(&mut text, across as u64);
                text.append("x");
                push_decimal(&mut text, down as u64);
                text.append(" for a ");
                push_decimal(&mut text, cols as u64);
                text.append("x");
                push_decimal(&mut text, rows as u64);
                text.append(" frame");
                proof {
                    lemma_grid_fault_stays(model, cols, rows, (channel + 1) as nat, 3);
                }
                return Err(Error::Corrupt(text));
            }
            channel = channel + 1;
        }
        proof {
            assert(model.grids[0] == (cols, rows)) by {
                lemma_no_grid_fault(model, cols, rows, 3);
            }
            assert(model.grids[1] == (cols, rows) && model.grids[2] == (cols, rows)) by {
                lemma_no_grid_fault(model, cols, rows, 3);
            }
        }
    }
    proof {
        lemma_section_grids(bytes@, *raw, quattro_format);
    }
    Ok(interleave(&section, &bottom, &middle, &top, cols, rows, Ghost(model)))
}

proof fn lemma_grid_fault_stays(model: TrueModel, cols: usize, rows: usize, a: nat, b: nat)
    requires
        a <= b,
        grid_fault(model, cols, rows, a) is Some,
    ensures
        grid_fault(model, cols, rows, b) == grid_fault(model, cols, rows, a),
    decreases b - a,
{
    if a < b {
        lemma_grid_fault_stays(model, cols, rows, a, (b - 1) as nat);
    }
}

proof fn lemma_no_grid_fault(model: TrueModel, cols: usize, rows: usize, n: nat)
    requires
        grid_fault(model, cols, rows, n) is None,
    ensures
        forall|i: int| 0 <= i < n ==> #[trigger] model.grids[i] == (cols, rows),
    decreases n,
{
    if n > 0 {
        lemma_no_grid_fault(model, cols, rows, (n - 1) as nat);
    }
}

fn lower_sample(plane: &Vec<u16>, grid: (usize, usize), quattro: bool, row: usize, col: usize) -> (
    value: u16)
    requires
        plane@.len() == grid.0 * grid.1,
        !quattro ==> row < grid.1 && col < grid.0,
    ensures
        value == if quattro {
            if row % 2 == 0 && col % 2 == 0 && row / 2 < grid.1 && col / 2 < grid.0 {
                plane@[place(grid.0 as int, (row / 2) as int, (col / 2) as int)]
            } else {
                0u16
            }
        } else {
            plane@[place(grid.0 as int, row as int, col as int)]
        },
{
    assert(plane@.len() == plane.len());
    if quattro {
        if row % 2 == 0 && col % 2 == 0 && row / 2 < grid.1 && col / 2 < grid.0 {
            proof {
                lemma_place(
                    grid.0 as int,
                    grid.1 as int,
                    (row / 2) as int,
                    (col / 2) as int,
                );
            }
            plane[(row / 2) * grid.0 + col / 2]
        } else {
            0
        }
    } else {
        proof {
            lemma_place(grid.0 as int, grid.1 as int, row as int, col as int);
        }
        plane[row * grid.0 + col]
    }
}

fn interleave(
    section: &TrueSection,
    bottom: &Vec<u16>,
    middle: &Vec<u16>,
    top: &Vec<u16>,
    cols: usize,
    rows: usize,
    Ghost(model): Ghost<TrueModel>,
) -> (out: Vec<u16>)
    requires
        section.is_for(model),
        model.grids.len() == 3,
        bottom@.len() == model.grids[0].0 * model.grids[0].1,
        middle@.len() == model.grids[1].0 * model.grids[1].1,
        top@.len() == model.grids[2].0 * model.grids[2].1,
        model.grids[2].0 >= cols,
        model.grids[2].1 >= rows,
        !model.quattro ==> model.grids[0] == (cols, rows) && model.grids[1] == (cols, rows),
    ensures
        out@ == Seq::new(
            (3 * (cols * rows)) as nat,
            |i: int|
                frame_sample(model, seq![bottom@, middle@, top@], cols as int, i),
        ),
{
    let ghost planes = seq![bottom@, middle@, top@];
    let ghost (w, h) = (cols as int, rows as int);
    let mut out: Vec<u16> = Vec::new();
    let mut row: usize = 0;
    while row < rows
        invariant
            section.is_for(model),
            model.grids.len() == 3,
            bottom@.len() == model.grids[0].0 * model.grids[0].1,
            middle@.len() == model.grids[1].0 * model.grids[1].1,
            top@.len() == model.grids[2].0 * model.grids[2].1,
            model.grids[2].0 >= cols,
            model.grids[2].1 >= rows,
            !model.quattro ==> model.grids[0] == (cols, rows) && model.grids[1] == (cols, rows),
            planes == seq![bottom@, middle@, top@],
            w == cols,
            h == rows,
            row <= rows,
            out@.len() == 3 * (row * w),
            forall|i: int|
                0 <= i < out@.len() ==> #[trigger] out@[i] == frame_sample(model, planes, w, i),
        decreases rows - row,
    {
        let mut col: usize = 0;
        while col < cols
            invariant
                section.is_for(model),
                model.grids.len() == 3,
                bottom@.len() == model.grids[0].0 * model.grids[0].1,
                middle@.len() == model.grids[1].0 * model.grids[1].1,
                top@.len() == model.grids[2].0 * model.grids[2].1,
                model.grids[2].0 >= cols,
                model.grids[2].1 >= rows,
                !model.quattro ==> model.grids[0] == (cols, rows) && model.grids[1] == (
                    cols,
                    rows,
                ),
                planes == seq![bottom@, middle@, top@],
                w == cols,
                h == rows,
                row < rows,
                col <= cols,
                out@.len() == 3 * (row * w + col),
                forall|i: int|
                    0 <= i < out@.len() ==> #[trigger] out@[i] == frame_sample(
                        model,
                        planes,
                        w,
                        i,
                    ),
            decreases cols - col,
        {
            proof {
                let p = row * w + col;
                lemma_place_inverse(w, row as int, col as int);
                assert((3 * p) / 3 == p && (3 * p) % 3 == 0);
                assert((3 * p + 1) / 3 == p && (3 * p + 1) % 3 == 1);
                assert((3 * p + 2) / 3 == p && (3 * p + 2) % 3 == 2);
            }
            let first: u16 = lower_sample(bottom, section.grids[0], section.quattro, row, col);
            let second: u16 = lower_sample(middle, section.grids[1], section.quattro, row, col);
            let third: u16 = lower_sample(top, section.grids[2], false, row, col);
            out.push(first);
            out.push(second);
            out.push(third);
            col = col + 1;
        }
        proof {
            assert((row + 1) * w == row * w + w) by (nonlinear_arith);
        }
        row = row + 1;
    }
    proof {
        assert(row * w == w * h) by (nonlinear_arith)
            requires
                row == h,
        ;
    }
    assert(out@ =~= Seq::new(
        (3 * (cols * rows)) as nat,
        |i: int| frame_sample(model, planes, cols as int, i),
    ));
    out
}

// --- The container ------------------------------------------------

/// One directory entry: where a section is and what it is.
#[derive(Debug, Clone, Copy, PartialEq, Eq)]
pub struct Section {
    pub offset: usize,
    pub length: usize,
    pub kind: [u8; 4],
}

/// A [`Section`] as a mathematical value.
pub struct SectionModel {
    pub offset: int,
    pub length: int,
    pub kind: Seq<u8>,
}

impl View for Section {
    type V = SectionModel;

    open spec fn view(&self) -> SectionModel {
        SectionModel {
            offset: self.offset as int,
            length: self.length as int,
            kind: self.kind@,
        }
    }
}

/// Sections as mathematical values.
pub open spec fn section_models(sections: Seq<Section>) -> Seq<SectionModel> {
    sections.map_values(|section: Section| section@)
}

/// Every section lies inside the file.
pub open spec fn sections_inside(bytes: Seq<u8>, sections: Seq<Section>) -> bool {
    forall|i: int|
        0 <= i < sections.len() ==> (#[trigger] sections[i]).offset + sections[i].length
            <= bytes.len()
}

/// The sections among the first `n` entries of the directory at `start`,
/// and whether every one of those entries was there to read. A section
/// reaching past the end of the file is not one.
pub open spec fn directory_entries(bytes: Seq<u8>, start: int, n: nat) -> (Seq<SectionModel>, bool)
    decreases n,
{
    if n == 0 {
        (Seq::empty(), true)
    } else {
        let (before, whole) = directory_entries(bytes, start, (n - 1) as nat);
        let at = start + 12 + (n - 1) * 12;
        if !whole || !holds(bytes, at, 12) {
            (before, false)
        } else {
            let offset = le32(bytes, at);
            let length = le32(bytes, at + 4);
            if offset + length > bytes.len() {
                (before, true)
            } else {
                (
                    before.push(
                        SectionModel { offset, length, kind: bytes.subrange(at + 8, at + 12) },
                    ),
                    true,
                )
            }
        }
    }
}

/// The sections of a directory are read back from its entries of twelve
/// bytes: where each lies, how long it is, and what it is.
pub proof fn law_directories_list_their_sections(
    bytes: Seq<u8>,
    start: int,
    sections: Seq<SectionModel>,
)
    requires
        0 <= start,
        start + 12 + 12 * sections.len() <= bytes.len(),
        forall|k: int|
            #![trigger sections[k]]
            0 <= k < sections.len() ==> {
                let at = start + 12 + 12 * k;
                &&& 0 <= sections[k].offset
                &&& 0 <= sections[k].length
                &&& sections[k].offset + sections[k].length <= bytes.len()
                &&& sections[k].offset < 0x1_0000_0000
                &&& sections[k].length < 0x1_0000_0000
                &&& holds_number(bytes, at, sections[k].offset, 4, true)
                &&& holds_number(bytes, at + 4, sections[k].length, 4, true)
                &&& bytes.subrange(at + 8, at + 12) == sections[k].kind
            },
    ensures
        directory_entries(bytes, start, sections.len()) == (sections, true),
    decreases sections.len(),
{
    if sections.len() == 0 {
        assert(sections =~= Seq::empty());
    } else {
        let before = sections.drop_last();
        let n = sections.len();
        assert forall|k: int| #![trigger before[k]] 0 <= k < before.len() implies before[k]
            == sections[k] by {}
        law_directories_list_their_sections(bytes, start, before);
        let last = sections[n - 1];
        let at = start + 12 + 12 * (n - 1);
        law_numbers_are_read_from_their_bytes(bytes, at, last.offset, true);
        law_numbers_are_read_from_their_bytes(bytes, at + 4, last.length, true);
        assert(start + 12 + (n - 1) * 12 == at);
        assert(before.push(last) =~= sections);
    }
}

/// The entries a directory claims, as many as the file could hold.
pub open spec fn directory_count(bytes: Seq<u8>, start: int) -> int {
    let stored = if holds(bytes, start + 8, 4) {
        le32(bytes, start + 8)
    } else {
        0
    };
    if stored <= bytes.len() / 12 {
        stored
    } else {
        bytes.len() as int / 12
    }
}

/// The file's sections, in directory order.
pub open spec fn directory_of(bytes: Seq<u8>) -> Outcome<Seq<SectionModel>> {
    if !tagged(bytes, 0, "FOVb"@) {
        Err(Fault::Corrupt("not an X3F: no FOVb signature"@))
    } else {
        let start = le32(bytes, bytes.len() - 4);
        if !tagged(bytes, start, "SECd"@) {
            Err(Fault::Corrupt("X3F directory pointer does not lead to a SECd"@))
        } else {
            let sections = directory_entries(
                bytes,
                start,
                directory_count(bytes, start) as nat,
            ).0;
            if sections.len() == 0 {
                Err(Fault::Corrupt("X3F directory holds no readable section"@))
            } else {
                Ok(sections)
            }
        }
    }
}

/// Reads the file's directory.
pub fn directory(bytes: &[u8]) -> (r: Result<Vec<Section>>)
    ensures
        match r {
            Ok(sections) => directory_of(bytes@) == Outcome::<Seq<SectionModel>>::Ok(
                section_models(sections@),
            ) && sections_inside(bytes@, sections@),
            Err(e) => directory_of(bytes@) == Outcome::<Seq<SectionModel>>::Err(e@),
        },
{
    if !has_tag(bytes, 0, "FOVb") {
        return Err(corrupt("not an X3F: no FOVb signature"));
    }
    proof {
        reveal_strlit("FOVb");
        reveal_strlit("SECd");
    }
    let start: usize = read_le32(bytes, bytes.len() - 4) as usize;
    if !has_tag(bytes, start, "SECd") {
        return Err(corrupt("X3F directory pointer does not lead to a SECd"));
    }
    let stored: u32 = if bytes.len() - start >= 12 {
        read_le32(bytes, start + 8)
    } else {
        0
    };
    let count: usize = if stored as usize <= bytes.len() / 12 {
        stored as usize
    } else {
        bytes.len() / 12
    };
    let mut sections: Vec<Section> = Vec::new();
    let mut i: usize = 0;
    let mut whole: bool = true;
    assert(section_models(sections@) =~= Seq::empty());
    while i < count
        invariant
            i <= count <= bytes@.len() / 12,
            start + 4 <= bytes@.len() <= usize::MAX,
            directory_entries(bytes@, start as int, i as nat) == (
                section_models(sections@),
                whole,
            ),
            sections_inside(bytes@, sections@),
        decreases count - i,
    {
        if whole {
            let left: usize = bytes.len() - start;
            if left < 12 || left - 12 < i * 12 || left - 12 - i * 12 < 12 {
                whole = false;
            } else {
                let at: usize = start + 12 + i * 12;
                let offset: usize = read_le32(bytes, at) as usize;
                let length: usize = read_le32(bytes, at + 4) as usize;
                if length <= bytes.len() && offset <= bytes.len() - length {
                    let kind: [u8; 4] = [
                        bytes[at + 8],
                        bytes[at + 9],
                        bytes[at + 10],
                        bytes[at + 11],
                    ];
                    assert(kind@ =~= bytes@.subrange(at + 8, at + 12));
                    let ghost before = section_models(sections@);
                    let section = Section { offset, length, kind };
                    sections.push(section);
                    assert(section_models(sections@) =~= before.push(section@));
                }
            }
        }
        i = i + 1;
    }
    if sections.len() == 0 {
        return Err(corrupt("X3F directory holds no readable section"));
    }
    Ok(sections)
}

/// Whether a section is an image.
pub open spec fn is_image(section: SectionModel) -> bool {
    tagged(section.kind, 0, "IMA2"@) || tagged(section.kind, 0, "IMAG"@)
}

/// An image section's header: magic, version, type, format, columns, rows
/// and row size, and then the data.
pub open spec fn image_of(bytes: Seq<u8>, section: SectionModel) -> Option<Image> {
    let at = section.offset;
    if !tagged(bytes, at, "SECi"@) || !holds(bytes, at, 24) || section.length < 28 {
        None
    } else {
        Some(
            Image {
                kind: le32(bytes, at + 8) as u32,
                format: le32(bytes, at + 12) as u32,
                columns: le32(bytes, at + 16) as usize,
                rows: le32(bytes, at + 20) as usize,
                data: (at + 28) as usize,
                length: (section.length - 28) as usize,
            },
        )
    }
}

/// An image section's header is read back from its bytes: its numbers least
/// significant byte first, and its data behind the twenty-eight of them.
pub proof fn law_image_headers_are_read_back(bytes: Seq<u8>, section: SectionModel, image: Image)
    requires
        0 <= section.offset,
        28 <= section.length,
        section.offset + section.length <= bytes.len() <= usize::MAX,
        bytes.subrange(section.offset, section.offset + 4) == seq![
            'S' as u8,
            'E' as u8,
            'C' as u8,
            'i' as u8,
        ],
        holds_number(bytes, section.offset + 8, image.kind as int, 4, true),
        holds_number(bytes, section.offset + 12, image.format as int, 4, true),
        holds_number(bytes, section.offset + 16, image.columns as int, 4, true),
        holds_number(bytes, section.offset + 20, image.rows as int, 4, true),
        image.columns < 0x1_0000_0000,
        image.rows < 0x1_0000_0000,
        image.data == section.offset + 28,
        image.data + image.length == section.offset + section.length,
    ensures
        image_of(bytes, section) == Some(image),
{
    let at = section.offset;
    reveal_strlit("SECi");
    let letters = bytes.subrange(at, at + 4);
    assert forall|i: int| 0 <= i < 4 implies #[trigger] "SECi"@[i] as u32
        == bytes[at + i] as u32 by {
        assert(letters[i] == bytes[at + i]);
    }
    assert(tagged(bytes, at, "SECi"@));
    law_numbers_are_read_from_their_bytes(bytes, at + 8, image.kind as int, true);
    law_numbers_are_read_from_their_bytes(bytes, at + 12, image.format as int, true);
    law_numbers_are_read_from_their_bytes(bytes, at + 16, image.columns as int, true);
    law_numbers_are_read_from_their_bytes(bytes, at + 20, image.rows as int, true);
}

/// Reads an image section's header.
pub fn image(bytes: &[u8], section: &Section) -> (r: Option<Image>)
    requires
        section.offset + section.length <= bytes@.len(),
    ensures
        r == image_of(bytes@, section@),
        r matches Some(image) ==> image.data + image.length <= bytes@.len(),
{
    assert(bytes@.len() == bytes.len());
    if !has_tag(bytes, section.offset, "SECi") || section.length < 28 {
        return None;
    }
    let at: usize = section.offset;
    Some(
        Image {
            kind: read_le32(bytes, at + 8),
            format: read_le32(bytes, at + 12),
            columns: read_le32(bytes, at + 16) as usize,
            rows: read_le32(bytes, at + 20) as usize,
            data: at + 28,
            length: section.length - 28,
        },
    )
}

fn is_image_section(section: &Section) -> (r: bool)
    ensures
        r == is_image(section@),
{
    let kind: [u8; 4] = section.kind;
    has_tag(kind.as_slice(), 0, "IMA2") || has_tag(kind.as_slice(), 0, "IMAG")
}

/// Whether the marker segments from `at` on reach a frame header that a
/// viewer could show before anything malformed, lossless or hierarchical.
pub open spec fn shows_from(stream: Seq<u8>, at: int) -> bool
    decreases stream.len() - at,
{
    if at < 0 || at + 4 > stream.len() || stream[at] != 0xFF {
        false
    } else {
        let marker = stream[at + 1];
        if marker == 0xFF {
            shows_from(stream, at + 1)
        } else if marker == 0x01 || 0xD0 <= marker <= 0xD8 {
            shows_from(stream, at + 2)
        } else if marker == 0xC0 || marker == 0xC1 || marker == 0xC2 || marker == 0xC9 || marker
            == 0xCA {
            true
        } else if marker == 0xC3 || 0xC5 <= marker <= 0xC7 || marker == 0xCB || 0xCD <= marker
            <= 0xCF || marker == 0xDA || marker == 0xD9 {
            false
        } else if be16(stream, at + 2) < 2 || at + 2 + be16(stream, at + 2) > stream.len() {
            false
        } else {
            shows_from(stream, at + 2 + be16(stream, at + 2))
        }
    }
}

/// Whether a stream is a JPEG a viewer could show.
pub open spec fn displayable(stream: Seq<u8>) -> bool {
    stream.len() >= 2 && stream[0] == 0xFF && stream[1] == 0xD8 && shows_from(stream, 2)
}

/// Whether a stream is a JPEG a viewer could show: a real frame header,
/// not a lossless or hierarchical one. Walks marker segments only, and
/// stops at the first frame or at anything malformed.
pub fn is_displayable_jpeg(stream: &[u8]) -> (r: bool)
    ensures
        r == displayable(stream@),
{
    if stream.len() < 2 || stream[0] != 0xFF || stream[1] != 0xD8 {
        return false;
    }
    let mut at: usize = 2;
    while fits(stream, at, 4)
        invariant
            displayable(stream@) == shows_from(stream@, at as int),
        decreases stream@.len() - at,
    {
        assert(stream@.len() == stream.len());
        if stream[at] != 0xFF {
            return false;
        }
        let marker: u8 = stream[at + 1];
        if marker == 0xFF {
            at = at + 1;
        } else if marker == 0x01 || (0xD0 <= marker && marker <= 0xD8) {
            at = at + 2;
        } else if marker == 0xC0 || marker == 0xC1 || marker == 0xC2 || marker == 0xC9 || marker
            == 0xCA {
            return true;
        } else if marker == 0xC3 || (0xC5 <= marker && marker <= 0xC7) || marker == 0xCB || (0xCD
            <= marker && marker <= 0xCF) || marker == 0xDA || marker == 0xD9 {
            return false;
        } else {
            let length: usize = read_be16(stream, at + 2) as usize;
            if length < 2 {
                return false;
            }
            if length > stream.len() - at - 2 {
                return false;
            }
            at = at + 2 + length;
        }
    }
    false
}

/// The JPEG in an image section, if it is one a viewer could show.
pub open spec fn section_jpeg(bytes: Seq<u8>, section: SectionModel) -> Option<Seq<u8>> {
    if !is_image(section) {
        None
    } else {
        match image_of(bytes, section) {
            None => None,
            Some(image) => {
                let stream = bytes.subrange(image.data as int, image.data + image.length);
                if displayable(stream) {
                    Some(stream)
                } else {
                    None
                }
            },
        }
    }
}

/// The largest JPEG among the first `n` sections, the last of equals.
pub open spec fn best_jpeg(bytes: Seq<u8>, sections: Seq<SectionModel>, n: nat) -> Option<Seq<u8>>
    decreases n,
{
    if n == 0 {
        None
    } else {
        let before = best_jpeg(bytes, sections, (n - 1) as nat);
        match section_jpeg(bytes, sections[n - 1]) {
            None => before,
            Some(stream) => if before matches Some(best) && stream.len() < best.len() {
                before
            } else {
                Some(stream)
            },
        }
    }
}

/// The picture that is chosen is one of the sections', none is longer, and
/// none after it is as long; there is none only where no section has one.
pub proof fn law_the_largest_picture_is_chosen(
    bytes: Seq<u8>,
    sections: Seq<SectionModel>,
    n: nat,
)
    requires
        n <= sections.len(),
    ensures
        best_jpeg(bytes, sections, n) is None <==> forall|k: int|
            0 <= k < n ==> section_jpeg(bytes, #[trigger] sections[k]) is None,
        best_jpeg(bytes, sections, n) matches Some(best) ==> exists|k: int|
            0 <= k < n && section_jpeg(bytes, #[trigger] sections[k]) == Some(best) && (forall|j: int|
                k < j < n ==> (section_jpeg(bytes, #[trigger] sections[j]) matches Some(other)
                    ==> other.len() < best.len())),
        best_jpeg(bytes, sections, n) matches Some(best) ==> forall|j: int|
            0 <= j < n ==> (section_jpeg(bytes, #[trigger] sections[j]) matches Some(other)
                ==> other.len() <= best.len()),
    decreases n,
{
    if n > 0 {
        law_the_largest_picture_is_chosen(bytes, sections, (n - 1) as nat);
        let last = sections[n - 1];
        assert(section_jpeg(bytes, last) is Some ==> best_jpeg(bytes, sections, n) is Some);
    }
}

/// What a viewer can show, marker by marker. A frame header of the
/// baseline, extended or progressive processes, Huffman or arithmetic, can
/// be shown; one of the lossless or hierarchical processes cannot, nor can
/// a scan or an end without one. Any other segment is passed over with its
/// length, and fill bytes and markers without a length with themselves.
pub proof fn law_frame_headers_decide(stream: Seq<u8>, at: int, marker: u8)
    requires
        0 <= at,
        at + 4 <= stream.len(),
        stream[at] == 0xff,
        stream[at + 1] == marker,
    ensures
        ({
            let shown = shows_from(stream, at);
            let length = be16(stream, at + 2);
            &&& marker == 192 || marker == 193 || marker == 194 || marker == 201 || marker == 202
                ==> shown
            &&& marker == 195 || 197 <= marker <= 199 || marker == 203 || 205 <= marker <= 207
                ==> !shown
            &&& marker == 217 || marker == 218 ==> !shown
            &&& marker == 255 ==> shown == shows_from(stream, at + 1)
            &&& marker == 1 || 208 <= marker <= 216 ==> shown == shows_from(stream, at + 2)
            &&& marker == 196 || 219 <= marker < 255 ==> (if 2 <= length && at + 2 + length
                <= stream.len() {
                shown == shows_from(stream, at + 2 + length)
            } else {
                !shown
            })
        }),
{
}

/// The largest showable JPEG among the file's image sections.
pub fn largest_jpeg(bytes: &[u8], sections: &[Section]) -> (r: Option<Vec<u8>>)
    requires
        sections_inside(bytes@, sections@),
    ensures
        match r {
            Some(jpeg) => best_jpeg(bytes@, section_models(sections@), sections@.len()) == Some(
                jpeg@,
            ),
            None => best_jpeg(bytes@, section_models(sections@), sections@.len()) is None,
        },
{
    let ghost models = section_models(sections@);
    let mut best: Option<&[u8]> = None;
    let mut i: usize = 0;
    while i < sections.len()
        invariant
            i <= sections@.len(),
            models == section_models(sections@),
            sections_inside(bytes@, sections@),
            match best {
                Some(stream) => best_jpeg(bytes@, models, i as nat) == Some(stream@),
                None => best_jpeg(bytes@, models, i as nat) is None,
            },
        decreases sections@.len() - i,
    {
        let section = &sections[i];
        assert(models[i as int] == section@);
        if is_image_section(section) {
            if let Some(found) = image(bytes, section) {
                assert(bytes@.len() == bytes.len());
                let stream = slice_subrange(bytes, found.data, found.data + found.length);
                if is_displayable_jpeg(stream) {
                    let smaller: bool = match best {
                        Some(other) => stream.len() < other.len(),
                        None => false,
                    };
                    if !smaller {
                        best = Some(stream);
                    }
                }
            }
        }
        i = i + 1;
    }
    match best {
        Some(stream) => Some(owned(stream)),
        None => None,
    }
}

/// The preview of a file: the largest showable JPEG of its directory.
pub open spec fn preview_of(bytes: Seq<u8>) -> Outcome<Option<Seq<u8>>> {
    match directory_of(bytes) {
        Err(e) => Err(e),
        Ok(sections) => Ok(best_jpeg(bytes, sections, sections.len())),
    }
}

/// The camera's embedded JPEG.
pub fn preview(bytes: &[u8]) -> (r: Result<Option<Vec<u8>>>)
    ensures
        preview_outcome(r) == preview_of(bytes@),
{
    match directory(bytes) {
        Ok(sections) => Ok(largest_jpeg(bytes, sections.as_slice())),
        Err(e) => Err(e),
    }
}

// --- The property list --------------------------------------------

/// The bytes a character of the basic plane takes in UTF-8.
pub open spec fn utf8_size(c: char) -> int {
    if (c as u32) < 0x80 {
        1
    } else if (c as u32) < 0x800 {
        2
    } else {
        3
    }
}

/// The NUL-terminated UTF-16 string at `at`, `before` and its `size` bytes
/// of UTF-8 being read already. It is cut once it takes more than 512
/// bytes; a surrogate makes it unreadable.
pub open spec fn string_from(bytes: Seq<u8>, at: int, before: Seq<char>, size: int) -> Option<
    Seq<char>,
>
    decreases bytes.len() - at,
{
    if !holds(bytes, at, 2) {
        None
    } else {
        let unit = le16(bytes, at);
        if unit == 0 {
            Some(before)
        } else if 0xD800 <= unit <= 0xDFFF {
            None
        } else {
            let c = unit as char;
            let text = before.push(c);
            if size + utf8_size(c) > 512 {
                Some(text)
            } else {
                string_from(bytes, at + 2, text, size + utf8_size(c))
            }
        }
    }
}

/// How many bytes the first `n` characters of a text take in UTF-8.
pub open spec fn utf8_sizes(text: Seq<char>, n: nat) -> int
    decreases n,
{
    if n == 0 {
        0
    } else {
        utf8_sizes(text, (n - 1) as nat) + utf8_size(text[n - 1])
    }
}

proof fn lemma_char_again(c: char)
    ensures
        (c as int) as char == c,
        (c as int) < 0xd800 || 0xdfff < c as int,
{
}

/// A text is read back from its sixteen-bit units up to a NUL, where it
/// takes no more than 512 bytes in UTF-8 and has no character past the
/// basic plane.
pub proof fn law_strings_are_read_back(bytes: Seq<u8>, at: int, text: Seq<char>, n: nat)
    requires
        0 <= at,
        n <= text.len(),
        at + 2 * text.len() + 2 <= bytes.len(),
        forall|i: int|
            0 <= i < text.len() ==> {
                &&& 0 < #[trigger] text[i] as int
                &&& (text[i] as int) < 0x1_0000
                &&& holds_number(bytes, at + 2 * i, text[i] as int, 2, true)
            },
        holds_number(bytes, at + 2 * text.len(), 0, 2, true),
        forall|k: nat| k <= text.len() ==> #[trigger] utf8_sizes(text, k) <= 512,
    ensures
        string_from(bytes, at + 2 * n, text.take(n as int), utf8_sizes(text, n)) == Some(text),
        n == 0 ==> string_from(bytes, at, Seq::empty(), 0) == Some(text),
    decreases text.len() - n,
{
    if n == text.len() {
        law_numbers_are_read_from_their_bytes(bytes, at + 2 * text.len(), 0, true);
        assert(text.take(n as int) =~= text);
    } else {
        let c = text[n as int];
        law_numbers_are_read_from_their_bytes(bytes, at + 2 * n, c as int, true);
        assert(holds(bytes, at + 2 * n, 2));
        assert(le16(bytes, at + 2 * n) == c as int);
        lemma_char_again(c);
        law_strings_are_read_back(bytes, at, text, n + 1);
        assert(text.take(n as int).push(c) =~= text.take(n as int + 1));
        assert(utf8_sizes(text, n + 1) == utf8_sizes(text, n) + utf8_size(c));
        assert(utf8_sizes(text, n + 1) <= 512);
        assert(at + 2 * n + 2 == at + 2 * (n + 1));
    }
    assert(text.take(0) =~= Seq::empty());
}

/// A name and its value, out of the string pool.
pub open spec fn property_at(bytes: Seq<u8>, at: int, pool: int) -> Option<(Seq<char>, Seq<char>)> {
    match (
        string_from(bytes, pool + 2 * le32(bytes, at), Seq::empty(), 0),
        string_from(bytes, pool + 2 * le32(bytes, at + 4), Seq::empty(), 0),
    ) {
        (Some(name), Some(value)) => if name.len() > 0 {
            Some((name, value))
        } else {
            None
        },
        _ => None,
    }
}

/// The properties among the first `n` entries from `start` on, and
/// whether every one of those entries was there to read.
pub open spec fn property_entries(bytes: Seq<u8>, start: int, pool: int, n: nat) -> (
    Seq<(Seq<char>, Seq<char>)>,
    bool,
)
    decreases n,
{
    if n == 0 {
        (Seq::empty(), true)
    } else {
        let (before, whole) = property_entries(bytes, start, pool, (n - 1) as nat);
        let at = start + (n - 1) * 8;
        if !whole || !holds(bytes, at, 8) {
            (before, false)
        } else {
            match property_at(bytes, at, pool) {
                Some(property) => (before.push(property), true),
                None => (before, true),
            }
        }
    }
}

/// The property list of a section: a header of six words, a pair of
/// offsets an entry, and a pool of strings the offsets index **in
/// characters**.
pub open spec fn properties_of(bytes: Seq<u8>, section: SectionModel) -> Seq<
    (Seq<char>, Seq<char>),
> {
    let at = section.offset;
    if !tagged(bytes, at, "SECp"@) {
        Seq::empty()
    } else {
        let stored = if holds(bytes, at + 8, 4) {
            le32(bytes, at + 8)
        } else {
            0
        };
        let count = if stored <= section.length / 8 {
            stored
        } else {
            section.length / 8
        };
        property_entries(bytes, at + 24, at + 24 + count * 8, count as nat).0
    }
}

/// A property list as a mathematical value.
pub open spec fn property_models(list: Seq<(String, String)>) -> Seq<(Seq<char>, Seq<char>)> {
    list.map_values(|property: (String, String)| (property.0@, property.1@))
}

/// The character of a UTF-16 unit that is no surrogate.
fn unit_char(unit: u16) -> (r: Option<char>)
    ensures
        match r {
            Some(c) => !(0xD800 <= unit <= 0xDFFF) && c == unit as char,
            None => 0xD800 <= unit <= 0xDFFF,
        },
{
    char_of(unit as u32)
}

/// `char::from_u32`: the character of a scalar value, `None` for a
/// surrogate and past the last plane.
#[verifier::external_body]
fn char_of(code: u32) -> (r: Option<char>)
    ensures
        match r {
            Some(c) => (code < 0xD800 || 0xE000 <= code <= 0x10FFFF) && c == code as char,
            None => !(code < 0xD800 || 0xE000 <= code <= 0x10FFFF),
        },
{
    char::from_u32(code)
}

fn read_string(bytes: &[u8], start: u64) -> (r: Option<String>)
    ensures
        match r {
            Some(text) => string_from(bytes@, start as int, Seq::empty(), 0) == Some(text@),
            None => string_from(bytes@, start as int, Seq::empty(), 0) is None,
        },
{
    let ghost all = string_from(bytes@, start as int, Seq::empty(), 0);
    if start > bytes.len() as u64 {
        return None;
    }
    let mut at: usize = start as usize;
    let mut text = String::new();
    let mut size: usize = 0;
    assert(text@ =~= Seq::empty());
    loop
        invariant
            size <= 512,
            all == string_from(bytes@, start as int, Seq::empty(), 0),
            string_from(bytes@, at as int, text@, size as int) == all,
        decreases bytes@.len() - at,
    {
        if !fits(bytes, at, 2) {
            return None;
        }
        assert(bytes@.len() == bytes.len());
        let unit: u16 = read_le16(bytes, at);
        if unit == 0 {
            return Some(text);
        }
        let c: char = match unit_char(unit) {
            Some(c) => c,
            None => return None,
        };
        push_char(&mut text, c);
        size = size + if (c as u32) < 0x80 {
            1
        } else if (c as u32) < 0x800 {
            2
        } else {
            3
        };
        if size > 512 {
            return Some(text);
        }
        at = at + 2;
    }
}

/// Reads the property list of a section.
pub fn properties(bytes: &[u8], section: &Section) -> (list: Vec<(String, String)>)
    requires
        section.offset + section.length <= bytes@.len(),
    ensures
        property_models(list@) == properties_of(bytes@, section@),
{
    let mut list: Vec<(String, String)> = Vec::new();
    assert(property_models(list@) =~= Seq::empty());
    assert(bytes@.len() == bytes.len());
    if !has_tag(bytes, section.offset, "SECp") {
        return list;
    }
    let room: usize = bytes.len() - section.offset;
    let stored: u32 = if room >= 12 {
        read_le32(bytes, section.offset + 8)
    } else {
        0
    };
    let count: usize = if stored as usize <= section.length / 8 {
        stored as usize
    } else {
        section.length / 8
    };
    let ghost start = section.offset + 24;
    let ghost pool = start + count * 8;
    let mut i: usize = 0;
    let mut whole: bool = true;
    while i < count
        invariant
            i <= count <= section.length / 8,
            section.offset + section.length <= bytes@.len() <= usize::MAX,
            count <= u32::MAX,
            room == bytes@.len() - section.offset,
            start == section.offset + 24,
            pool == start + count * 8,
            property_entries(bytes@, start, pool, i as nat) == (property_models(list@), whole),
        decreases count - i,
    {
        if whole {
            if room < 24 || room - 24 < i * 8 || room - 24 - i * 8 < 8 {
                whole = false;
            } else {
                let at: usize = section.offset + 24 + i * 8;
                let pool_at: u128 = section.offset as u128 + 24 + count as u128 * 8;
                let name = pool_string(bytes, pool_at, read_le32(bytes, at));
                let value = pool_string(bytes, pool_at, read_le32(bytes, at + 4));
                match (name, value) {
                    (Some(name), Some(value)) => {
                        if name.as_str().unicode_len() > 0 {
                            let ghost before = property_models(list@);
                            let ghost pair = (name@, value@);
                            list.push((name, value));
                            assert(property_models(list@) =~= before.push(pair));
                        }
                    },
                    _ => {},
                }
            }
        }
        i = i + 1;
    }
    list
}

fn pool_string(bytes: &[u8], pool: u128, characters: u32) -> (r: Option<String>)
    requires
        pool <= 0x1_0000_0000_0000_0000_0000,
    ensures
        match r {
            Some(text) => string_from(bytes@, pool + 2 * characters, Seq::empty(), 0) == Some(
                text@,
            ),
            None => string_from(bytes@, pool + 2 * characters, Seq::empty(), 0) is None,
        },
{
    let at: u128 = pool + 2 * characters as u128;
    if at > bytes.len() as u128 {
        return None;
    }
    read_string(bytes, at as u64)
}

/// The value of the first property of a name, without white space around
/// it; `None` when there is none or it is blank.
pub open spec fn property(list: Seq<(Seq<char>, Seq<char>)>, key: Seq<char>, n: nat) -> Option<
    Seq<char>,
>
    decreases list.len() - n,
{
    if n >= list.len() {
        None
    } else if list[n as int].0 == key {
        let value = trimmed(list[n as int].1);
        if value.len() > 0 {
            Some(value)
        } else {
            None
        }
    } else {
        property(list, key, n + 1)
    }
}

/// A property list, with the lookups that describe a frame.
pub struct Properties(pub Vec<(String, String)>);

impl Properties {
    /// The value of a property, if it is not blank.
    pub fn get(&self, key: &str) -> (r: Option<Vec<char>>)
        ensures
            match r {
                Some(value) => property(property_models(self.0@), key@, 0) == Some(value@),
                None => property(property_models(self.0@), key@, 0) is None,
            },
    {
        let ghost models = property_models(self.0@);
        let mut i: usize = 0;
        while i < self.0.len()
            invariant
                i <= self.0@.len(),
                models == property_models(self.0@),
                property(models, key@, 0) == property(models, key@, i as nat),
            decreases self.0@.len() - i,
        {
            let (name, value) = &self.0[i];
            assert(models[i as int] == (name@, value@));
            if same_text(name.as_str(), key) {
                let bare = trim(characters(value.as_str()).as_slice());
                return if bare.len() > 0 {
                    Some(bare)
                } else {
                    None
                };
            }
            i = i + 1;
        }
        None
    }
}

// --- The sensor data ----------------------------------------------

/// Three 16-bit samples a pixel, uncompressed.
pub const PLAIN: u32 = 3;

/// The Huffman code of the first bodies, under two numbers.
pub const HUFFMAN: u32 = 11;

pub const HUFFMAN_OLD: u32 = 6;

/// Foveon's entropy code over three full-resolution planes.
pub const TRUE: u32 = 30;

/// The same code with two quarter-resolution layers, under four numbers.
pub const QUATTRO: u32 = 35;

pub const SDQ_37: u32 = 37;

pub const SDQ_39: u32 = 39;

pub const SDQ_41: u32 = 41;

/// The first of the sections from number `n` on that holds the sensor's
/// own data.
pub open spec fn sensor_image(bytes: Seq<u8>, sections: Seq<SectionModel>, n: nat) -> Option<Image>
    decreases sections.len() - n,
{
    if n >= sections.len() {
        None
    } else {
        let found = if is_image(sections[n as int]) {
            image_of(bytes, sections[n as int])
        } else {
            None
        };
        match found {
            Some(image) => if image.kind == 1 {
                Some(image)
            } else {
                sensor_image(bytes, sections, n + 1)
            },
            None => sensor_image(bytes, sections, n + 1),
        }
    }
}

/// The samples of an uncompressed frame.
pub open spec fn plain_samples(bytes: Seq<u8>, raw: Image) -> Outcome<Seq<u16>> {
    let count = raw.columns * raw.rows * 3;
    let end = raw.data + 2 * count;
    if raw.columns * raw.rows > usize::MAX || count > usize::MAX || end > usize::MAX {
        Err(Fault::Corrupt("X3F frame too large"@))
    } else if end > bytes.len() {
        Err(Fault::Corrupt("X3F plain frame runs past the file"@))
    } else {
        Ok(plain_frame(bytes.subrange(raw.data as int, end), count as nat))
    }
}

/// The samples of a sensor image, by its format.
pub open spec fn image_samples(bytes: Seq<u8>, raw: Image) -> Outcome<Seq<u16>> {
    if raw.format == PLAIN {
        plain_samples(bytes, raw)
    } else if raw.format == TRUE {
        true_frame(bytes, raw, false)
    } else if raw.format == QUATTRO || raw.format == SDQ_37 || raw.format == SDQ_39 || raw.format
        == SDQ_41 {
        true_frame(bytes, raw, true)
    } else if raw.format == HUFFMAN || raw.format == HUFFMAN_OLD {
        Err(
            Fault::Unsupported(
                "Foveon SD9/SD10/SD14 Huffman sensor data (X3F image format "@ + decimal(
                    raw.format as int,
                ) + "); the preview and the metadata are still readable"@,
            ),
        )
    } else {
        Err(Fault::Unsupported("X3F image format "@ + decimal(raw.format as int)))
    }
}

fn plain_data(bytes: &[u8], raw: &Image) -> (r: Result<Vec<u16>>)
    ensures
        deep_outcome(r) == plain_samples(bytes@, *raw),
{
    let count: usize = match raw.columns.checked_mul(raw.rows) {
        Some(pixels) => match pixels.checked_mul(3) {
            Some(count) => count,
            None => return Err(corrupt("X3F frame too large")),
        },
        None => return Err(corrupt("X3F frame too large")),
    };
    let end: usize = match count.checked_mul(2) {
        Some(size) => match raw.data.checked_add(size) {
            Some(end) => end,
            None => return Err(corrupt("X3F frame too large")),
        },
        None => return Err(corrupt("X3F frame too large")),
    };
    if end > bytes.len() {
        return Err(corrupt("X3F plain frame runs past the file"));
    }
    Ok(plain(slice_subrange(bytes, raw.data, end), count))
}

/// Unpacks the samples of a sensor image, by its format.
pub fn samples(bytes: &[u8], raw: &Image) -> (r: Result<Vec<u16>>)
    ensures
        deep_outcome(r) == image_samples(bytes@, *raw),
{
    if raw.format == PLAIN {
        plain_data(bytes, raw)
    } else if raw.format == TRUE {
        decode_true(bytes, raw, false)
    } else if raw.format == QUATTRO || raw.format == SDQ_37 || raw.format == SDQ_39 || raw.format
        == SDQ_41 {
        decode_true(bytes, raw, true)
    } else if raw.format == HUFFMAN || raw.format == HUFFMAN_OLD {
        let mut text = "Foveon SD9/SD10/SD14 Huffman sensor data (X3F image format ".to_string();
        push_decimal(&mut text, raw.format as u64);
        text.append("); the preview and the metadata are still readable");
        Err(Error::Unsupported(text))
    } else {
        let mut text = "X3F image format ".to_string();
        push_decimal(&mut text, raw.format as u64);
        Err(Error::Unsupported(text))
    }
}

/// Finds the sensor's own image.
pub fn find_sensor_image(bytes: &[u8], sections: &[Section]) -> (r: Option<Image>)
    requires
        sections_inside(bytes@, sections@),
    ensures
        r == sensor_image(bytes@, section_models(sections@), 0),
{
    let ghost models = section_models(sections@);
    let mut i: usize = 0;
    while i < sections.len()
        invariant
            i <= sections@.len(),
            models == section_models(sections@),
            sections_inside(bytes@, sections@),
            sensor_image(bytes@, models, 0) == sensor_image(bytes@, models, i as nat),
        decreases sections@.len() - i,
    {
        let section = &sections[i];
        assert(models[i as int] == section@);
        if is_image_section(section) {
            if let Some(found) = image(bytes, section) {
                if found.kind == 1 {
                    return Some(found);
                }
            }
        }
        i = i + 1;
    }
    None
}

// --- Describing a frame -------------------------------------------

/// Where the TIFF header of the shooting data lies in a JPEG, looking from
/// marker segment `at` on.
pub open spec fn exif_at(jpeg: Seq<u8>, at: int) -> Option<int>
    decreases jpeg.len() - at,
{
    if at < 0 || at + 4 > jpeg.len() || jpeg[at] != 0xFF {
        None
    } else if jpeg[at + 1] == 0xFF {
        exif_at(jpeg, at + 1)
    } else if 0xD8 <= jpeg[at + 1] <= 0xDA || be16(jpeg, at + 2) < 2 {
        None
    } else if jpeg[at + 1] == 0xE1 && tagged(jpeg, at + 4, "Exif\0\0"@) {
        Some(at + 10)
    } else if at + 2 + be16(jpeg, at + 2) > jpeg.len() {
        None
    } else {
        exif_at(jpeg, at + 2 + be16(jpeg, at + 2))
    }
}

/// The shooting data inside a preview, which is where the later bodies put
/// what earlier ones put in the property list.
pub open spec fn exif_of(jpeg: Seq<u8>) -> Option<TiffModel> {
    match exif_at(jpeg, 2) {
        // Every offset in it counts from its own header.
        Some(at) => match tiff_at(jpeg, at) {
            Ok(tiff) => Some(tiff),
            Err(_) => None,
        },
        None => None,
    }
}

fn find_exif(jpeg: &[u8]) -> (r: Option<usize>)
    ensures
        match r {
            Some(at) => exif_at(jpeg@, 2) == Some(at as int),
            None => exif_at(jpeg@, 2) is None,
        },
{
    assert(jpeg@.len() == jpeg.len());
    proof {
        reveal_strlit("Exif\0\0");
    }
    let mut at: usize = 2;
    while jpeg.len() >= 4 && at <= jpeg.len() - 4
        invariant
            jpeg@.len() == jpeg.len(),
            "Exif\0\0"@.len() == 6,
            exif_at(jpeg@, 2) == exif_at(jpeg@, at as int),
        decreases jpeg@.len() - at,
    {
        if jpeg[at] != 0xFF {
            return None;
        }
        let marker: u8 = jpeg[at + 1];
        if marker == 0xFF {
            at = at + 1;
        } else {
            if 0xD8 <= marker && marker <= 0xDA {
                return None;
            }
            let len: usize = read_be16(jpeg, at + 2) as usize;
            if len < 2 {
                return None;
            }
            if marker == 0xE1 && has_tag(jpeg, at + 4, "Exif\0\0") {
                return Some(at + 10);
            }
            if len > jpeg.len() - at - 2 {
                return None;
            }
            at = at + 2 + len;
        }
    }
    None
}

fn preview_exif<'a>(jpeg: &'a [u8]) -> (r: Option<Tiff<'a>>)
    ensures
        match r {
            Some(tiff) => exif_of(jpeg@) == Some(tiff@) && tiff@.well_formed(),
            None => exif_of(jpeg@) is None,
        },
{
    match find_exif(jpeg) {
        Some(at) => match Tiff::parse_embedded(jpeg, at) {
            Ok(tiff) => Some(tiff),
            Err(_) => None,
        },
        None => None,
    }
}

/// Whether a section is a property list.
pub open spec fn is_list(section: SectionModel) -> bool {
    tagged(section.kind, 0, "PROP"@)
}

fn is_list_section(section: &Section) -> (r: bool)
    ensures
        r == is_list(section@),
{
    let kind: [u8; 4] = section.kind;
    has_tag(kind.as_slice(), 0, "PROP")
}

/// The property list of a file: that of the first section that is one.
pub open spec fn listed(bytes: Seq<u8>, sections: Seq<SectionModel>, n: nat) -> Seq<
    (Seq<char>, Seq<char>),
>
    decreases sections.len() - n,
{
    if n >= sections.len() {
        Seq::empty()
    } else if is_list(sections[n as int]) {
        properties_of(bytes, sections[n as int])
    } else {
        listed(bytes, sections, n + 1)
    }
}

/// The texts that a frame's numbers are read from.
#[derive(Debug)]
pub struct Texts {
    pub iso: Option<String>,
    pub shutter: Option<String>,
    pub exptime: Option<String>,
    pub aperture: Option<String>,
    pub flength: Option<String>,
    pub rotation: Option<String>,
}

/// What the number texts of a frame stand for. `shutter` is in seconds,
/// `exptime` the same in microseconds, `rotation` in whole degrees
/// clockwise.
#[derive(Debug, Clone, Copy, PartialEq, Eq, Structural)]
pub struct Numbers {
    pub iso: Option<Ratio>,
    pub shutter: Option<Ratio>,
    pub exptime: Option<Ratio>,
    pub aperture: Option<Ratio>,
    pub flength: Option<Ratio>,
    pub rotation: Option<i32>,
}

impl Numbers {
    /// No number at all.
    pub fn unread() -> (r: Numbers)
        ensures
            r.well_formed(),
            r.iso is None && r.shutter is None && r.exptime is None && r.aperture is None,
            r.flength is None && r.rotation is None,
    {
        Numbers {
            iso: None,
            shutter: None,
            exptime: None,
            aperture: None,
            flength: None,
            rotation: None,
        }
    }

    /// Whether the microseconds can be turned into seconds.
    pub open spec fn well_formed(self) -> bool {
        self.exptime matches Some(q) ==> q.den * 1_000_000 <= u64::MAX
    }
}

/// An exposure in seconds.
pub open spec fn exposure_of(numbers: Numbers) -> Option<Ratio> {
    match numbers.shutter {
        Some(seconds) => Some(seconds),
        None => match numbers.exptime {
            Some(micros) => Some(
                Ratio { num: micros.num, den: (micros.den * 1_000_000) as u64 },
            ),
            None => None,
        },
    }
}

fn exposure(numbers: Numbers) -> (r: Option<Ratio>)
    requires
        numbers.well_formed(),
    ensures
        r == exposure_of(numbers),
{
    match numbers.shutter {
        Some(seconds) => Some(seconds),
        None => match numbers.exptime {
            Some(micros) => Some(Ratio { num: micros.num, den: micros.den * 1_000_000 }),
            None => None,
        },
    }
}

/// How a camera was held, by its rotation in degrees clockwise, or what
/// the shooting data says.
pub open spec fn held(rotation: Option<i32>, exif: Option<TiffModel>) -> Orientation {
    match rotation {
        Some(degrees) => if degrees == 90 {
            Orientation::Rotate90CW
        } else if degrees == 180 {
            Orientation::Rotate180
        } else if degrees == 270 {
            Orientation::Rotate270CW
        } else {
            Orientation::Normal
        },
        None => match exif {
            Some(tiff) => orientation_of(tiff),
            None => Orientation::Normal,
        },
    }
}

/// A rotation turns a picture as the orientation tag of the same meaning
/// does: by a quarter six, by a half three, by three quarters eight, and no
/// other rotation at all.
pub proof fn law_rotations_are_orientations(degrees: i32, exif: Option<TiffModel>)
    ensures
        held(Some(90), exif) == exif_orientation(6),
        held(Some(180), exif) == exif_orientation(3),
        held(Some(270), exif) == exif_orientation(8),
        degrees % 360 == 0 || degrees % 90 != 0 ==> held(Some(degrees), exif) == exif_orientation(1),
{
}

/// An exposure in microseconds is a million times as many seconds, and
/// gives way to one in seconds.
pub proof fn law_exposures_are_in_seconds(numbers: Numbers)
    requires
        numbers.well_formed(),
    ensures
        numbers.shutter is Some ==> exposure_of(numbers) == numbers.shutter,
        numbers.shutter is None && numbers.exptime is None ==> exposure_of(numbers) is None,
        numbers.shutter is None && numbers.exptime is Some ==> ({
            let (micros, seconds) = (numbers.exptime->0, exposure_of(numbers)->0);
            exposure_of(numbers) is Some && seconds.num * (1_000_000 * micros.den) == micros.num
                * seconds.den
        }),
{
    if numbers.shutter is None && numbers.exptime is Some {
        let (micros, seconds) = (numbers.exptime->0, exposure_of(numbers)->0);
        assert(seconds.den == 1_000_000 * micros.den);
    }
}

/// The name under a property, or failing that another.
pub open spec fn name_or(value: Option<Seq<char>>, other: Option<Seq<char>>) -> Seq<char> {
    match value {
        Some(name) => name,
        None => match other {
            Some(name) => name,
            None => Seq::empty(),
        },
    }
}

/// The shooting data of the largest preview.
pub open spec fn shot(bytes: Seq<u8>, sections: Seq<SectionModel>) -> Option<TiffModel> {
    match best_jpeg(bytes, sections, sections.len()) {
        Some(jpeg) => exif_of(jpeg),
        None => None,
    }
}

/// The make and model: the properties', or failing those the shooting
/// data's.
pub open spec fn names_of(bytes: Seq<u8>, sections: Seq<SectionModel>) -> (Seq<char>, Seq<char>) {
    let list = listed(bytes, sections, 0);
    let (make, model) = match shot(bytes, sections) {
        Some(tiff) => (Some(camera_of(tiff).0), Some(camera_of(tiff).1)),
        None => (None, None),
    };
    (
        trimmed(name_or(property(list, "CAMMANUF"@, 0), make)),
        trimmed(name_or(property(list, "CAMMODEL"@, 0), model)),
    )
}

/// Everything about a frame that is not its samples: the camera, the
/// exposure, the orientation and the preview.
pub open spec fn described(
    raw: RawModel,
    bytes: Seq<u8>,
    sections: Seq<SectionModel>,
    numbers: Numbers,
) -> RawModel {
    let list = listed(bytes, sections, 0);
    let exif = shot(bytes, sections);
    let own = MetadataModel {
        iso: numbers.iso,
        exposure_time: exposure_of(numbers),
        f_number: numbers.aperture,
        focal_length: numbers.flength,
        lens: property(list, "LENSMODEL"@, 0),
        date_time: None,
    };
    RawModel {
        make: names_of(bytes, sections).0,
        model: names_of(bytes, sections).1,
        metadata: match exif {
            Some(tiff) => merged(own, metadata_of(tiff)),
            None => own,
        },
        orientation: held(numbers.rotation, exif),
        preview: best_jpeg(bytes, sections, sections.len()),
        ..raw
    }
}

fn find_properties(bytes: &[u8], sections: &[Section]) -> (list: Properties)
    requires
        sections_inside(bytes@, sections@),
    ensures
        property_models(list.0@) == listed(bytes@, section_models(sections@), 0),
{
    let ghost models = section_models(sections@);
    let mut i: usize = 0;
    while i < sections.len()
        invariant
            i <= sections@.len(),
            models == section_models(sections@),
            sections_inside(bytes@, sections@),
            listed(bytes@, models, 0) == listed(bytes@, models, i as nat),
        decreases sections@.len() - i,
    {
        let section = &sections[i];
        assert(models[i as int] == section@);
        if is_list_section(section) {
            return Properties(properties(bytes, section));
        }
        i = i + 1;
    }
    let none: Vec<(String, String)> = Vec::new();
    assert(property_models(none@) =~= Seq::empty());
    Properties(none)
}

fn text_of_property(list: &Properties, key: &str) -> (r: Option<String>)
    ensures
        maybe_text(r) == property(property_models(list.0@), key@, 0),
{
    match list.get(key) {
        Some(value) => Some(joined(value.as_slice())),
        None => None,
    }
}

/// The texts that a file's numbers are read from.
pub fn texts(bytes: &[u8]) -> (r: Result<Texts>)
    ensures
        match r {
            Ok(texts) => directory_of(bytes@) matches Ok(sections) && ({
                let list = listed(bytes@, sections, 0);
                &&& maybe_text(texts.iso) == property(list, "ISO"@, 0)
                &&& maybe_text(texts.shutter) == property(list, "SHUTTER"@, 0)
                &&& maybe_text(texts.exptime) == property(list, "EXPTIME"@, 0)
                &&& maybe_text(texts.aperture) == property(list, "APERTURE"@, 0)
                &&& maybe_text(texts.flength) == property(list, "FLENGTH"@, 0)
                &&& maybe_text(texts.rotation) == property(list, "ROTATION"@, 0)
            }),
            Err(e) => directory_of(bytes@) == Outcome::<Seq<SectionModel>>::Err(e@),
        },
{
    let sections = match directory(bytes) {
        Ok(sections) => sections,
        Err(e) => return Err(e),
    };
    let list = find_properties(bytes, sections.as_slice());
    Ok(
        Texts {
            iso: text_of_property(&list, "ISO"),
            shutter: text_of_property(&list, "SHUTTER"),
            exptime: text_of_property(&list, "EXPTIME"),
            aperture: text_of_property(&list, "APERTURE"),
            flength: text_of_property(&list, "FLENGTH"),
            rotation: text_of_property(&list, "ROTATION"),
        },
    )
}

fn name_of(value: Option<String>, other: Option<String>) -> (r: String)
    ensures
        r@ == name_or(maybe_text(value), maybe_text(other)),
{
    match value {
        Some(name) => name,
        None => match other {
            Some(name) => name,
            None => String::new(),
        },
    }
}

fn describe(bytes: &[u8], sections: &[Section], image: &mut RawImage, numbers: Numbers)
    requires
        sections_inside(bytes@, sections@),
        numbers.well_formed(),
    ensures
        final(image)@ == described(old(image)@, bytes@, section_models(sections@), numbers),
{
    let list = find_properties(bytes, sections);
    let preview = largest_jpeg(bytes, sections);
    let own: Metadata<Ratio> = Metadata {
        iso: numbers.iso,
        exposure_time: exposure(numbers),
        f_number: numbers.aperture,
        focal_length: numbers.flength,
        lens: text_of_property(&list, "LENSMODEL"),
        date_time: None,
    };
    let (make, model) = (text_of_property(&list, "CAMMANUF"), text_of_property(&list, "CAMMODEL"));
    let exif = match &preview {
        Some(jpeg) => preview_exif(jpeg.as_slice()),
        None => None,
    };
    match &exif {
        Some(tiff) => {
            let (exif_make, exif_model) = make_model(tiff);
            image.set_camera(
                name_of(make, Some(exif_make)).as_str(),
                name_of(model, Some(exif_model)).as_str(),
            );
            image.metadata = merge(own, crate::raw::common::metadata(tiff));
        },
        None => {
            image.set_camera(name_of(make, None).as_str(), name_of(model, None).as_str());
            image.metadata = own;
        },
    }
    image.orientation = match numbers.rotation {
        Some(90) => Orientation::Rotate90CW,
        Some(180) => Orientation::Rotate180,
        Some(270) => Orientation::Rotate270CW,
        Some(_) => Orientation::Normal,
        None => match &exif {
            Some(tiff) => orientation(tiff),
            None => Orientation::Normal,
        },
    };
    image.preview = preview;
}

/// The levels and the active area of a generation, which the file states
/// nowhere: black, white and crop.
pub open spec fn generation(format: u32) -> (u32, u32, Rect) {
    if format == TRUE {
        (31, 3900, Rect { x: 12, y: 0, width: 4807, height: 3205 })
    } else {
        (2047, 16383, Rect { x: 204, y: 24, width: 5446, height: 3624 })
    }
}

/// A frame with the levels of its generation, and its crop where it fits.
pub open spec fn leveled(raw: RawModel, format: u32) -> RawModel {
    let (black, white, crop) = generation(format);
    RawModel {
        black_levels: all_four(Ratio::whole(black)),
        white_level: Ratio::whole(white),
        crop: if crop.x + crop.width <= raw.width && crop.y + crop.height <= raw.height {
            crop
        } else {
            raw.crop
        },
        ..raw
    }
}

/// What a file decodes to, given what its number texts stand for. Every
/// pixel has all three colours, so there is no filter array.
pub open spec fn decoded(bytes: Seq<u8>, numbers: Numbers) -> Outcome<RawModel> {
    match directory_of(bytes) {
        Err(fault) => Err(fault),
        Ok(sections) => match sensor_image(bytes, sections, 0) {
            None => Err(Fault::Unsupported("X3F with no sensor image section"@)),
            Some(raw) => match image_samples(bytes, raw) {
                Err(fault) => Err(fault),
                Ok(samples) => Ok(
                    leveled(
                        described(
                            plain_image(
                                Format::X3f,
                                raw.columns,
                                raw.rows,
                                3,
                                samples,
                                no_array(),
                            ),
                            bytes,
                            sections,
                            numbers,
                        ),
                        raw.format,
                    ),
                ),
            },
        },
    }
}

/// Decodes an X3F into its sensor frame and metadata. `numbers` is what
/// the texts that [`texts`] lists stand for.
pub fn decode(bytes: &[u8], numbers: Numbers) -> (r: Result<RawImage>)
    requires
        numbers.well_formed(),
    ensures
        deep_outcome(r) == decoded(bytes@, numbers),
{
    let sections = match directory(bytes) {
        Ok(sections) => sections,
        Err(e) => return Err(e),
    };
    let raw = match find_sensor_image(bytes, sections.as_slice()) {
        Some(raw) => raw,
        None => return Err(unsupported("X3F with no sensor image section")),
    };
    let data = match samples(bytes, &raw) {
        Ok(data) => data,
        Err(e) => return Err(e),
    };
    let mut image = RawImage::new(Format::X3f, raw.columns, raw.rows, 3, data, Cfa::Linear);
    describe(bytes, sections.as_slice(), &mut image, numbers);
    let (black, white, crop): (u32, u32, Rect) = if raw.format == TRUE {
        (31, 3900, Rect { x: 12, y: 0, width: 4807, height: 3205 })
    } else {
        (2047, 16383, Rect { x: 204, y: 24, width: 5446, height: 3624 })
    };
    image.black_levels = [Ratio::whole(black);4];
    assert(image.black_levels@ =~= all_four(Ratio::whole(black)));
    image.white_level = Ratio::whole(white);
    if crop.x + crop.width <= image.width && crop.y + crop.height <= image.height {
        image.crop = crop;
    }
    Ok(image)
}

/// The camera, the exposure and the preview of a file, whether or not its
/// sensor data can be unpacked.
pub fn metadata(bytes: &[u8], numbers: Numbers) -> (r: Result<
    (String, String, Metadata<Ratio>, Option<Vec<u8>>),
>)
    requires
        numbers.well_formed(),
    ensures
        match r {
            Ok((make, model, metadata, preview)) => directory_of(bytes@) matches Ok(sections) && ({
                let told = described(
                    plain_image(Format::X3f, 1, 1, 3, seq![0, 0, 0], no_array()),
                    bytes@,
                    sections,
                    numbers,
                );
                &&& make@ == told.make
                &&& model@ == told.model
                &&& metadata@ == told.metadata
                &&& maybe_bytes(preview) == told.preview
            }),
            Err(e) => directory_of(bytes@) == Outcome::<Seq<SectionModel>>::Err(e@),
        },
{
    let sections = match directory(bytes) {
        Ok(sections) => sections,
        Err(e) => return Err(e),
    };
    let data: Vec<u16> = vec![0u16; 3];
    assert(data@ =~= seq![0, 0, 0]);
    let mut image = RawImage::new(Format::X3f, 1, 1, 3, data, Cfa::Linear);
    describe(bytes, sections.as_slice(), &mut image, numbers);
    let RawImage { make, model, metadata, preview, .. } = image;
    Ok((make, model, metadata, preview))
}

} // verus!
