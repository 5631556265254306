//! A decoded raw: the sensor data and what it takes to develop it.

use crate::raw::bits::power_of_two;
use crate::raw::image::{Cfa, CfaColor, CfaKind, CfaModel, Orientation};
use crate::raw::{
    frame_samples, frame_samples_spec, Error, Fault, Format, Rect, Result, MAX_FRAME_SAMPLES,
};
use crate::text::{
    characters, decimal, joined, last_digits, push_decimal, push_last_digits, push_signed,
    trim, trimmed,
};
use vstd::arithmetic::power2::{lemma2_to64, lemma_pow2_pos, lemma_pow2_strictly_increases, pow2};
use vstd::prelude::*;

verus! {

/// An exact quotient. Levels and shooting data are kept this way, as the
/// file writes them, and turned into floating point only to be used.
#[derive(Debug, Clone, Copy, PartialEq, Eq, Structural)]
pub struct Ratio {
    pub num: i64,
    pub den: u64,
}

impl Ratio {
    /// A whole number.
    #[verifier::allow_in_spec]
    pub fn whole(n: u32) -> Ratio
        returns
            (Ratio { num: n as i64, den: 1 }),
    {
        Ratio { num: n as i64, den: 1 }
    }

    /// Whether one quotient is less than another.
    pub open spec fn less(self, other: Ratio) -> bool {
        self.num * other.den < other.num * self.den
    }

    /// Whether two quotients are the same number.
    pub open spec fn same(self, other: Ratio) -> bool {
        self.num * other.den == other.num * self.den
    }

    /// How large the quotient's numerator is.
    pub open spec fn magnitude(self) -> int {
        if self.num < 0 {
            -self.num
        } else {
            self.num as int
        }
    }

    /// Whether the quotient is a whole number.
    pub open spec fn is_whole(self) -> bool {
        self.den > 0 && self.magnitude() % self.den as int == 0
    }

    /// The quotient in words: a whole number as such, a decimal of up to
    /// seven digits, four of them behind the point, as that, which is also
    /// how a float of that value is written, and any other as a fraction.
    pub open spec fn text(self) -> Seq<char> {
        let sign = if self.num < 0 {
            "-"@
        } else {
            Seq::empty()
        };
        match decimal_places(self.magnitude(), self.den as int, 0) {
            Some(k) => {
                let n = self.magnitude() * ten_to(k) / self.den as int;
                sign + decimal(n / ten_to(k)) + if k == 0 {
                    Seq::empty()
                } else {
                    "."@ + last_digits(n, k)
                }
            },
            None => decimal(self.num as int) + "/"@ + decimal(self.den as int),
        }
    }

    fn cross(self, other: Ratio) -> (r: (i128, i128))
        ensures
            r.0 == self.num * other.den,
            r.1 == other.num * self.den,
    {
        proof {
            lemma_cross_fits(self.num, other.den);
            lemma_cross_fits(other.num, self.den);
        }
        (self.num as i128 * other.den as i128, other.num as i128 * self.den as i128)
    }

    /// Whether one quotient is less than another.
    pub fn is_less(self, other: Ratio) -> (r: bool)
        ensures
            r == self.less(other),
    {
        let (a, b) = self.cross(other);
        a < b
    }

    /// Whether two quotients are the same number.
    pub fn is_same(self, other: Ratio) -> (r: bool)
        ensures
            r == self.same(other),
    {
        let (a, b) = self.cross(other);
        a == b
    }

    fn size(self) -> (n: u64)
        ensures
            n == self.magnitude(),
    {
        if self.num < 0 {
            (-(self.num as i128)) as u64
        } else {
            self.num as u64
        }
    }

    /// Appends the quotient in words.
    pub fn push(self, text: &mut String)
        ensures
            final(text)@ == old(text)@ + self.text(),
    {
        match find_places(self.size(), self.den) {
            Some((k, n)) => {
                if self.num < 0 {
                    text.append("-");
                }
                let mut whole: u64 = n;
                let mut i: usize = 0;
                while i < k
                    invariant
                        i <= k,
                        whole == n as int / ten_to(i as nat),
                    decreases k - i,
                {
                    proof {
                        lemma_ten_to(i as nat);
                        lemma_ten_to((i + 1) as nat);
                        vstd::arithmetic::div_mod::lemma_div_denominator(
                            n as int,
                            ten_to(i as nat),
                            10,
                        );
                        assert(ten_to(i as nat) * 10 == ten_to((i + 1) as nat));
                    }
                    whole = whole / 10;
                    i = i + 1;
                }
                push_decimal(text, whole);
                if k > 0 {
                    text.append(".");
                    push_last_digits(text, n, k);
                }
            },
            None => {
                push_signed(text, self.num);
                text.append("/");
                push_decimal(text, self.den);
            },
        }
        assert(text@ =~= old(text)@ + self.text());
    }
}

/// A power of ten.
pub open spec fn ten_to(k: nat) -> int
    decreases k,
{
    if k == 0 {
        1
    } else {
        10 * ten_to((k - 1) as nat)
    }
}

proof fn lemma_ten_to(k: nat)
    ensures
        ten_to(k) >= 1,
    decreases k,
{
    if k > 0 {
        lemma_ten_to((k - 1) as nat);
    }
}

/// How many places, `k` or more, a quotient has behind the decimal point,
/// if it is a whole number or a decimal of up to seven digits, four of them
/// behind the point.
pub open spec fn decimal_places(up: int, den: int, k: nat) -> Option<nat>
    decreases 5 - k,
{
    if den == 0 || k > 4 {
        None
    } else if up * ten_to(k) % den == 0 {
        if k == 0 || up * ten_to(k) / den < 10_000_000 {
            Some(k)
        } else {
            None
        }
    } else {
        decimal_places(up, den, k + 1)
    }
}

/// The places of a quotient behind the decimal point, and its digits as one
/// number.
fn find_places(up: u64, den: u64) -> (r: Option<(usize, u64)>)
    ensures
        match r {
            Some((k, n)) => decimal_places(up as int, den as int, 0) == Some(k as nat) && n == up
                * ten_to(k as nat) / den as int,
            None => decimal_places(up as int, den as int, 0) is None,
        },
{
    if den == 0 {
        return None;
    }
    let mut k: usize = 0;
    let mut scaled: u128 = up as u128;
    proof {
        reveal_with_fuel(ten_to, 6);
    }
    while k <= 4
        invariant
            k <= 5,
            0 < den,
            scaled == up * ten_to(k as nat),
            decimal_places(up as int, den as int, 0) == decimal_places(
                up as int,
                den as int,
                k as nat,
            ),
        decreases 5 - k,
    {
        proof {
            reveal_with_fuel(ten_to, 6);
            assert(scaled <= u64::MAX * 10_000) by (nonlinear_arith)
                requires
                    scaled == up * ten_to(k as nat),
                    0 <= up <= u64::MAX,
                    1 <= ten_to(k as nat) <= 10_000,
            ;
        }
        if scaled % den as u128 == 0 {
            let n: u128 = scaled / den as u128;
            if k == 0 || n < 10_000_000 {
                proof {
                    assert(n <= u64::MAX) by {
                        if k == 0 {
                            assert(n <= scaled) by (nonlinear_arith)
                                requires
                                    n == scaled as int / den as int,
                                    0 < den,
                                    0 <= scaled,
                            ;
                        }
                    }
                }
                return Some((k, n as u64));
            }
            return None;
        }
        proof {
            assert(up * ten_to((k + 1) as nat) == 10 * (up * ten_to(k as nat)))
                by (nonlinear_arith)
                requires
                    ten_to((k + 1) as nat) == 10 * ten_to(k as nat),
            ;
        }
        scaled = scaled * 10;
        k = k + 1;
    }
    None
}

/// The largest sample of a depth.
pub open spec fn full_scale_of(bits: int) -> Ratio {
    Ratio::whole((pow2(bits as nat) - 1) as u32)
}

/// The largest sample of a depth.
pub fn full_scale(bits: u32) -> (r: Ratio)
    requires
        bits <= 31,
    ensures
        r == full_scale_of(bits as int),
{
    proof {
        lemma2_to64();
        lemma_pow2_pos(bits as nat);
        if bits < 31 {
            lemma_pow2_strictly_increases(bits as nat, 31);
        }
    }
    Ratio::whole(power_of_two(bits) - 1)
}

proof fn lemma_cross_fits(num: i64, den: u64)
    ensures
        i128::MIN <= num * den <= i128::MAX,
{
    assert(-0x8000_0000_0000_0000 * 0xffff_ffff_ffff_ffff <= num * den <= 0x7fff_ffff_ffff_ffff
        * 0xffff_ffff_ffff_ffff) by (nonlinear_arith)
        requires
            -0x8000_0000_0000_0000 <= num <= 0x7fff_ffff_ffff_ffff,
            0 <= den <= 0xffff_ffff_ffff_ffff,
    ;
}

/// A white balance multiplier.
#[derive(Debug, Clone, Copy, PartialEq, Eq, Structural)]
pub enum Gain {
    /// An exact quotient.
    Exact(Ratio),
    /// The quotient of two exact quotients.
    Quotient { over: Ratio, under: Ratio },
    /// The quotient of two single-precision numbers, given by their bits.
    Floats { over_bits: u32, under_bits: u32 },
}

impl Gain {
    /// No change.
    #[verifier::allow_in_spec]
    pub fn unit() -> Gain
        returns
            Gain::Exact(Ratio { num: 1, den: 1 }),
    {
        Gain::Exact(Ratio { num: 1, den: 1 })
    }

    /// The quotient of two levels.
    #[verifier::allow_in_spec]
    pub fn of(level: u32, base: u32) -> Gain
        returns
            Gain::Exact(Ratio { num: level as i64, den: base as u64 }),
    {
        Gain::Exact(Ratio { num: level as i64, den: base as u64 })
    }
}

/// Shooting metadata worth carrying out, when the container has it.
/// Everything is optional. `T` is the type of the numbers.
#[derive(Debug, Clone, PartialEq)]
pub struct Metadata<T> {
    pub iso: Option<T>,
    pub exposure_time: Option<T>,
    pub f_number: Option<T>,
    pub focal_length: Option<T>,
    pub lens: Option<String>,
    /// "YYYY:MM:DD HH:MM:SS" as EXIF writes it.
    pub date_time: Option<String>,
}

/// [`Metadata`] as a mathematical value.
pub struct MetadataModel<T> {
    pub iso: Option<T>,
    pub exposure_time: Option<T>,
    pub f_number: Option<T>,
    pub focal_length: Option<T>,
    pub lens: Option<Seq<char>>,
    pub date_time: Option<Seq<char>>,
}

/// An optional text as a mathematical value.
pub open spec fn maybe_text(text: Option<String>) -> Option<Seq<char>> {
    match text {
        Some(text) => Some(text@),
        None => None,
    }
}

/// Optional bytes as a mathematical value.
pub open spec fn maybe_bytes(bytes: Option<Vec<u8>>) -> Option<Seq<u8>> {
    match bytes {
        Some(bytes) => Some(bytes@),
        None => None,
    }
}

impl<T> View for Metadata<T> {
    type V = MetadataModel<T>;

    open spec fn view(&self) -> MetadataModel<T> {
        MetadataModel {
            iso: self.iso,
            exposure_time: self.exposure_time,
            f_number: self.f_number,
            focal_length: self.focal_length,
            lens: maybe_text(self.lens),
            date_time: maybe_text(self.date_time),
        }
    }
}

/// No shooting metadata at all.
pub open spec fn no_metadata<T>() -> MetadataModel<T> {
    MetadataModel {
        iso: None,
        exposure_time: None,
        f_number: None,
        focal_length: None,
        lens: None,
        date_time: None,
    }
}

impl<T> Default for Metadata<T> {
    fn default() -> (m: Metadata<T>)
        ensures
            m@ == no_metadata::<T>(),
    {
        Metadata {
            iso: None,
            exposure_time: None,
            f_number: None,
            focal_length: None,
            lens: None,
            date_time: None,
        }
    }
}

/// A colour matrix, XYZ to camera RGB: three rows of three
/// single-precision numbers, given by their bits.
#[derive(Debug, Clone, Copy, PartialEq, Eq)]
pub struct ColorMatrix {
    pub bits: [u32; 9],
}

/// What a camera table knows of a body.
#[derive(Debug, Clone, Copy, PartialEq, Eq)]
pub struct Camera {
    pub color_matrix: ColorMatrix,
    pub black_level: Option<u32>,
    pub white_level: Option<u32>,
}

/// A decoded raw.
#[derive(Debug, Clone, PartialEq)]
pub struct RawImage {
    pub format: Format,
    /// The make and model as the file carries them, trimmed.
    pub make: String,
    pub model: String,
    /// The same, normalised for the camera table.
    pub clean_make: String,
    pub clean_model: String,
    /// Dimensions of `data`: the full decoded frame, masked borders
    /// included, so `cfa` and `crop` are anchored at its origin.
    pub width: usize,
    pub height: usize,
    /// Samples per pixel: 1 under a filter array, 3 without one.
    pub cpp: usize,
    pub data: Vec<u16>,
    pub cfa: Cfa,
    /// Black level per filter position (row-major 2x2 for Bayer), in
    /// `data`'s units; without an array per channel, the fourth unused.
    pub black_levels: [Ratio; 4],
    /// Saturation level in `data`'s units.
    pub white_level: Ratio,
    /// As-shot white balance as multipliers for R, G, B, G2, relative to
    /// green. All one when the file records none.
    pub wb_coeffs: [Gain; 4],
    /// From the file where it carries one, else from a camera table.
    pub color_matrix: Option<ColorMatrix>,
    /// The area meant to be shown.
    pub crop: Rect,
    pub orientation: Orientation,
    /// The camera's own JPEG preview, the largest one in the file.
    pub preview: Option<Vec<u8>>,
    pub metadata: Metadata<Ratio>,
}

/// A [`RawImage`] as a mathematical value.
#[verifier::ext_equal]
pub struct RawModel {
    pub format: Format,
    pub make: Seq<char>,
    pub model: Seq<char>,
    pub clean_make: Seq<char>,
    pub clean_model: Seq<char>,
    pub width: int,
    pub height: int,
    pub cpp: int,
    pub data: Seq<u16>,
    pub cfa: CfaModel,
    pub black_levels: Seq<Ratio>,
    pub white_level: Ratio,
    pub wb_coeffs: Seq<Gain>,
    pub color_matrix: Option<ColorMatrix>,
    pub crop: Rect,
    pub orientation: Orientation,
    pub preview: Option<Seq<u8>>,
    pub metadata: MetadataModel<Ratio>,
}

impl View for RawImage {
    type V = RawModel;

    open spec fn view(&self) -> RawModel {
        RawModel {
            format: self.format,
            make: self.make@,
            model: self.model@,
            clean_make: self.clean_make@,
            clean_model: self.clean_model@,
            width: self.width as int,
            height: self.height as int,
            cpp: self.cpp as int,
            data: self.data@,
            cfa: self.cfa@,
            black_levels: self.black_levels@,
            white_level: self.white_level,
            wb_coeffs: self.wb_coeffs@,
            color_matrix: self.color_matrix,
            crop: self.crop,
            orientation: self.orientation,
            preview: maybe_bytes(self.preview),
            metadata: self.metadata@,
        }
    }
}

/// Four times the same value.
pub open spec fn all_four<T>(value: T) -> Seq<T> {
    seq![value, value, value, value]
}

/// A frame with every other field at its plainest: no crop (the whole
/// frame), no orientation, unit white balance, no matrix.
pub open spec fn plain_image(
    format: Format,
    width: usize,
    height: usize,
    cpp: int,
    data: Seq<u16>,
    cfa: CfaModel,
) -> RawModel {
    RawModel {
        format,
        make: Seq::empty(),
        model: Seq::empty(),
        clean_make: Seq::empty(),
        clean_model: Seq::empty(),
        width: width as int,
        height: height as int,
        cpp,
        data,
        cfa,
        black_levels: all_four(Ratio::whole(0)),
        white_level: Ratio::whole(65535),
        wb_coeffs: all_four(Gain::unit()),
        color_matrix: None,
        crop: Rect { x: 0, y: 0, width, height },
        orientation: Orientation::Normal,
        preview: None,
        metadata: no_metadata(),
    }
}

/// What a colour is called.
pub open spec fn color_text(color: CfaColor) -> Seq<char> {
    match color {
        CfaColor::Red => "Red"@,
        CfaColor::Green => "Green"@,
        CfaColor::Blue => "Blue"@,
        CfaColor::Green2 => "Green2"@,
        CfaColor::Cyan => "Cyan"@,
        CfaColor::Magenta => "Magenta"@,
        CfaColor::Yellow => "Yellow"@,
        CfaColor::Emerald => "Emerald"@,
    }
}

/// Colours `from` up to `to`, separated by commas.
pub open spec fn colors_text(colors: Seq<CfaColor>, from: int, to: int) -> Seq<char>
    decreases to - from,
{
    if from >= to {
        Seq::empty()
    } else if from + 1 == to {
        color_text(colors[from])
    } else {
        colors_text(colors, from, to - 1) + ", "@ + color_text(colors[to - 1])
    }
}

/// Rows of six colours, in brackets, separated by commas.
pub open spec fn rows_text(colors: Seq<CfaColor>, rows: int) -> Seq<char>
    decreases rows,
{
    if rows <= 0 {
        Seq::empty()
    } else if rows == 1 {
        "["@ + colors_text(colors, 0, 6) + "]"@
    } else {
        rows_text(colors, rows - 1) + ", ["@ + colors_text(colors, 6 * rows - 6, 6 * rows) + "]"@
    }
}

/// A filter array in words.
pub open spec fn cfa_text(cfa: CfaModel) -> Seq<char> {
    match cfa.kind {
        CfaKind::Linear => "None"@,
        CfaKind::Bayer => "Bayer(["@ + colors_text(cfa.colors, 0, 4) + "])"@,
        CfaKind::XTrans => "XTrans(["@ + rows_text(cfa.colors, 6) + "])"@,
        CfaKind::Pattern => "Pattern { width: "@ + decimal(cfa.width as int) + ", height: "@
            + decimal(cfa.height as int) + ", colors: ["@ + colors_text(
            cfa.colors,
            0,
            cfa.colors.len() as int,
        ) + "] }"@,
    }
}

/// A rectangle in words.
pub open spec fn rect_text(rect: Rect) -> Seq<char> {
    "Rect { x: "@ + decimal(rect.x as int) + ", y: "@ + decimal(rect.y as int) + ", width: "@
        + decimal(rect.width as int) + ", height: "@ + decimal(rect.height as int) + " }"@
}

/// A level in words, with its decimal point.
pub open spec fn level_text(level: Ratio) -> Seq<char> {
    if level.is_whole() {
        level.text() + ".0"@
    } else {
        level.text()
    }
}

/// What is wrong with a decoded raw.
pub open spec fn flaw(raw: RawModel) -> Option<Fault> {
    match frame_samples_spec(raw.width as usize, raw.height as usize, raw.cpp as usize) {
        Err(fault) => Some(fault),
        Ok(expect) => if raw.data.len() != expect {
            Some(
                Fault::Corrupt(
                    "data holds "@ + decimal(raw.data.len() as int) + " samples for "@ + decimal(
                        raw.width,
                    ) + "x"@ + decimal(raw.height) + "x"@ + decimal(raw.cpp),
                ),
            )
        } else if raw.crop.x + raw.crop.width > raw.width || raw.crop.y + raw.crop.height
            > raw.height || raw.crop.width == 0 || raw.crop.height == 0 {
            Some(
                Fault::Corrupt(
                    "crop "@ + rect_text(raw.crop) + " outside "@ + decimal(raw.width) + "x"@
                        + decimal(raw.height),
                ),
            )
        } else if (raw.cpp == 1 && raw.cfa.kind is Linear) || (raw.cpp == 3
            && !(raw.cfa.kind is Linear)) {
            Some(
                Fault::Corrupt(
                    "cpp "@ + decimal(raw.cpp) + " with cfa "@ + cfa_text(raw.cfa),
                ),
            )
        } else if !raw.cfa.well_formed() {
            Some(Fault::Corrupt("malformed cfa "@ + cfa_text(raw.cfa)))
        } else if raw.white_level.num <= 0 || exists|i: int|
            0 <= i < 4 && !#[trigger] raw.black_levels[i].less(raw.white_level) {
            Some(
                Fault::Corrupt(
                    "levels black ["@ + level_text(raw.black_levels[0]) + ", "@ + level_text(
                        raw.black_levels[1],
                    ) + ", "@ + level_text(raw.black_levels[2]) + ", "@ + level_text(
                        raw.black_levels[3],
                    ) + "] white "@ + raw.white_level.text(),
                ),
            )
        } else {
            None
        },
    }
}

pub fn push_color(text: &mut String, color: CfaColor)
    ensures
        final(text)@ == old(text)@ + color_text(color),
{
    match color {
        CfaColor::Red => text.append("Red"),
        CfaColor::Green => text.append("Green"),
        CfaColor::Blue => text.append("Blue"),
        CfaColor::Green2 => text.append("Green2"),
        CfaColor::Cyan => text.append("Cyan"),
        CfaColor::Magenta => text.append("Magenta"),
        CfaColor::Yellow => text.append("Yellow"),
        CfaColor::Emerald => text.append("Emerald"),
    }
}

fn push_colors(text: &mut String, colors: &[CfaColor])
    ensures
        final(text)@ == old(text)@ + colors_text(colors@, 0, colors@.len() as int),
{
    let mut i: usize = 0;
    assert(text@ =~= old(text)@ + colors_text(colors@, 0, 0));
    while i < colors.len()
        invariant
            i <= colors@.len(),
            text@ == old(text)@ + colors_text(colors@, 0, i as int),
        decreases colors@.len() - i,
    {
        if i > 0 {
            text.append(", ");
        }
        push_color(text, colors[i]);
        i = i + 1;
        assert(text@ =~= old(text)@ + colors_text(colors@, 0, i as int));
    }
}

proof fn lemma_colors_text(a: Seq<CfaColor>, b: Seq<CfaColor>, from: int, to: int)
    requires
        0 <= from <= to <= a.len(),
        b.len() == to - from,
        forall|i: int| 0 <= i < b.len() ==> b[i] == a[from + i],
    ensures
        colors_text(a, from, to) == colors_text(b, 0, to - from),
    decreases to - from,
{
    if to > from {
        let shorter = b.drop_last();
        lemma_colors_text(a, shorter, from, to - 1);
        lemma_colors_text(b, shorter, 0, to - from - 1);
    }
}

fn push_cfa(text: &mut String, cfa: &Cfa)
    ensures
        final(text)@ == old(text)@ + cfa_text(cfa@),
{
    match cfa {
        Cfa::Linear => text.append("None"),
        Cfa::Bayer(p) => {
            text.append("Bayer([");
            push_colors(text, p.as_slice());
            text.append("])");
        },
        Cfa::XTrans(p) => {
            text.append("XTrans([");
            let ghost start = text@;
            let ghost all = cfa@.colors;
            let mut row: usize = 0;
            assert(text@ =~= start + rows_text(all, 0));
            while row < 6
                invariant
                    row <= 6,
                    all == Seq::new(36, |i: int| p[i / 6][i % 6]),
                    text@ == start + rows_text(all, row as int),
                decreases 6 - row,
            {
                let ghost before = text@;
                if row > 0 {
                    text.append(", [");
                } else {
                    text.append("[");
                }
                let line: [CfaColor; 6] = p[row];
                push_colors(text, line.as_slice());
                text.append("]");
                proof {
                    assert forall|i: int| 0 <= i < 6 implies #[trigger] line@[i] == all[6 * row + i] by {
                        assert((6 * row + i) / 6 == row && (6 * row + i) % 6 == i);
                    }
                    lemma_colors_text(all, line@, 6 * row as int, 6 * row + 6);
                }
                row = row + 1;
                assert(text@ =~= start + rows_text(all, row as int));
            }
            text.append("])");
        },
        Cfa::Pattern { width, height, colors } => {
            text.append("Pattern { width: ");
            push_decimal(text, *width as u64);
            text.append(", height: ");
            push_decimal(text, *height as u64);
            text.append(", colors: [");
            push_colors(text, colors.as_slice());
            text.append("] }");
        },
    }
    assert(text@ =~= old(text)@ + cfa_text(cfa@));
}

fn push_rect(text: &mut String, rect: Rect)
    ensures
        final(text)@ == old(text)@ + rect_text(rect),
{
    text.append("Rect { x: ");
    push_decimal(text, rect.x as u64);
    text.append(", y: ");
    push_decimal(text, rect.y as u64);
    text.append(", width: ");
    push_decimal(text, rect.width as u64);
    text.append(", height: ");
    push_decimal(text, rect.height as u64);
    text.append(" }");
    assert(text@ =~= old(text)@ + rect_text(rect));
}

fn push_level(text: &mut String, level: Ratio)
    ensures
        final(text)@ == old(text)@ + level_text(level),
{
    level.push(text);
    if level.den > 0 && level.size() % level.den == 0 {
        text.append(".0");
    }
    assert(text@ =~= old(text)@ + level_text(level));
}

impl RawImage {
    /// A raw with every field at its plainest, for decoders to fill in.
    pub fn new(
        format: Format,
        width: usize,
        height: usize,
        cpp: usize,
        data: Vec<u16>,
        cfa: Cfa,
    ) -> (raw: RawImage)
        ensures
            raw@ == plain_image(format, width, height, cpp as int, data@, cfa@),
    {
        let black: [Ratio; 4] = [Ratio::whole(0);4];
        let gains: [Gain; 4] = [Gain::unit();4];
        assert(black@ =~= all_four(Ratio::whole(0)));
        assert(gains@ =~= all_four(Gain::unit()));
        RawImage {
            format,
            make: String::new(),
            model: String::new(),
            clean_make: String::new(),
            clean_model: String::new(),
            width,
            height,
            cpp,
            data,
            cfa,
            black_levels: black,
            white_level: Ratio::whole(65535),
            wb_coeffs: gains,
            color_matrix: None,
            crop: Rect { x: 0, y: 0, width, height },
            orientation: Orientation::Normal,
            preview: None,
            metadata: Metadata::default(),
        }
    }

    /// Sets make and model, without the space around them.
    pub fn set_camera(&mut self, make: &str, model: &str)
        ensures
            final(self)@ == (RawModel {
                make: trimmed(make@),
                model: trimmed(model@),
                ..old(self)@
            }),
    {
        self.make = trimmed_text(make);
        self.model = trimmed_text(model);
    }

    /// Sets the normalised names of the body.
    pub fn set_clean(&mut self, make: &str, model: &str)
        ensures
            final(self)@ == (RawModel {
                clean_make: make@,
                clean_model: model@,
                ..old(self)@
            }),
    {
        self.clean_make = make.to_string();
        self.clean_model = model.to_string();
    }

    /// Fills the colour matrix, and the black and white levels that the
    /// decoder left at their defaults, from what a camera table knows of
    /// the body. A matrix that the file itself carries wins.
    pub fn apply_camera_table(&mut self, camera: Option<Camera>)
        ensures
            final(self)@ == with_table(old(self)@, camera),
    {
        if let Some(known) = camera {
            if self.color_matrix.is_none() {
                self.color_matrix = Some(known.color_matrix);
            }
            let zero = Ratio::whole(0);
            let dark: bool = self.black_levels[0].is_same(zero) && self.black_levels[1].is_same(zero)
                && self.black_levels[2].is_same(zero) && self.black_levels[3].is_same(zero);
            let ghost levels = self.black_levels@;
            assert(dark == (levels[0].same(zero) && levels[1].same(zero) && levels[2].same(zero)
                && levels[3].same(zero)));
            if dark {
                if let Some(black) = known.black_level {
                    self.black_levels = [Ratio::whole(black);4];
                    assert(self.black_levels@ =~= all_four(Ratio::whole(black)));
                }
            }
            if self.white_level.is_same(Ratio::whole(65535)) {
                if let Some(white) = known.white_level {
                    self.white_level = Ratio::whole(white);
                }
            }
            proof {
                if dark {
                    assert forall|i: int| 0 <= i < 4 implies (#[trigger] levels[i]).same(zero) by {
                        assert(i == 0 || i == 1 || i == 2 || i == 3);
                    }
                } else {
                    assert(exists|i: int| 0 <= i < 4 && !(#[trigger] levels[i]).same(zero));
                    assert(self.black_levels@ == levels);
                }
                assert(levels == old(self)@.black_levels);
                assert(self@.black_levels == with_table(old(self)@, camera).black_levels);
            }
            assert(self@ =~= with_table(old(self)@, camera));
        }
    }

    /// Internal consistency: the data's length matches the dimensions, the
    /// crop lies inside the frame, the filter array fits the samples and
    /// black lies below white.
    pub fn validate(&self) -> (r: Result<()>)
        ensures
            match r {
                Ok(_) => flaw(self@) is None,
                Err(e) => flaw(self@) == Some(e@),
            },
    {
        let expect: usize = match frame_samples(self.width, self.height, self.cpp) {
            Ok(expect) => expect,
            Err(e) => return Err(e),
        };
        if self.data.len() != expect {
            let mut text = "data holds ".to_string();
            push_decimal(&mut text, self.data.len() as u64);
            text.append(" samples for ");
            push_decimal(&mut text, self.width as u64);
            text.append("x");
            push_decimal(&mut text, self.height as u64);
            text.append("x");
            push_decimal(&mut text, self.cpp as u64);
            return Err(Error::Corrupt(text));
        }
        let crop = self.crop;
        let inside: bool = crop.width <= self.width && crop.x <= self.width - crop.width
            && crop.height <= self.height && crop.y <= self.height - crop.height;
        if !inside || crop.width == 0 || crop.height == 0 {
            let mut text = "crop ".to_string();
            push_rect(&mut text, crop);
            text.append(" outside ");
            push_decimal(&mut text, self.width as u64);
            text.append("x");
            push_decimal(&mut text, self.height as u64);
            return Err(Error::Corrupt(text));
        }
        let linear: bool = match self.cfa {
            Cfa::Linear => true,
            _ => false,
        };
        if (self.cpp == 1 && linear) || (self.cpp == 3 && !linear) {
            let mut text = "cpp ".to_string();
            push_decimal(&mut text, self.cpp as u64);
            text.append(" with cfa ");
            push_cfa(&mut text, &self.cfa);
            return Err(Error::Corrupt(text));
        }
        if !self.cfa.is_well_formed() {
            let mut text = "malformed cfa ".to_string();
            push_cfa(&mut text, &self.cfa);
            return Err(Error::Corrupt(text));
        }
        let low: bool = self.black_levels[0].is_less(self.white_level)
            && self.black_levels[1].is_less(self.white_level) && self.black_levels[2].is_less(
            self.white_level,
        ) && self.black_levels[3].is_less(self.white_level);
        proof {
            if !low {
                let bad = if !self.black_levels[0].less(self.white_level) {
                    0int
                } else if !self.black_levels[1].less(self.white_level) {
                    1
                } else if !self.black_levels[2].less(self.white_level) {
                    2
                } else {
                    3
                };
                assert(!self@.black_levels[bad].less(self.white_level));
            }
        }
        if self.white_level.num <= 0 || !low {
            let mut text = "levels black [".to_string();
            push_level(&mut text, self.black_levels[0]);
            text.append(", ");
            push_level(&mut text, self.black_levels[1]);
            text.append(", ");
            push_level(&mut text, self.black_levels[2]);
            text.append(", ");
            push_level(&mut text, self.black_levels[3]);
            text.append("] white ");
            self.white_level.push(&mut text);
            return Err(Error::Corrupt(text));
        }
        Ok(())
    }
}

/// A raw whose gaps a camera table filled.
pub open spec fn with_table(raw: RawModel, camera: Option<Camera>) -> RawModel {
    match camera {
        None => raw,
        Some(camera) => RawModel {
            color_matrix: match raw.color_matrix {
                Some(own) => Some(own),
                None => Some(camera.color_matrix),
            },
            black_levels: if camera.black_level is Some && (forall|i: int|
                0 <= i < 4 ==> (#[trigger] raw.black_levels[i]).same(Ratio::whole(0))) {
                all_four(Ratio::whole(camera.black_level->0))
            } else {
                raw.black_levels
            },
            white_level: if camera.white_level is Some && raw.white_level.same(
                Ratio::whole(65535),
            ) {
                Ratio::whole(camera.white_level->0)
            } else {
                raw.white_level
            },
            ..raw
        },
    }
}

/// A text without the space around it.
pub fn trimmed_text(text: &str) -> (r: String)
    ensures
        r@ == trimmed(text@),
{
    let all = characters(text);
    joined(trim(all.as_slice()).as_slice())
}

/// Asking a camera table twice is asking it once, and it changes no level
/// or matrix that the file gave.
pub proof fn law_tables_only_fill_gaps(raw: RawModel, camera: Option<Camera>)
    requires
        raw.black_levels.len() == 4,
    ensures
        with_table(with_table(raw, camera), camera) == with_table(raw, camera),
        !raw.white_level.same(Ratio::whole(65535)) ==> with_table(raw, camera).white_level
            == raw.white_level,
        (exists|i: int| 0 <= i < 4 && !(#[trigger] raw.black_levels[i]).same(Ratio::whole(0)))
            ==> with_table(raw, camera).black_levels == raw.black_levels,
        raw.color_matrix is Some ==> with_table(raw, camera).color_matrix == raw.color_matrix,
{
    let once = with_table(raw, camera);
    let twice = with_table(once, camera);
    assert(twice.black_levels =~= once.black_levels);
}

/// A frame without a flaw is as large as it says and no larger than is
/// plausible, and its picture lies within it and is not empty.
pub proof fn law_sound_frames_are_bounded(raw: RawModel)
    requires
        flaw(raw) is None,
        0 <= raw.width <= usize::MAX,
        0 <= raw.height <= usize::MAX,
        0 <= raw.cpp <= usize::MAX,
    ensures
        raw.data.len() == raw.width * raw.height * raw.cpp,
        raw.data.len() <= MAX_FRAME_SAMPLES,
        0 < raw.crop.width && raw.crop.x + raw.crop.width <= raw.width,
        0 < raw.crop.height && raw.crop.y + raw.crop.height <= raw.height,
{
}

/// What a camera table fills in: a matrix where the file gave none, its
/// black level where the file's four are zero, and its white level where
/// the file's is the one that sixteen bits allow. Nothing else changes.
pub proof fn law_tables_fill_gaps(raw: RawModel, camera: Camera)
    requires
        raw.black_levels.len() == 4,
    ensures
        ({
            let filled = with_table(raw, Some(camera));
            &&& raw.color_matrix is None ==> filled.color_matrix == Some(camera.color_matrix)
            &&& camera.black_level is Some && (forall|i: int|
                0 <= i < 4 ==> (#[trigger] raw.black_levels[i]).num == 0) ==> forall|i: int|
                0 <= i < 4 ==> #[trigger] filled.black_levels[i] == Ratio::whole(
                    camera.black_level->0,
                )
            &&& camera.white_level is Some && raw.white_level == Ratio::whole(65535)
                ==> filled.white_level == Ratio::whole(camera.white_level->0)
            &&& camera.black_level is None ==> filled.black_levels == raw.black_levels
            &&& camera.white_level is None ==> filled.white_level == raw.white_level
            &&& filled.data == raw.data && filled.width == raw.width && filled.height == raw.height
            &&& filled.cpp == raw.cpp && filled.cfa == raw.cfa && filled.crop == raw.crop
            &&& filled.orientation == raw.orientation && filled.wb_coeffs == raw.wb_coeffs
        }),
{
    assert forall|i: int| 0 <= i < 4 && (#[trigger] raw.black_levels[i]).num == 0 implies
        raw.black_levels[i].same(Ratio::whole(0)) by {
        let den = raw.black_levels[i].den as int;
        assert(0 * den == 0);
    }
}

/// Quotients with denominators are ordered as numbers are: of two exactly
/// one is less or they are the same, whole numbers compare as themselves,
/// and the order does not depend on how a quotient is written.
pub proof fn law_quotients_are_ordered(a: Ratio, b: Ratio, m: u32, n: u32, c: Ratio, k: int)
    requires
        k > 0,
        c.num == k * a.num,
        c.den == k * a.den,
    ensures
        a.less(b) || a.same(b) || b.less(a),
        !(a.less(b) && b.less(a)),
        a.same(b) ==> !a.less(b) && !b.less(a),
        Ratio::whole(m).less(Ratio::whole(n)) <==> m < n,
        Ratio::whole(m).same(Ratio::whole(n)) <==> m == n,
        c.same(a),
        c.less(b) <==> a.less(b),
        c.same(b) <==> a.same(b),
{
    let (p, q) = (a.num * b.den, b.num * a.den);
    let (one, two) = (Ratio::whole(m), Ratio::whole(n));
    assert(one.num * two.den == m && two.num * one.den == n) by (nonlinear_arith)
        requires
            one.num == m,
            one.den == 1,
            two.num == n,
            two.den == 1,
    ;
    assert(c.num * a.den == a.num * c.den) by (nonlinear_arith)
        requires
            c.num == k * a.num,
            c.den == k * a.den,
    ;
    assert(c.num * b.den == k * p && b.num * c.den == k * q) by (nonlinear_arith)
        requires
            c.num == k * a.num,
            c.den == k * a.den,
            p == a.num * b.den,
            q == b.num * a.den,
    ;
    assert((k * p < k * q <==> p < q) && (k * p == k * q <==> p == q)) by (nonlinear_arith)
        requires
            k > 0,
    ;
}

/// When a frame has no flaw: it holds as many samples as it says and no
/// more than is plausible, its picture is a part of it with pixels, it has
/// a filter array with one sample a pixel and none with three, the array
/// describes itself, and every black level is below a white one above zero.
pub proof fn law_frames_without_flaws(raw: RawModel)
    requires
        0 <= raw.width <= usize::MAX,
        0 <= raw.height <= usize::MAX,
        0 <= raw.cpp <= usize::MAX,
        raw.black_levels.len() == 4,
    ensures
        flaw(raw) is None <==> {
            &&& raw.width * raw.height <= usize::MAX
            &&& raw.data.len() == raw.width * raw.height * raw.cpp
            &&& raw.data.len() <= 419_430_400
            &&& 0 < raw.crop.width && raw.crop.x + raw.crop.width <= raw.width
            &&& 0 < raw.crop.height && raw.crop.y + raw.crop.height <= raw.height
            &&& raw.cpp == 1 ==> !(raw.cfa.kind is Linear)
            &&& raw.cpp == 3 ==> raw.cfa.kind is Linear
            &&& raw.cfa.well_formed()
            &&& raw.white_level.num > 0
            &&& raw.black_levels[0].less(raw.white_level)
            &&& raw.black_levels[1].less(raw.white_level)
            &&& raw.black_levels[2].less(raw.white_level)
            &&& raw.black_levels[3].less(raw.white_level)
        },
{
    let bs = raw.black_levels;
    assert(raw.width * raw.height * raw.cpp >= 0) by (nonlinear_arith)
        requires
            0 <= raw.width,
            0 <= raw.height,
            0 <= raw.cpp,
    ;
    assert((exists|i: int| 0 <= i < 4 && !#[trigger] bs[i].less(raw.white_level)) <==> !(bs[0].less(
        raw.white_level,
    ) && bs[1].less(raw.white_level) && bs[2].less(raw.white_level) && bs[3].less(
        raw.white_level,
    )));
}

} // verus!
