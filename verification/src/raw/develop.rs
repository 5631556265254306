//! From sensor data to a picture: which level and which multiplier every
//! sample takes, and how the picture is cut and turned.
//!
//! The arithmetic on light is the caller's. What is decided here is exact.

use crate::raw::frame::{color_text, flaw, push_color, Ratio, RawImage, RawModel};
use crate::grid::{lemma_place, lemma_place_inverse, lemma_place_of, place};
use crate::raw::image::{exif_orientation, Cfa, CfaColor, CfaModel, Orientation};
use crate::raw::{corrupt, deep_outcome, Error, Fault, Outcome, Rect, Result};
use crate::text::{decimal, push_decimal};
use vstd::prelude::*;

verus! {

// --------------------------------------------------------------- levels

/// The black level and the channel of every position of the filter
/// array's period (or, for three-sample data, of every channel). Channels
/// are counted R, G, B and the second G.
#[derive(Debug)]
pub struct Levels {
    pub width: usize,
    pub height: usize,
    pub black: Vec<Ratio>,
    pub channel: Vec<usize>,
}

/// [`Levels`] as a mathematical value.
#[verifier::ext_equal]
pub struct LevelsModel {
    pub width: int,
    pub height: int,
    pub black: Seq<Ratio>,
    pub channel: Seq<usize>,
}

impl View for Levels {
    type V = LevelsModel;

    open spec fn view(&self) -> LevelsModel {
        LevelsModel {
            width: self.width as int,
            height: self.height as int,
            black: self.black@,
            channel: self.channel@,
        }
    }
}

impl LevelsModel {
    /// Whether there is a level and a channel for every position.
    pub open spec fn well_formed(self) -> bool {
        &&& 0 < self.width
        &&& 0 < self.height
        &&& self.black.len() == self.width * self.height
        &&& self.channel.len() == self.width * self.height
    }

    /// The position of the period that a sample falls on.
    pub open spec fn position(self, x: int, y: int) -> int {
        place(self.width, y % self.height, x % self.width)
    }
}

/// That a black level is not below white.
pub open spec fn level_fault(black: Ratio, white: Ratio) -> Option<Fault> {
    if black.less(white) {
        None
    } else {
        Some(
            Fault::Corrupt(
                "develop: black "@ + black.text() + " is not below white "@ + white.text(),
            ),
        )
    }
}

fn check_level(black: Ratio, white: Ratio) -> (r: Result<()>)
    ensures
        match r {
            Ok(_) => level_fault(black, white) is None,
            Err(e) => level_fault(black, white) == Some(e@),
        },
{
    if black.is_less(white) {
        return Ok(());
    }
    let mut text = "develop: black ".to_string();
    black.push(&mut text);
    text.append(" is not below white ");
    white.push(&mut text);
    Err(Error::Corrupt(text))
}

/// The levels of three-sample data: one a channel.
pub open spec fn channel_levels(raw: RawModel) -> Outcome<LevelsModel> {
    match level_fault(raw.black_levels[0], raw.white_level) {
        Some(fault) => Err(fault),
        None => match level_fault(raw.black_levels[1], raw.white_level) {
            Some(fault) => Err(fault),
            None => match level_fault(raw.black_levels[2], raw.white_level) {
                Some(fault) => Err(fault),
                None => Ok(
                    LevelsModel {
                        width: 3,
                        height: 1,
                        black: raw.black_levels.take(3),
                        channel: seq![0usize, 1usize, 2usize],
                    },
                ),
            },
        },
    }
}

/// The channel of a colour, for the colours that have one.
pub open spec fn channel_of(color: CfaColor) -> Option<usize> {
    match color {
        CfaColor::Red => Some(0),
        CfaColor::Green => Some(1),
        CfaColor::Blue => Some(2),
        CfaColor::Green2 => Some(3),
        _ => None,
    }
}

/// Whether the four black levels of a frame are one.
pub open spec fn uniform(raw: RawModel) -> bool {
    raw.black_levels[1].same(raw.black_levels[0]) && raw.black_levels[2].same(raw.black_levels[0])
        && raw.black_levels[3].same(raw.black_levels[0])
}

/// The black level of a position. For Bayer the four levels *are* the four
/// positions; for any other array a single level is used, unless the four
/// differ, and then they can only mean one a colour.
pub open spec fn black_at(raw: RawModel, i: int) -> Ratio {
    if raw.cfa.kind is Bayer {
        raw.black_levels[i]
    } else if uniform(raw) {
        raw.black_levels[0]
    } else {
        match channel_of(raw.cfa.colors[i]) {
            Some(channel) => raw.black_levels[channel as int],
            None => raw.black_levels[0],
        }
    }
}

/// What stands in the way of developing a position.
pub open spec fn cell_fault(raw: RawModel, i: int) -> Option<Fault> {
    match channel_of(raw.cfa.colors[i]) {
        None => Some(
            Fault::Unsupported(
                "develop: "@ + color_text(raw.cfa.colors[i])
                    + " filter array (CMYG and four-colour sensors)"@,
            ),
        ),
        Some(_) => level_fault(black_at(raw, i), raw.white_level),
    }
}

/// The first thing that stands in the way, from position `i` on.
pub open spec fn cells_fault(raw: RawModel, cells: int, i: int) -> Option<Fault>
    decreases cells - i,
{
    if i >= cells {
        None
    } else {
        match cell_fault(raw, i) {
            Some(fault) => Some(fault),
            None => cells_fault(raw, cells, i + 1),
        }
    }
}

/// Why the period of a filter array cannot be used. A period is a handful
/// of pixels; one of thousands is a forgery.
pub open spec fn period_fault(cfa: CfaModel) -> Option<Fault> {
    let (width, height) = (cfa.width as int, cfa.height as int);
    if cfa.kind is Linear {
        Some(Fault::Corrupt("develop: one sample a pixel with no filter array"@))
    } else if width == 0 || height == 0 {
        Some(Fault::Corrupt("develop: empty filter pattern"@))
    } else if width * height > 4096 {
        Some(
            Fault::Corrupt(
                "develop: filter pattern of "@ + decimal(width) + "x"@ + decimal(height),
            ),
        )
    } else if cfa.colors.len() != width * height {
        Some(
            Fault::Corrupt(
                "develop: pattern of "@ + decimal(width) + "x"@ + decimal(height) + " with "@
                    + decimal(cfa.colors.len() as int) + " colours"@,
            ),
        )
    } else {
        None
    }
}

/// The levels of a frame under a filter array: one a position.
pub open spec fn position_levels(raw: RawModel) -> Outcome<LevelsModel> {
    match period_fault(raw.cfa) {
        Some(fault) => Err(fault),
        None => {
            let cells = raw.cfa.width * raw.cfa.height;
            match cells_fault(raw, cells as int, 0) {
                Some(fault) => Err(fault),
                None => Ok(
                    LevelsModel {
                        width: raw.cfa.width as int,
                        height: raw.cfa.height as int,
                        black: Seq::new(cells, |i: int| black_at(raw, i)),
                        channel: Seq::new(cells, |i: int| channel_of(raw.cfa.colors[i])->0),
                    },
                ),
            }
        },
    }
}

fn period(cfa: &Cfa) -> (r: Result<(usize, usize)>)
    ensures
        match r {
            Ok((width, height)) => period_fault(cfa@) is None && width == cfa@.width && height
                == cfa@.height && 0 < width * height <= 4096,
            Err(e) => period_fault(cfa@) == Some(e@),
        },
{
    let (width, height, colors): (usize, usize, usize) = match cfa {
        Cfa::Linear => {
            return Err(corrupt("develop: one sample a pixel with no filter array"));
        },
        Cfa::Bayer(_) => (2, 2, 4),
        Cfa::XTrans(_) => (6, 6, 36),
        Cfa::Pattern { width, height, colors } => (*width, *height, colors.len()),
    };
    assert(colors == cfa@.colors.len());
    if width == 0 || height == 0 {
        return Err(corrupt("develop: empty filter pattern"));
    }
    proof {
        assert(0 < width * height) by (nonlinear_arith)
            requires
                0 < width,
                0 < height,
        ;
    }
    let cells: usize = match width.checked_mul(height) {
        Some(n) => n,
        None => 4097,
    };
    if cells > 4096 {
        let mut text = "develop: filter pattern of ".to_string();
        push_decimal(&mut text, width as u64);
        text.append("x");
        push_decimal(&mut text, height as u64);
        return Err(Error::Corrupt(text));
    }
    if colors != cells {
        let mut text = "develop: pattern of ".to_string();
        push_decimal(&mut text, width as u64);
        text.append("x");
        push_decimal(&mut text, height as u64);
        text.append(" with ");
        push_decimal(&mut text, colors as u64);
        text.append(" colours");
        return Err(Error::Corrupt(text));
    }
    Ok((width, height))
}

fn find_channel(color: CfaColor) -> (r: Option<usize>)
    ensures
        r == channel_of(color),
        r matches Some(c) ==> c < 4,
{
    match color {
        CfaColor::Red => Some(0),
        CfaColor::Green => Some(1),
        CfaColor::Blue => Some(2),
        CfaColor::Green2 => Some(3),
        _ => None,
    }
}

fn color_of(cfa: &Cfa, width: usize, height: usize, i: usize) -> (color: CfaColor)
    requires
        width == cfa@.width,
        height == cfa@.height,
        i < width * height,
        cfa@.colors.len() == width * height,
    ensures
        color == cfa@.colors[i as int],
{
    proof {
        assert(width > 0) by (nonlinear_arith)
            requires
                i < width * height,
                0 <= i,
                0 <= width,
                0 <= height,
        ;
        lemma_place_of(width as int, height as int, i as int);
    }
    let (x, y): (usize, usize) = (i % width, i / width);
    assert(x as int % width as int == x && y as int % height as int == y) by {
        vstd::arithmetic::div_mod::lemma_small_mod(x as nat, width as nat);
        vstd::arithmetic::div_mod::lemma_small_mod(y as nat, height as nat);
    }
    match cfa.color_at(x, y) {
        Some(color) => color,
        None => CfaColor::Red,
    }
}

impl Levels {
    /// The levels of three-sample data.
    pub fn per_channel(raw: &RawImage) -> (r: Result<Levels>)
        ensures
            deep_outcome(r) == channel_levels(raw@),
    {
        let mut black: Vec<Ratio> = Vec::new();
        match check_level(raw.black_levels[0], raw.white_level) {
            Ok(_) => {},
            Err(e) => return Err(e),
        }
        match check_level(raw.black_levels[1], raw.white_level) {
            Ok(_) => {},
            Err(e) => return Err(e),
        }
        match check_level(raw.black_levels[2], raw.white_level) {
            Ok(_) => {},
            Err(e) => return Err(e),
        }
        black.push(raw.black_levels[0]);
        black.push(raw.black_levels[1]);
        black.push(raw.black_levels[2]);
        assert(black@ =~= raw@.black_levels.take(3));
        let channel: Vec<usize> = vec![0usize, 1usize, 2usize];
        assert(channel@ =~= seq![0usize, 1usize, 2usize]);
        Ok(Levels { width: 3, height: 1, black, channel })
    }

    /// The levels of a frame under a filter array.
    pub fn per_position(raw: &RawImage) -> (r: Result<Levels>)
        ensures
            deep_outcome(r) == position_levels(raw@),
    {
        let (width, height): (usize, usize) = match period(&raw.cfa) {
            Ok(size) => size,
            Err(e) => return Err(e),
        };
        let cells: usize = width * height;
        let bayer: bool = match raw.cfa {
            Cfa::Bayer(_) => true,
            _ => false,
        };
        let one: bool = raw.black_levels[1].is_same(raw.black_levels[0])
            && raw.black_levels[2].is_same(raw.black_levels[0]) && raw.black_levels[3].is_same(
            raw.black_levels[0],
        );
        let mut black: Vec<Ratio> = Vec::new();
        let mut channels: Vec<usize> = Vec::new();
        let mut i: usize = 0;
        while i < cells
            invariant
                i <= cells,
                cells == width * height,
                width == raw.cfa@.width,
                height == raw.cfa@.height,
                raw.cfa@.colors.len() == cells,
                bayer == (raw.cfa@.kind is Bayer),
                bayer ==> cells == 4,
                one == uniform(raw@),
                period_fault(raw.cfa@) is None,
                cells_fault(raw@, cells as int, 0) == cells_fault(raw@, cells as int, i as int),
                black@ == Seq::new(i as nat, |k: int| black_at(raw@, k)),
                channels@ == Seq::new(i as nat, |k: int| channel_of(raw@.cfa.colors[k])->0),
            decreases cells - i,
        {
            let color = color_of(&raw.cfa, width, height, i);
            let channel: usize = match find_channel(color) {
                Some(channel) => channel,
                None => {
                    let mut text = "develop: ".to_string();
                    push_color(&mut text, color);
                    text.append(" filter array (CMYG and four-colour sensors)");
                    return Err(Error::Unsupported(text));
                },
            };
            let level = if bayer {
                raw.black_levels[i]
            } else if one {
                raw.black_levels[0]
            } else {
                raw.black_levels[channel]
            };
            assert(level == black_at(raw@, i as int));
            match check_level(level, raw.white_level) {
                Ok(_) => {},
                Err(e) => return Err(e),
            }
            black.push(level);
            channels.push(channel);
            i = i + 1;
            assert(black@ =~= Seq::new(i as nat, |k: int| black_at(raw@, k)));
            assert(channels@ =~= Seq::new(
                i as nat,
                |k: int| channel_of(raw@.cfa.colors[k])->0,
            ));
        }
        Ok(Levels { width, height, black, channel: channels })
    }

    /// The position of the period that a sample falls on.
    pub fn position(&self, x: usize, y: usize) -> (i: usize)
        requires
            self@.well_formed(),
        ensures
            i == self@.position(x as int, y as int),
            i < self.black@.len(),
            i < self.channel@.len(),
    {
        assert(self.black@.len() == self.black.len());
        proof {
            lemma_place(
                self.width as int,
                self.height as int,
                y as int % self.height as int,
                x as int % self.width as int,
            );
        }
        (y % self.height) * self.width + x % self.width
    }
}

/// Levels that were found are complete: a level below white and a channel
/// for every position.
pub proof fn law_levels_are_complete(raw: RawModel)
    ensures
        position_levels(raw) matches Ok(levels) ==> levels.well_formed() && forall|i: int|
            0 <= i < levels.black.len() ==> (#[trigger] levels.black[i]).less(raw.white_level)
                && levels.channel[i] < 4,
{
    if let Ok(levels) = position_levels(raw) {
        let cells = raw.cfa.width * raw.cfa.height;
        assert forall|i: int| 0 <= i < levels.black.len() implies (#[trigger] levels.black[i]).less(
            raw.white_level,
        ) && levels.channel[i] < 4 by {
            lemma_cells(raw, cells as int, 0, i);
        }
    }
}

proof fn lemma_cells(raw: RawModel, cells: int, from: int, i: int)
    requires
        0 <= from <= i < cells,
        cells_fault(raw, cells, from) is None,
    ensures
        cell_fault(raw, i) is None,
    decreases i - from,
{
    if from < i {
        lemma_cells(raw, cells, from + 1, i);
    }
}

/// Every pixel has the channel of the filter above it. Under a Bayer array
/// its level is that of its place in the two by two cell; under any other
/// it is the one level of the frame, or where the four differ that of the
/// channel.
pub proof fn law_levels_follow_the_filters(raw: RawModel, x: int, y: int)
    requires
        position_levels(raw) is Ok,
        raw.cfa.kind is Bayer ==> raw.cfa.width == 2 && raw.cfa.height == 2,
    ensures
        ({
            let levels = position_levels(raw)->Ok_0;
            let i = levels.position(x, y);
            let filter = raw.cfa.color(x, y);
            let (b, bs) = (levels.black[i], raw.black_levels);
            let alike = bs[0].same(bs[1]) && bs[0].same(bs[2]) && bs[0].same(bs[3]);
            &&& 0 <= i < levels.black.len()
            &&& filter == Some(CfaColor::Red) ==> levels.channel[i] == 0
            &&& filter == Some(CfaColor::Green) ==> levels.channel[i] == 1
            &&& filter == Some(CfaColor::Blue) ==> levels.channel[i] == 2
            &&& filter == Some(CfaColor::Green2) ==> levels.channel[i] == 3
            &&& filter == Some(CfaColor::Red) || filter == Some(CfaColor::Green) || filter == Some(
                CfaColor::Blue,
            ) || filter == Some(CfaColor::Green2)
            &&& raw.cfa.kind is Bayer ==> b == bs[2 * (y % 2) + x % 2]
            &&& !(raw.cfa.kind is Bayer) && alike ==> b == bs[0]
            &&& !(raw.cfa.kind is Bayer) && !alike ==> b == bs[levels.channel[i] as int]
        }),
{
    let levels = position_levels(raw)->Ok_0;
    let (w, h) = (raw.cfa.width as int, raw.cfa.height as int);
    vstd::arithmetic::div_mod::lemma_mod_bound(x, w);
    vstd::arithmetic::div_mod::lemma_mod_bound(y, h);
    lemma_place(w, h, y % h, x % w);
    let i = levels.position(x, y);
    lemma_cells(raw, w * h, 0, i);
    assert(raw.cfa.color(x, y) == Some(raw.cfa.colors[i]));
    if raw.cfa.kind is Bayer {
        let row = y % 2;
        assert(row * w == 2 * row) by (nonlinear_arith)
            requires
                w == 2,
        ;
    }
}

/// A frame of three samples a pixel has their first three levels, one a
/// channel and each below white, or is refused.
pub proof fn law_channels_have_their_own_levels(raw: RawModel)
    requires
        raw.black_levels.len() == 4,
    ensures
        channel_levels(raw) is Ok <==> forall|c: int|
            0 <= c < 3 ==> (#[trigger] raw.black_levels[c]).less(raw.white_level),
        channel_levels(raw) matches Ok(levels) ==> forall|x: int, y: int, c: int|
            0 <= c < 3 && x % 3 == c ==> {
                let i = #[trigger] levels.position(x, y);
                levels.channel[i] == c && levels.black[i] == #[trigger] raw.black_levels[c]
            },
{
    if channel_levels(raw) is Err {
        assert(!raw.black_levels[0].less(raw.white_level) || !raw.black_levels[1].less(
            raw.white_level,
        ) || !raw.black_levels[2].less(raw.white_level));
    } else {
        let levels = channel_levels(raw)->Ok_0;
        assert forall|x: int, y: int, c: int| 0 <= c < 3 && x % 3 == c implies ({
            let i = #[trigger] levels.position(x, y);
            levels.channel[i] == c && levels.black[i] == #[trigger] raw.black_levels[c]
        }) by {
            assert(y % 1 == 0);
            assert(levels.position(x, y) == c);
        }
    }
}

// -------------------------------------------------------- white balance

/// The multipliers to use: each of `source` that is usable, and one for
/// the others; a second green that is not usable takes the first's.
pub open spec fn multipliers<T>(source: Seq<T>, usable: Seq<bool>, one: T) -> Seq<T> {
    let green = if usable[1] {
        source[1]
    } else {
        one
    };
    seq![
        if usable[0] {
            source[0]
        } else {
            one
        },
        green,
        if usable[2] {
            source[2]
        } else {
            one
        },
        if usable[3] {
            source[3]
        } else {
            green
        },
    ]
}

/// Replaces the multipliers that are not usable.
pub fn white_balance<T: Copy>(source: [T; 4], usable: [bool; 4], one: T) -> (out: [T; 4])
    ensures
        out@ == multipliers(source@, usable@, one),
{
    let green: T = if usable[1] {
        source[1]
    } else {
        one
    };
    let out: [T; 4] = [
        if usable[0] {
            source[0]
        } else {
            one
        },
        green,
        if usable[2] {
            source[2]
        } else {
            one
        },
        if usable[3] {
            source[3]
        } else {
            green
        },
    ];
    assert(out@ =~= multipliers(source@, usable@, one));
    out
}

/// A usable multiplier is kept. One that is not is one, except that a
/// second green then follows a first that is usable.
pub proof fn law_unusable_multipliers_are_replaced<T>(
    source: Seq<T>,
    usable: Seq<bool>,
    one: T,
    k: int,
)
    requires
        0 <= k < 4,
    ensures
        multipliers(source, usable, one).len() == 4,
        usable[k] ==> multipliers(source, usable, one)[k] == source[k],
        !usable[k] && (k < 3 || !usable[1]) ==> multipliers(source, usable, one)[k] == one,
        !usable[3] && usable[1] ==> multipliers(source, usable, one)[3] == source[1],
{
}

// ------------------------------------------------- cutting and turning

/// The size of a picture once it is turned.
pub open spec fn turned_size(width: int, height: int, orientation: Orientation) -> (int, int) {
    if orientation.swaps() {
        (height, width)
    } else {
        (width, height)
    }
}

/// The stored pixel that a displayed one shows.
pub open spec fn stored(width: int, height: int, orientation: Orientation, dx: int, dy: int) -> (
    int,
    int,
) {
    match orientation {
        Orientation::Normal => (dx, dy),
        Orientation::MirrorHorizontal => (width - 1 - dx, dy),
        Orientation::Rotate180 => (width - 1 - dx, height - 1 - dy),
        Orientation::MirrorVertical => (dx, height - 1 - dy),
        Orientation::Transpose => (dy, dx),
        Orientation::Rotate90CW => (dy, height - 1 - dx),
        Orientation::Transverse => (width - 1 - dy, height - 1 - dx),
        Orientation::Rotate270CW => (width - 1 - dy, dx),
    }
}

/// One sample of a pixel of a picture with three samples a pixel.
pub open spec fn pixel<T>(src: Seq<T>, width: int, x: int, y: int, c: int) -> T {
    src[place(width, y, x) * 3 + c]
}

/// A picture, turned.
pub open spec fn turned<T>(src: Seq<T>, width: int, height: int, orientation: Orientation) -> Seq<T> {
    let (dw, dh) = turned_size(width, height, orientation);
    Seq::new(
        (width * height * 3) as nat,
        |i: int|
            {
                let (sx, sy) = stored(width, height, orientation, (i / 3) % dw, (i / 3) / dw);
                pixel(src, width, sx, sy, i % 3)
            },
    )
}

proof fn lemma_stored(width: int, height: int, orientation: Orientation, dx: int, dy: int)
    requires
        ({
            let (dw, dh) = turned_size(width, height, orientation);
            0 <= dx < dw && 0 <= dy < dh
        }),
    ensures
        ({
            let (sx, sy) = stored(width, height, orientation, dx, dy);
            0 <= sx < width && 0 <= sy < height
        }),
{
}

proof fn lemma_triple(n: int, i: int)
    requires
        0 <= i < n * 3,
    ensures
        0 <= i / 3 < n,
        0 <= i % 3 < 3,
        i == i / 3 * 3 + i % 3,
{
}

/// Rearranges a picture for an orientation, as a gather over displayed
/// pixels.
pub fn orient<T: Copy>(src: &[T], width: usize, height: usize, orientation: Orientation) -> (out: Vec<
    T,
>)
    requires
        src@.len() == width * height * 3,
    ensures
        out@ == turned(src@, width as int, height as int, orientation),
{
    assert(src@.len() == src.len());
    let ghost (w, h) = (width as int, height as int);
    let swap: bool = orientation.transposes();
    let (dw, dh): (usize, usize) = if swap {
        (height, width)
    } else {
        (width, height)
    };
    let mut out: Vec<T> = Vec::new();
    proof {
        assert(dw * dh == w * h) by (nonlinear_arith)
            requires
                dw == w && dh == h || dw == h && dh == w,
        ;
        assert(0 <= w * h) by (nonlinear_arith)
            requires
                0 <= w,
                0 <= h,
        ;
    }
    let pixels: usize = src.len() / 3;
    assert(pixels == w * h);
    let ghost goal = turned(src@, w, h, orientation);
    let mut p: usize = 0;
    while p < pixels
        invariant
            src@.len() == src.len(),
            w == width,
            h == height,
            src@.len() == w * h * 3,
            pixels == w * h,
            dw * dh == w * h,
            turned_size(w, h, orientation) == (dw as int, dh as int),
            p <= pixels,
            goal == turned(src@, w, h, orientation),
            out@ == goal.take(3 * p),
        decreases pixels - p,
    {
        proof {
            assert(dw > 0) by (nonlinear_arith)
                requires
                    0 <= p < dw * dh,
                    0 <= dw,
                    0 <= dh,
            ;
            lemma_place_of(dw as int, dh as int, p as int);
            lemma_stored(w, h, orientation, p as int % dw as int, p as int / dw as int);
        }
        let (dx, dy): (usize, usize) = (p % dw, p / dw);
        let (sx, sy): (usize, usize) = match orientation {
            Orientation::Normal => (dx, dy),
            Orientation::MirrorHorizontal => (width - 1 - dx, dy),
            Orientation::Rotate180 => (width - 1 - dx, height - 1 - dy),
            Orientation::MirrorVertical => (dx, height - 1 - dy),
            Orientation::Transpose => (dy, dx),
            Orientation::Rotate90CW => (dy, height - 1 - dx),
            Orientation::Transverse => (width - 1 - dy, height - 1 - dx),
            Orientation::Rotate270CW => (width - 1 - dy, dx),
        };
        assert((sx as int, sy as int) == stored(w, h, orientation, dx as int, dy as int));
        proof {
            lemma_place(w, h, sy as int, sx as int);
        }
        let s: usize = (sy * width + sx) * 3;
        out.push(src[s]);
        out.push(src[s + 1]);
        out.push(src[s + 2]);
        proof {
            let q = p as int;
            assert((3 * q) / 3 == q && (3 * q + 1) / 3 == q && (3 * q + 2) / 3 == q);
            assert((3 * q) % 3 == 0 && (3 * q + 1) % 3 == 1 && (3 * q + 2) % 3 == 2);
            assert(goal[3 * q] == src@[s as int]);
            assert(goal[3 * q + 1] == src@[s + 1]);
            assert(goal[3 * q + 2] == src@[s + 2]);
            assert(goal.take(3 * (q + 1)) =~= goal.take(3 * q).push(goal[3 * q]).push(
                goal[3 * q + 1],
            ).push(goal[3 * q + 2]));
        }
        p = p + 1;
    }
    assert(goal.take(3 * pixels) =~= goal);
    out
}

/// The orientation that undoes another.
pub open spec fn undoing(orientation: Orientation) -> Orientation {
    match orientation {
        Orientation::Rotate90CW => Orientation::Rotate270CW,
        Orientation::Rotate270CW => Orientation::Rotate90CW,
        other => other,
    }
}

/// Turning a picture and turning it back gives the picture.
pub proof fn law_turning_back_undoes<T>(
    src: Seq<T>,
    width: int,
    height: int,
    orientation: Orientation,
)
    requires
        0 <= width,
        0 <= height,
        src.len() == width * height * 3,
    ensures
        ({
            let (dw, dh) = turned_size(width, height, orientation);
            turned(turned(src, width, height, orientation), dw, dh, undoing(orientation)) == src
        }),
{
    let (dw, dh) = turned_size(width, height, orientation);
    let once = turned(src, width, height, orientation);
    let back = undoing(orientation);
    let twice = turned(once, dw, dh, back);
    assert(dw * dh == width * height) by (nonlinear_arith)
        requires
            dw == width && dh == height || dw == height && dh == width,
    ;
    assert(0 <= width * height) by (nonlinear_arith)
        requires
            0 <= width,
            0 <= height,
    ;
    assert forall|i: int| 0 <= i < src.len() implies twice[i] == src[i] by {
        lemma_triple(width * height, i);
        let (p, c) = (i / 3, i % 3);
        assert(width > 0) by (nonlinear_arith)
            requires
                0 <= p < width * height,
                0 <= width,
                0 <= height,
        ;
        lemma_place_of(width, height, p);
        let (x, y) = (p % width, p / width);
        let (mx, my) = stored(dw, dh, back, x, y);
        lemma_stored(dw, dh, back, x, y);
        lemma_place(dw, dh, my, mx);
        lemma_place_inverse(dw, my, mx);
        let k = place(dw, my, mx) * 3 + c;
        assert(k / 3 == place(dw, my, mx) && k % 3 == c);
        assert(twice[i] == once[k]);
        assert(stored(width, height, orientation, mx, my) == (x, y));
        assert(once[k] == pixel(src, width, x, y, c));
    }
    assert(twice =~= src);
}

/// Where the orientation tag says that a stored pixel is displayed. Values
/// 1 to 8 say at which side of the picture the stored row 0 and column 0
/// are: top and left, top and right, bottom and right, bottom and left, left
/// and top, right and top, right and bottom, left and bottom. Any other
/// value says nothing.
pub open spec fn displayed(value: int, width: int, height: int, x: int, y: int) -> (int, int) {
    let row = if value == 3 || value == 4 || value == 6 || value == 7 {
        height - 1 - y
    } else {
        y
    };
    let col = if value == 2 || value == 3 || value == 7 || value == 8 {
        width - 1 - x
    } else {
        x
    };
    if 5 <= value <= 8 {
        (row, col)
    } else {
        (col, row)
    }
}

/// A picture is turned as its orientation tag says: every stored pixel is
/// shown where the tag puts it.
pub proof fn law_pictures_are_turned_by_their_tag<T>(
    src: Seq<T>,
    width: int,
    height: int,
    value: int,
    x: int,
    y: int,
    channel: int,
)
    requires
        src.len() == width * height * 3,
        0 <= x < width,
        0 <= y < height,
        0 <= channel < 3,
    ensures
        ({
            let (dw, dh) = if 5 <= value <= 8 {
                (height, width)
            } else {
                (width, height)
            };
            let (dx, dy) = displayed(value, width, height, x, y);
            &&& 0 <= dx < dw
            &&& 0 <= dy < dh
            &&& turned_size(width, height, exif_orientation(value)) == (dw, dh)
            &&& turned(src, width, height, exif_orientation(value)).len() == src.len()
            &&& turned(src, width, height, exif_orientation(value))[(dy * dw + dx) * 3 + channel]
                == src[(y * width + x) * 3 + channel]
        }),
{
    let orientation = exif_orientation(value);
    let (dw, dh) = turned_size(width, height, orientation);
    let (dx, dy) = displayed(value, width, height, x, y);
    assert(stored(width, height, orientation, dx, dy) == (x, y));
    lemma_place(dw, dh, dy, dx);
    lemma_place_inverse(dw, dy, dx);
    assert(dw * dh == width * height) by (nonlinear_arith)
        requires
            dw == width && dh == height || dw == height && dh == width,
    ;
    let i = (dy * dw + dx) * 3 + channel;
    assert(i / 3 == place(dw, dy, dx) && i % 3 == channel);
}

/// A picture, cut.
pub open spec fn cut<T>(src: Seq<T>, width: int, crop: Rect) -> Seq<T> {
    Seq::new(
        (crop.width * crop.height * 3) as nat,
        |i: int|
            pixel(
                src,
                width,
                crop.x + (i / 3) % crop.width as int,
                crop.y + (i / 3) / crop.width as int,
                i % 3,
            ),
    )
}

/// Cuts a rectangle out of a picture.
pub fn cut_out<T: Copy>(src: &[T], width: usize, height: usize, crop: Rect) -> (out: Vec<T>)
    requires
        src@.len() == width * height * 3,
        crop.x + crop.width <= width,
        crop.y + crop.height <= height,
    ensures
        out@ == cut(src@, width as int, crop),
{
    assert(src@.len() == src.len());
    let ghost (w, h) = (width as int, height as int);
    let ghost (cw, ch) = (crop.width as int, crop.height as int);
    proof {
        assert(0 <= cw * ch <= w * h) by (nonlinear_arith)
            requires
                0 <= cw <= w,
                0 <= ch <= h,
        ;
    }
    let pixels: usize = crop.width * crop.height;
    let ghost goal = cut(src@, w, crop);
    let mut out: Vec<T> = Vec::new();
    let mut p: usize = 0;
    while p < pixels
        invariant
            src@.len() == src.len(),
            w == width,
            h == height,
            cw == crop.width,
            ch == crop.height,
            src@.len() == w * h * 3,
            crop.x + crop.width <= width,
            crop.y + crop.height <= height,
            pixels == cw * ch,
            p <= pixels,
            goal == cut(src@, w, crop),
            out@ == goal.take(3 * p),
        decreases pixels - p,
    {
        proof {
            assert(cw > 0) by (nonlinear_arith)
                requires
                    0 <= p < cw * ch,
                    0 <= cw,
                    0 <= ch,
            ;
            lemma_place_of(cw, ch, p as int);
            lemma_place(w, h, crop.y + p as int / cw, crop.x + p as int % cw);
        }
        let (x, y): (usize, usize) = (crop.x + p % crop.width, crop.y + p / crop.width);
        let s: usize = (y * width + x) * 3;
        out.push(src[s]);
        out.push(src[s + 1]);
        out.push(src[s + 2]);
        proof {
            let q = p as int;
            assert((3 * q) / 3 == q && (3 * q + 1) / 3 == q && (3 * q + 2) / 3 == q);
            assert((3 * q) % 3 == 0 && (3 * q + 1) % 3 == 1 && (3 * q + 2) % 3 == 2);
            assert(goal[3 * q] == src@[s as int]);
            assert(goal[3 * q + 1] == src@[s + 1]);
            assert(goal[3 * q + 2] == src@[s + 2]);
            assert(goal.take(3 * (q + 1)) =~= goal.take(3 * q).push(goal[3 * q]).push(
                goal[3 * q + 1],
            ).push(goal[3 * q + 2]));
        }
        p = p + 1;
    }
    assert(goal.take(3 * pixels) =~= goal);
    out
}

/// A cut picture holds the pixels of the rectangle, row by row.
pub proof fn law_cuts_hold_their_pixels<T>(
    src: Seq<T>,
    width: int,
    crop: Rect,
    x: int,
    y: int,
    c: int,
)
    requires
        0 <= x < crop.width,
        0 <= y < crop.height,
        0 <= c < 3,
    ensures
        cut(src, width, crop).len() == 3 * (crop.width * crop.height),
        cut(src, width, crop)[3 * (y * crop.width + x) + c] == src[3 * ((crop.y + y) * width
            + crop.x + x) + c],
{
    let (w, h) = (crop.width as int, crop.height as int);
    lemma_place(w, h, y, x);
    lemma_place_inverse(w, y, x);
    let p = y * w + x;
    let i = 3 * p + c;
    assert(i / 3 == p && i % 3 == c);
    assert(w * h * 3 == 3 * (w * h)) by (nonlinear_arith);
    let at = (crop.y + y) * width + (crop.x + x);
    assert(at == (crop.y + y) * width + crop.x + x);
    assert(at * 3 == 3 * at);
}

/// Cutting a picture to its whole size leaves it as it is.
pub proof fn law_whole_cut_changes_nothing<T>(src: Seq<T>, width: usize, height: usize)
    requires
        src.len() == width * height * 3,
    ensures
        cut(src, width as int, Rect { x: 0, y: 0, width, height }) == src,
{
    let whole = cut(src, width as int, Rect { x: 0, y: 0, width, height });
    assert(0 <= width * height) by (nonlinear_arith)
        requires
            0 <= width,
            0 <= height,
    ;
    assert forall|i: int| 0 <= i < src.len() implies whole[i] == src[i] by {
        lemma_triple(width * height, i);
        assert(width > 0) by (nonlinear_arith)
            requires
                0 <= i / 3 < width * height,
                0 <= width,
                0 <= height,
        ;
        lemma_place_of(width as int, height as int, i / 3);
    }
    assert(whole =~= src);
}

// ------------------------------------------------------------- the plan

/// Which of the last steps to take.
#[derive(Debug, Clone, Copy, PartialEq, Eq, Structural)]
pub struct Steps {
    /// Cut the picture to the area meant to be shown.
    pub crop: bool,
    /// Turn it the way the camera was held.
    pub orient: bool,
}

/// How a frame is developed: the level and the channel of every sample,
/// whether the samples have yet to be interpolated, and the last steps.
#[derive(Debug)]
pub struct Plan {
    pub levels: Levels,
    /// Whether there is one sample a pixel, to be interpolated.
    pub mosaic: bool,
    pub crop: Rect,
    pub orientation: Orientation,
    /// The size of the picture that comes out.
    pub width: usize,
    pub height: usize,
}

/// [`Plan`] as a mathematical value.
pub struct PlanModel {
    pub levels: LevelsModel,
    pub mosaic: bool,
    pub crop: Rect,
    pub orientation: Orientation,
    pub size: (int, int),
}

impl View for Plan {
    type V = PlanModel;

    open spec fn view(&self) -> PlanModel {
        PlanModel {
            levels: self.levels@,
            mosaic: self.mosaic,
            crop: self.crop,
            orientation: self.orientation,
            size: (self.width as int, self.height as int),
        }
    }
}

/// How a frame is developed. One sample a pixel comes under a filter
/// array and three under none; nothing else means anything here.
pub open spec fn planned(raw: RawModel, steps: Steps) -> Outcome<PlanModel> {
    match flaw(raw) {
        Some(fault) => Err(fault),
        None => if raw.cpp != 1 && raw.cpp != 3 {
            Err(Fault::Unsupported("develop: "@ + decimal(raw.cpp) + " samples a pixel"@))
        } else {
            match if raw.cpp == 3 {
                channel_levels(raw)
            } else {
                position_levels(raw)
            } {
                Err(fault) => Err(fault),
                Ok(levels) => {
                    let crop = if steps.crop {
                        raw.crop
                    } else {
                        Rect {
                            x: 0,
                            y: 0,
                            width: raw.width as usize,
                            height: raw.height as usize,
                        }
                    };
                    let orientation = if steps.orient {
                        raw.orientation
                    } else {
                        Orientation::Normal
                    };
                    Ok(
                        PlanModel {
                            levels,
                            mosaic: raw.cpp == 1,
                            crop,
                            orientation,
                            size: turned_size(crop.width as int, crop.height as int, orientation),
                        },
                    )
                },
            }
        },
    }
}

/// Decides how a frame is developed.
pub fn plan(raw: &RawImage, steps: Steps) -> (r: Result<Plan>)
    ensures
        deep_outcome(r) == planned(raw@, steps),
        r matches Ok(plan) ==> plan.crop.x + plan.crop.width <= raw.width && plan.crop.y
            + plan.crop.height <= raw.height,
{
    match raw.validate() {
        Ok(_) => {},
        Err(e) => return Err(e),
    }
    if raw.cpp != 1 && raw.cpp != 3 {
        let mut text = "develop: ".to_string();
        push_decimal(&mut text, raw.cpp as u64);
        text.append(" samples a pixel");
        return Err(Error::Unsupported(text));
    }
    let levels = match if raw.cpp == 3 {
        Levels::per_channel(raw)
    } else {
        Levels::per_position(raw)
    } {
        Ok(levels) => levels,
        Err(e) => return Err(e),
    };
    let crop = if steps.crop {
        raw.crop
    } else {
        Rect { x: 0, y: 0, width: raw.width, height: raw.height }
    };
    let orientation = if steps.orient {
        raw.orientation
    } else {
        Orientation::Normal
    };
    let (width, height): (usize, usize) = if orientation.transposes() {
        (crop.height, crop.width)
    } else {
        (crop.width, crop.height)
    };
    Ok(Plan { levels, mosaic: raw.cpp == 1, crop, orientation, width, height })
}

/// A frame that can be developed at all meets no fault in its levels: the
/// checks of a consistent frame cover every level that a position takes.
pub proof fn law_consistent_levels_are_below_white(raw: RawModel, i: int)
    requires
        flaw(raw) is None,
        raw.black_levels.len() == 4,
        raw.cpp == 1,
        raw.cfa.kind is Bayer ==> raw.cfa.colors.len() == 4,
        0 <= i < raw.cfa.colors.len(),
    ensures
        level_fault(black_at(raw, i), raw.white_level) is None,
{
    assert forall|k: int| 0 <= k < 4 implies (#[trigger] raw.black_levels[k]).less(
        raw.white_level,
    ) by {
        if !raw.black_levels[k].less(raw.white_level) {
            assert(flaw(raw) is Some);
        }
    }
}

/// What a plan says: the cut and the turn of the steps that are asked for
/// and of no others, and a size that is the cut's, with its sides exchanged
/// where the tag's value is five or more.
pub proof fn law_plans_take_the_steps_asked_for(raw: RawModel, steps: Steps, tag: int)
    requires
        1 <= tag <= 8,
        raw.orientation == exif_orientation(tag),
        0 <= raw.width <= usize::MAX,
        0 <= raw.height <= usize::MAX,
    ensures
        planned(raw, steps) matches Ok(plan) ==> {
            let (w, h) = if steps.crop {
                (raw.crop.width as int, raw.crop.height as int)
            } else {
                (raw.width, raw.height)
            };
            &&& raw.cpp == 1 || raw.cpp == 3
            &&& plan.mosaic <==> raw.cpp == 1
            &&& steps.crop ==> plan.crop == raw.crop
            &&& !steps.crop ==> plan.crop.x == 0 && plan.crop.y == 0 && plan.crop.width
                == raw.width && plan.crop.height == raw.height
            &&& steps.orient ==> plan.orientation == raw.orientation
            &&& !steps.orient ==> plan.orientation == exif_orientation(1)
            &&& steps.orient && tag >= 5 ==> plan.size == (h, w)
            &&& !(steps.orient && tag >= 5) ==> plan.size == (w, h)
        },
{
}

} // verus!
