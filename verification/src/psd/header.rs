//! File header section: the first twenty-six bytes.

use crate::bytes::{
    be16, be32, has_tag, holds_number, law_numbers_are_read_from_their_bytes, tagged,
};
use crate::color::{ColorMode, Depth};
use crate::psd::cursor::{Cursor, Reader};
use crate::psd::{psd_outcome, unsupported, PsdError, PsdFault, PsdOutcome, PsdResult};
use crate::text::{decimal, push_decimal};
use vstd::prelude::*;

verus! {

/// Colour mode numbers.
pub const MODE_BITMAP: u16 = 0;

pub const MODE_GRAYSCALE: u16 = 1;

pub const MODE_INDEXED: u16 = 2;

pub const MODE_RGB: u16 = 3;

pub const MODE_CMYK: u16 = 4;

pub const MODE_MULTICHANNEL: u16 = 7;

pub const MODE_DUOTONE: u16 = 8;

pub const MODE_LAB: u16 = 9;

/// What the header says of the document.
#[derive(Debug, Clone, Copy, PartialEq, Eq, Structural)]
pub struct Header {
    /// True for PSB (version 2) files. PSB differs from PSD only in the
    /// header version, larger dimension limits, and certain length fields
    /// widening.
    pub psb: bool,
    pub channels: u16,
    pub width: u32,
    pub height: u32,
    pub depth: Depth,
    pub mode: ColorMode,
}

impl Header {
    /// Whether the numbers are those of a readable file.
    pub open spec fn well_formed(self) -> bool {
        let most: int = if self.psb {
            300_000
        } else {
            30_000
        };
        1 <= self.channels <= 56 && 1 <= self.width <= most && 1 <= self.height <= most
    }

    /// Number of colour channels, before any alpha, for the colour mode.
    pub fn base_channels(&self) -> (n: u16)
        ensures
            n == self.mode.planes(),
    {
        self.mode.channels() as u16
    }
}

/// The depth that a number of bits stands for.
pub open spec fn depth_of(bits: int) -> PsdOutcome<Depth> {
    if bits == 8 {
        Ok(Depth::Eight)
    } else if bits == 16 {
        Ok(Depth::Sixteen)
    } else if bits == 32 {
        Ok(Depth::ThirtyTwo)
    } else if bits == 1 {
        Err(PsdFault::Unsupported("1-bit (Bitmap-depth) PSD files are not supported yet"@))
    } else {
        Err(PsdFault::Corrupt("invalid bit depth "@ + decimal(bits)))
    }
}

/// The refusal of a colour mode.
pub open spec fn refused_mode(name: Seq<char>) -> PsdFault {
    PsdFault::Unsupported(name + " color mode is not supported yet (only RGB and Grayscale)"@)
}

/// The colour mode that a number stands for. Only RGB and grayscale are
/// read; the other modes are known by name and refused.
pub open spec fn mode_of(number: int) -> PsdOutcome<ColorMode> {
    if number == MODE_RGB {
        Ok(ColorMode::Rgb)
    } else if number == MODE_GRAYSCALE {
        Ok(ColorMode::Grayscale)
    } else if number == MODE_BITMAP {
        Err(refused_mode("Bitmap"@))
    } else if number == MODE_INDEXED {
        Err(refused_mode("Indexed"@))
    } else if number == MODE_CMYK {
        Err(refused_mode("CMYK"@))
    } else if number == MODE_LAB {
        Err(refused_mode("Lab"@))
    } else if number == MODE_DUOTONE {
        Err(refused_mode("Duotone"@))
    } else if number == MODE_MULTICHANNEL {
        Err(refused_mode("Multichannel"@))
    } else {
        Err(PsdFault::Corrupt("unknown color mode "@ + decimal(number)))
    }
}

/// The header that its numbers make.
pub open spec fn header_of(
    psb: bool,
    channels: int,
    height: int,
    width: int,
    bits: int,
    mode: int,
) -> PsdOutcome<Header> {
    let most: int = if psb {
        300_000
    } else {
        30_000
    };
    if channels < 1 || channels > 56 {
        Err(
            PsdFault::Corrupt(
                "channel count "@ + decimal(channels) + " out of range 1..=56"@,
            ),
        )
    } else if width == 0 || height == 0 || width > most || height > most {
        Err(
            PsdFault::Corrupt(
                "dimensions "@ + decimal(width) + "x"@ + decimal(height) + " out of range 1..="@
                    + decimal(most),
            ),
        )
    } else {
        match depth_of(bits) {
            Err(fault) => Err(fault),
            Ok(depth) => match mode_of(mode) {
                Err(fault) => Err(fault),
                Ok(mode) => Ok(
                    Header {
                        psb,
                        channels: channels as u16,
                        width: width as u32,
                        height: height as u32,
                        depth,
                        mode,
                    },
                ),
            },
        }
    }
}

/// A large document differs from a plain one only in how large it may be:
/// the numbers of a plain header make a large one with the same fields, and
/// a plain header that is refused, though not for its size, is refused as a
/// large one for the same reason.
pub proof fn law_large_documents_only_grow(
    channels: int,
    height: int,
    width: int,
    bits: int,
    mode: int,
)
    ensures
        header_of(false, channels, height, width, bits, mode) matches Ok(header) ==> header_of(
            true,
            channels,
            height,
            width,
            bits,
            mode,
        ) == PsdOutcome::<Header>::Ok((Header { psb: true, ..header })),
        width <= 30_000 && height <= 30_000 && width != 0 && height != 0 && header_of(
            false,
            channels,
            height,
            width,
            bits,
            mode,
        ) is Err ==> header_of(true, channels, height, width, bits, mode) == header_of(
            false,
            channels,
            height,
            width,
            bits,
            mode,
        ),
{
}

/// The fields that follow the version: reserved bytes, channels, height,
/// width, depth and mode. Reading stops at the first that is missing.
pub open spec fn fields_at(r: Reader, psb: bool) -> (PsdOutcome<Header>, Reader) {
    let (channels, height, width) = (r.past(6), r.past(8), r.past(12));
    let (bits, mode) = (r.past(16), r.past(18));
    if r.left() < 6 {
        (Err(r.short(6)), r)
    } else if channels.left() < 2 {
        (Err(channels.short(2)), channels)
    } else if height.left() < 4 {
        (Err(height.short(4)), height)
    } else if width.left() < 4 {
        (Err(width.short(4)), width)
    } else if bits.left() < 2 {
        (Err(bits.short(2)), bits)
    } else if mode.left() < 2 {
        (Err(mode.short(2)), mode)
    } else {
        (
            header_of(
                psb,
                be16(r.data, channels.pos),
                be32(r.data, height.pos),
                be32(r.data, width.pos),
                be16(r.data, bits.pos),
                be16(r.data, mode.pos),
            ),
            r.past(20),
        )
    }
}

/// The header at a cursor, and where reading it leaves the cursor.
pub open spec fn header_at(r: Reader) -> (PsdOutcome<Header>, Reader) {
    if r.left() < 4 {
        (Err(PsdFault::BadSignature), r)
    } else if !tagged(r.data, r.pos, "8BPS"@) {
        (Err(PsdFault::BadSignature), r.past(4))
    } else {
        let a = r.past(4);
        match a.number(2) {
            Err(fault) => (Err(fault), a),
            Ok(version) => if version != 1 && version != 2 {
                (Err(PsdFault::Corrupt("unknown PSD version "@ + decimal(version))), a.past(2))
            } else {
                fields_at(a.past(2), version == 2)
            },
        }
    }
}

fn depth_from(bits: u16) -> (r: PsdResult<Depth>)
    ensures
        psd_outcome(r) == depth_of(bits as int),
{
    match bits {
        8 => Ok(Depth::Eight),
        16 => Ok(Depth::Sixteen),
        32 => Ok(Depth::ThirtyTwo),
        1 => Err(unsupported("1-bit (Bitmap-depth) PSD files are not supported yet")),
        _ => {
            let mut text = "invalid bit depth ".to_string();
            push_decimal(&mut text, bits as u64);
            Err(PsdError::Corrupt(text))
        },
    }
}

fn unsupported_mode(name: &str) -> (e: PsdError)
    ensures
        e@ == refused_mode(name@),
{
    let mut text = name.to_string();
    text.append(" color mode is not supported yet (only RGB and Grayscale)");
    PsdError::Unsupported(text)
}

fn mode_from(number: u16) -> (r: PsdResult<ColorMode>)
    ensures
        psd_outcome(r) == mode_of(number as int),
{
    if number == MODE_RGB {
        Ok(ColorMode::Rgb)
    } else if number == MODE_GRAYSCALE {
        Ok(ColorMode::Grayscale)
    } else if number == MODE_BITMAP {
        Err(unsupported_mode("Bitmap"))
    } else if number == MODE_INDEXED {
        Err(unsupported_mode("Indexed"))
    } else if number == MODE_CMYK {
        Err(unsupported_mode("CMYK"))
    } else if number == MODE_LAB {
        Err(unsupported_mode("Lab"))
    } else if number == MODE_DUOTONE {
        Err(unsupported_mode("Duotone"))
    } else if number == MODE_MULTICHANNEL {
        Err(unsupported_mode("Multichannel"))
    } else {
        let mut text = "unknown color mode ".to_string();
        push_decimal(&mut text, number as u64);
        Err(PsdError::Corrupt(text))
    }
}

fn header_from(psb: bool, channels: u16, height: u32, width: u32, bits: u16, mode: u16) -> (r:
    PsdResult<Header>)
    ensures
        psd_outcome(r) == header_of(
            psb,
            channels as int,
            height as int,
            width as int,
            bits as int,
            mode as int,
        ),
{
    if channels < 1 || channels > 56 {
        let mut text = "channel count ".to_string();
        push_decimal(&mut text, channels as u64);
        text.append(" out of range 1..=56");
        return Err(PsdError::Corrupt(text));
    }
    let most: u32 = if psb {
        300_000
    } else {
        30_000
    };
    if width == 0 || height == 0 || width > most || height > most {
        let mut text = "dimensions ".to_string();
        push_decimal(&mut text, width as u64);
        text.append("x");
        push_decimal(&mut text, height as u64);
        text.append(" out of range 1..=");
        push_decimal(&mut text, most as u64);
        return Err(PsdError::Corrupt(text));
    }
    let depth: Depth = match depth_from(bits) {
        Ok(depth) => depth,
        Err(e) => return Err(e),
    };
    let mode: ColorMode = match mode_from(mode) {
        Ok(mode) => mode,
        Err(e) => return Err(e),
    };
    Ok(Header { psb, channels, width, height, depth, mode })
}

/// Reads the file header.
pub fn parse_header(cur: &mut Cursor) -> (r: PsdResult<Header>)
    ensures
        psd_outcome(r) == header_at(old(cur)@).0,
        final(cur)@ == header_at(old(cur)@).1,
        r is Ok ==> r->Ok_0.well_formed(),
{
    let ghost start = cur@;
    if cur.remaining() < 4 {
        return Err(PsdError::BadSignature);
    }
    let signature = match cur.take(4) {
        Ok(signature) => signature,
        Err(e) => return Err(e),
    };
    let marked: bool = has_tag(signature, 0, "8BPS");
    proof {
        reveal_strlit("8BPS");
        assert(signature@ == start.data.subrange(start.pos, start.pos + 4));
        assert forall|i: int| 0 <= i < 4 implies #[trigger] signature@[i] == start.data[start.pos
            + i] by {}
        if marked {
            assert forall|i: int| 0 <= i < 4 implies #[trigger] start.data[start.pos + i]
                == "8BPS"@[i] as u8 by {
                assert(signature@[0 + i] == "8BPS"@[i] as u8);
            }
            assert(tagged(start.data, start.pos, "8BPS"@));
        } else if tagged(start.data, start.pos, "8BPS"@) {
            assert forall|i: int| 0 <= i < 4 implies #[trigger] signature@[0 + i] == "8BPS"@[i] as u8 by {
                assert(start.data[start.pos + i] == "8BPS"@[i] as u8);
            }
        }
    }
    if !marked {
        return Err(PsdError::BadSignature);
    }
    let version: u16 = match cur.u16() {
        Ok(version) => version,
        Err(e) => return Err(e),
    };
    if version != 1 && version != 2 {
        let mut text = "unknown PSD version ".to_string();
        push_decimal(&mut text, version as u64);
        return Err(PsdError::Corrupt(text));
    }
    // The reserved bytes should be zero, but some writers do not comply.
    match cur.skip(6) {
        Ok(_) => {},
        Err(e) => return Err(e),
    }
    let channels: u16 = match cur.u16() {
        Ok(channels) => channels,
        Err(e) => return Err(e),
    };
    let height: u32 = match cur.u32() {
        Ok(height) => height,
        Err(e) => return Err(e),
    };
    let width: u32 = match cur.u32() {
        Ok(width) => width,
        Err(e) => return Err(e),
    };
    let bits: u16 = match cur.u16() {
        Ok(bits) => bits,
        Err(e) => return Err(e),
    };
    let mode: u16 = match cur.u16() {
        Ok(mode) => mode,
        Err(e) => return Err(e),
    };
    header_from(version == 2, channels, height, width, bits, mode)
}

/// Whether the bytes of a header lie at `at`: the letters, the version, six
/// bytes of anything, and the numbers, most significant byte first.
pub open spec fn holds_header(data: Seq<u8>, at: int, header: Header) -> bool {
    let version: int = if header.psb {
        2
    } else {
        1
    };
    let bits: int = match header.depth {
        Depth::Eight => 8,
        Depth::Sixteen => 16,
        Depth::ThirtyTwo => 32,
    };
    let mode: int = match header.mode {
        ColorMode::Grayscale => 1,
        ColorMode::Rgb => 3,
    };
    &&& 0 <= at && at + 26 <= data.len()
    &&& data.subrange(at, at + 4) == seq!['8' as u8, 'B' as u8, 'P' as u8, 'S' as u8]
    &&& holds_number(data, at + 4, version, 2, false)
    &&& holds_number(data, at + 12, header.channels as int, 2, false)
    &&& holds_number(data, at + 14, header.height as int, 4, false)
    &&& holds_number(data, at + 18, header.width as int, 4, false)
    &&& holds_number(data, at + 22, bits, 2, false)
    &&& holds_number(data, at + 24, mode, 2, false)
}

/// A header is read back from its bytes, and they are twenty-six.
pub proof fn law_a_header_is_read_back(r: Reader, header: Header)
    requires
        header.well_formed(),
        holds_header(r.data, r.pos, header),
    ensures
        header_at(r) == (PsdOutcome::<Header>::Ok(header), r.past(26)),
{
    let (data, at) = (r.data, r.pos);
    reveal_strlit("8BPS");
    let letters = data.subrange(at, at + 4);
    assert forall|i: int| 0 <= i < 4 implies #[trigger] "8BPS"@[i] as u32
        == data[at + i] as u32 by {
        assert(letters[i] == data[at + i]);
    }
    assert(tagged(data, at, "8BPS"@));
    let version: int = if header.psb {
        2
    } else {
        1
    };
    let bits: int = match header.depth {
        Depth::Eight => 8,
        Depth::Sixteen => 16,
        Depth::ThirtyTwo => 32,
    };
    let mode: int = match header.mode {
        ColorMode::Grayscale => 1,
        ColorMode::Rgb => 3,
    };
    law_numbers_are_read_from_their_bytes(data, at + 4, version, false);
    law_numbers_are_read_from_their_bytes(data, at + 12, header.channels as int, false);
    law_numbers_are_read_from_their_bytes(data, at + 14, header.height as int, false);
    law_numbers_are_read_from_their_bytes(data, at + 18, header.width as int, false);
    law_numbers_are_read_from_their_bytes(data, at + 22, bits, false);
    law_numbers_are_read_from_their_bytes(data, at + 24, mode, false);
}

} // verus!
