//! Fujifilm's compressed sensor strips.
//!
//! The stream's *header* is read, which is enough to check a file against
//! its own container and to say precisely what it is; the entropy-coded
//! body is refused. The header is sixteen big-endian bytes, then one
//! 32-bit length per vertical stripe, the table padded to a 16-byte
//! boundary. Every field is redundant with the container or with another
//! field.

use crate::bytes::{
    be16, be32, holds_number, law_numbers_are_read_from_their_bytes, read_be16, read_be32,
};
use crate::raw::formats::crx::ceil_div;
use crate::raw::image::{Cfa, CfaModel};
use crate::raw::{corrupt, deep_outcome, outcome, Error, Fault, Outcome, Result};
use crate::text::{decimal, hex_byte, push_decimal, push_hex_byte};
use vstd::prelude::*;

verus! {

/// A compressed strip's header.
#[derive(Debug, Clone, Copy, PartialEq, Eq)]
pub struct Header {
    pub version: u8,
    /// 0x10 on the X-Trans bodies, 0 on the Bayer ones.
    pub sensor: u8,
    pub bits: u32,
    pub width: usize,
    pub height: usize,
    /// `width` rounded up to a whole number of stripes.
    pub rounded_width: usize,
    pub stripe_width: usize,
    pub stripes: usize,
    /// Six-row blocks down the frame.
    pub blocks: usize,
}

/// The signature every compressed strip starts with.
pub const SIGNATURE: u16 = 0x4953;

/// Rows of the sensor in one coded block, for both filter arrays.
pub const BLOCK_ROWS: usize = 6;

/// What a strip's header says, checked against itself.
pub open spec fn strip_header(strip: Seq<u8>) -> Outcome<Header> {
    if strip.len() < 2 {
        Err(Fault::Corrupt("truncated compressed strip header"@))
    } else if be16(strip, 0) != SIGNATURE {
        Err(Fault::Corrupt("compressed sensor strip without its 0x4953 signature"@))
    } else if strip.len() < 16 {
        Err(Fault::Corrupt("truncated compressed strip header"@))
    } else {
        let header = Header {
            version: strip[2],
            sensor: strip[3],
            bits: strip[4] as u32,
            height: be16(strip, 5) as usize,
            rounded_width: be16(strip, 7) as usize,
            width: be16(strip, 9) as usize,
            stripe_width: be16(strip, 11) as usize,
            stripes: strip[13] as usize,
            blocks: be16(strip, 14) as usize,
        };
        if header.stripe_width == 0 || header.stripes == 0 {
            Err(Fault::Corrupt("compressed strip with no stripes"@))
        } else if header.stripes * header.stripe_width != header.rounded_width {
            Err(
                Fault::Corrupt(
                    decimal(header.stripes as int) + " stripes of "@ + decimal(
                        header.stripe_width as int,
                    ) + " do not make the rounded width "@ + decimal(header.rounded_width as int),
                ),
            )
        } else if header.rounded_width < header.width || header.rounded_width - header.width
            >= header.stripe_width {
            Err(
                Fault::Corrupt(
                    "rounded width "@ + decimal(header.rounded_width as int) + " does not round "@
                        + decimal(header.width as int) + " up by less than a stripe"@,
                ),
            )
        } else if header.blocks * 6 != header.height {
            Err(
                Fault::Corrupt(
                    decimal(header.blocks as int) + " six-row blocks do not make "@ + decimal(
                        header.height as int,
                    ) + " rows"@,
                ),
            )
        } else {
            Ok(header)
        }
    }
}

/// The first `n` stripe lengths.
pub open spec fn lengths_of(strip: Seq<u8>, n: int) -> Seq<usize> {
    Seq::new(n as nat, |i: int| be32(strip, 16 + 4 * i) as usize)
}

/// The table of `n` stripe lengths, which the strip must hold whole.
pub open spec fn length_table(strip: Seq<u8>, n: int) -> Outcome<Seq<usize>> {
    if n == 0 || 16 + 4 * n <= strip.len() {
        Ok(lengths_of(strip, n))
    } else {
        Err(Fault::Corrupt("truncated stripe length table"@))
    }
}

impl Header {
    /// Where the entropy-coded data starts: the header, then a 32-bit
    /// length for each stripe, padded to a 16-byte boundary.
    pub open spec fn body_start(self) -> int {
        16 + ceil_div(self.stripes * 4, 16) * 16
    }

    /// Whether a body of that many bytes is lossless, as far as its size
    /// tells: six bits a pixel lie between the two modes.
    pub open spec fn lossless(self, body_bytes: int) -> bool {
        let pixels = self.width * self.height;
        pixels > 0 && (body_bytes * 8) / pixels >= 6
    }

    /// Reads and checks a header. A strip that claims a geometry that
    /// contradicts itself is corrupt.
    pub fn parse(strip: &[u8]) -> (r: Result<Header>)
        ensures
            outcome(r) == strip_header(strip@),
            r matches Ok(header) ==> header.stripes < 0x100,
    {
        if strip.len() < 2 {
            return Err(corrupt("truncated compressed strip header"));
        }
        if read_be16(strip, 0) != SIGNATURE {
            return Err(corrupt("compressed sensor strip without its 0x4953 signature"));
        }
        if strip.len() < 16 {
            return Err(corrupt("truncated compressed strip header"));
        }
        let header = Header {
            version: strip[2],
            sensor: strip[3],
            bits: strip[4] as u32,
            height: read_be16(strip, 5) as usize,
            rounded_width: read_be16(strip, 7) as usize,
            width: read_be16(strip, 9) as usize,
            stripe_width: read_be16(strip, 11) as usize,
            stripes: strip[13] as usize,
            blocks: read_be16(strip, 14) as usize,
        };
        if header.stripe_width == 0 || header.stripes == 0 {
            return Err(corrupt("compressed strip with no stripes"));
        }
        proof {
            assert(header.stripes * header.stripe_width <= 0xff * 0xffff) by (nonlinear_arith)
                requires
                    header.stripes <= 0xff,
                    header.stripe_width <= 0xffff,
            ;
        }
        if header.stripes * header.stripe_width != header.rounded_width {
            let mut text = String::new();
            push_decimal(&mut text, header.stripes as u64);
            assert(text@ =~= decimal(header.stripes as int));
            text.append(" stripes of ");
            push_decimal(&mut text, header.stripe_width as u64);
            text.append(" do not make the rounded width ");
            push_decimal(&mut text, header.rounded_width as u64);
            return Err(Error::Corrupt(text));
        }
        if header.rounded_width < header.width || header.rounded_width - header.width
            >= header.stripe_width {
            let mut text = "rounded width ".to_string();
            push_decimal(&mut text, header.rounded_width as u64);
            text.append(" does not round ");
            push_decimal(&mut text, header.width as u64);
            text.append(" up by less than a stripe");
            return Err(Error::Corrupt(text));
        }
        if header.blocks * BLOCK_ROWS != header.height {
            let mut text = String::new();
            push_decimal(&mut text, header.blocks as u64);
            assert(text@ =~= decimal(header.blocks as int));
            text.append(" six-row blocks do not make ");
            push_decimal(&mut text, header.height as u64);
            text.append(" rows");
            return Err(Error::Corrupt(text));
        }
        Ok(header)
    }

    /// Where the entropy-coded data starts.
    pub fn data_offset(&self) -> (at: usize)
        requires
            self.stripes * 4 + 31 <= usize::MAX,
        ensures
            at == self.body_start(),
    {
        16 + (self.stripes * 4 + 15) / 16 * 16
    }

    /// Each stripe's compressed length, in order.
    pub fn stripe_lengths(&self, strip: &[u8]) -> (r: Result<Vec<usize>>)
        ensures
            deep_outcome(r) == length_table(strip@, self.stripes as int),
    {
        let mut out: Vec<usize> = Vec::new();
        let mut i: usize = 0;
        while i < self.stripes
            invariant
                i <= self.stripes,
                i > 0 ==> 16 + 4 * i <= strip@.len(),
                out@ == lengths_of(strip@, i as int),
            decreases self.stripes - i,
        {
            assert(strip@.len() == strip.len());
            if strip.len() < 20 || (strip.len() - 20) / 4 < i {
                return Err(corrupt("truncated stripe length table"));
            }
            out.push(read_be32(strip, 16 + i * 4) as usize);
            i = i + 1;
            assert(out@ =~= lengths_of(strip@, i as int));
        }
        Ok(out)
    }

    /// Whether the entropy-coded body is lossless. Nothing in the header
    /// says so directly, so this asks the only question a header can
    /// answer: how much room the body takes.
    pub fn looks_lossless(&self, body_bytes: usize) -> (r: bool)
        ensures
            r == self.lossless(body_bytes as int),
    {
        proof {
            assert(0 <= self.width * self.height <= 0xffff_ffff_ffff_ffff * 0xffff_ffff_ffff_ffff)
                by (nonlinear_arith)
                requires
                    0 <= self.width <= 0xffff_ffff_ffff_ffff,
                    0 <= self.height <= 0xffff_ffff_ffff_ffff,
            ;
        }
        let pixels: u128 = self.width as u128 * self.height as u128;
        pixels > 0 && (body_bytes as u128 * 8) / pixels >= 6
    }
}

/// The name of a filter array's family.
pub open spec fn array_name(cfa: CfaModel) -> Seq<char> {
    if cfa.kind is XTrans {
        "X-Trans"@
    } else {
        "Bayer"@
    }
}

/// Why a compressed strip is not decoded.
pub open spec fn strip_fault(strip: Seq<u8>, width: int, height: int, cfa: CfaModel) -> Fault {
    match strip_header(strip) {
        Err(fault) => fault,
        Ok(header) => if header.width != width || header.height != height {
            Fault::Corrupt(
                "compressed strip is "@ + decimal(header.width as int) + "x"@ + decimal(
                    header.height as int,
                ) + " inside a "@ + decimal(width) + "x"@ + decimal(height) + " frame"@,
            )
        } else if (cfa.kind is XTrans) != (header.sensor == 0x10) {
            Fault::Corrupt(
                "compressed strip says sensor type "@ + hex_byte(header.sensor as int) + " for a "@
                    + array_name(cfa) + " frame"@,
            )
        } else {
            let body = if strip.len() >= header.body_start() {
                strip.len() - header.body_start()
            } else {
                0
            };
            Fault::Unsupported(
                "RAF: Fujifilm "@ + (if header.lossless(body) {
                    "lossless"@
                } else {
                    "lossy"@
                }) + " compression ("@ + array_name(cfa) + " "@ + decimal(header.bits as int)
                    + "-bit, "@ + decimal(header.stripes as int) + " stripes of "@ + decimal(
                    header.stripe_width as int,
                ) + ")"@,
            )
        },
    }
}

/// Decodes a compressed sensor strip into `width * height` samples. Always
/// an error, which says what the file is.
pub fn decode(strip: &[u8], width: usize, height: usize, cfa: &Cfa) -> (r: Result<Vec<u16>>)
    ensures
        r matches Err(e) && e@ == strip_fault(strip@, width as int, height as int, cfa@),
{
    let header = match Header::parse(strip) {
        Ok(header) => header,
        Err(e) => return Err(e),
    };
    if header.width != width || header.height != height {
        let mut text = "compressed strip is ".to_string();
        push_decimal(&mut text, header.width as u64);
        text.append("x");
        push_decimal(&mut text, header.height as u64);
        text.append(" inside a ");
        push_decimal(&mut text, width as u64);
        text.append("x");
        push_decimal(&mut text, height as u64);
        text.append(" frame");
        return Err(Error::Corrupt(text));
    }
    let x_trans: bool = match cfa {
        Cfa::XTrans(_) => true,
        _ => false,
    };
    let name: &str = if x_trans {
        "X-Trans"
    } else {
        "Bayer"
    };
    if x_trans != (header.sensor == 0x10) {
        let mut text = "compressed strip says sensor type ".to_string();
        push_hex_byte(&mut text, header.sensor);
        text.append(" for a ");
        text.append(name);
        text.append(" frame");
        return Err(Error::Corrupt(text));
    }
    let start: usize = header.data_offset();
    let body: usize = if strip.len() >= start {
        strip.len() - start
    } else {
        0
    };
    let mut text = "RAF: Fujifilm ".to_string();
    if header.looks_lossless(body) {
        text.append("lossless");
    } else {
        text.append("lossy");
    }
    text.append(" compression (");
    text.append(name);
    text.append(" ");
    push_decimal(&mut text, header.bits as u64);
    text.append("-bit, ");
    push_decimal(&mut text, header.stripes as u64);
    text.append(" stripes of ");
    push_decimal(&mut text, header.stripe_width as u64);
    text.append(")");
    Err(Error::Unsupported(text))
}

/// The stripes and blocks of a header that was read cover the frame: every
/// column lies in a stripe and every row in a block, the last stripe holds
/// some column where there is one, and the data starts past the length
/// table, on a boundary of sixteen.
pub proof fn law_headers_cover_the_frame(strip: Seq<u8>, x: int, y: int)
    requires
        strip_header(strip) is Ok,
    ensures
        ({
            let header = strip_header(strip)->Ok_0;
            &&& 0 <= x < header.width ==> 0 <= x / (header.stripe_width as int) < header.stripes
            &&& 0 <= y < header.height ==> 0 <= y / 6 < header.blocks
            &&& (header.stripes - 1) * header.stripe_width < header.width
            &&& header.body_start() >= 16 + 4 * header.stripes
            &&& header.body_start() % 16 == 0
        }),
{
    let header = strip_header(strip)->Ok_0;
    let (n, w) = (header.stripes as int, header.stripe_width as int);
    assert((n - 1) * w == n * w - w) by (nonlinear_arith);
    if 0 <= x < header.width {
        assert(0 <= x / w < n) by (nonlinear_arith)
            requires
                0 < w,
                0 <= x < n * w,
        ;
    }
}

/// Whether the sixteen bytes of a header begin a strip, its numbers most
/// significant byte first.
pub open spec fn holds_strip_header(strip: Seq<u8>, header: Header) -> bool {
    &&& strip.len() >= 16
    &&& strip[0] == 0x49
    &&& strip[1] == 0x53
    &&& strip[2] == header.version
    &&& strip[3] == header.sensor
    &&& strip[4] == header.bits
    &&& holds_number(strip, 5, header.height as int, 2, false)
    &&& holds_number(strip, 7, header.rounded_width as int, 2, false)
    &&& holds_number(strip, 9, header.width as int, 2, false)
    &&& holds_number(strip, 11, header.stripe_width as int, 2, false)
    &&& strip[13] == header.stripes
    &&& holds_number(strip, 14, header.blocks as int, 2, false)
}

/// Whether the numbers of a header agree: the stripes make the rounded
/// width, which is less than a stripe wider than the frame, and blocks of
/// six rows make the height.
pub open spec fn agrees(header: Header) -> bool {
    &&& header.stripes > 0
    &&& header.stripes * header.stripe_width == header.rounded_width
    &&& header.width <= header.rounded_width < header.width + header.stripe_width
    &&& header.height == 6 * header.blocks
}

/// A header is read back from its bytes where its numbers agree, and
/// refused where they do not.
pub proof fn law_a_strip_header_is_read_back(strip: Seq<u8>, header: Header)
    requires
        header.bits < 0x100,
        header.stripes < 0x100,
        header.width < 0x1_0000,
        header.height < 0x1_0000,
        header.rounded_width < 0x1_0000,
        header.stripe_width < 0x1_0000,
        header.blocks < 0x1_0000,
        holds_strip_header(strip, header),
    ensures
        agrees(header) ==> strip_header(strip) == Outcome::<Header>::Ok(header),
        !agrees(header) ==> strip_header(strip) is Err,
{
    law_numbers_are_read_from_their_bytes(strip, 5, header.height as int, false);
    law_numbers_are_read_from_their_bytes(strip, 7, header.rounded_width as int, false);
    law_numbers_are_read_from_their_bytes(strip, 9, header.width as int, false);
    law_numbers_are_read_from_their_bytes(strip, 11, header.stripe_width as int, false);
    law_numbers_are_read_from_their_bytes(strip, 14, header.blocks as int, false);
    if header.stripe_width == 0 {
        assert(header.stripes * header.stripe_width == 0) by (nonlinear_arith)
            requires
                header.stripe_width == 0,
        ;
    }
}

/// The length of every stripe is read back from the table behind the
/// header.
pub proof fn law_stripe_lengths_are_read_back(strip: Seq<u8>, lengths: Seq<usize>)
    requires
        16 + 4 * lengths.len() <= strip.len(),
        forall|i: int|
            0 <= i < lengths.len() ==> #[trigger] lengths[i] < 0x1_0000_0000 && holds_number(
                strip,
                16 + 4 * i,
                lengths[i] as int,
                4,
                false,
            ),
    ensures
        length_table(strip, lengths.len() as int) == Outcome::<Seq<usize>>::Ok(lengths),
{
    let read = lengths_of(strip, lengths.len() as int);
    assert forall|i: int| 0 <= i < lengths.len() implies read[i] == lengths[i] by {
        law_numbers_are_read_from_their_bytes(strip, 16 + 4 * i, lengths[i] as int, false);
    }
    assert(read =~= lengths);
}

/// A body passes for lossless from six bits a pixel on, and a frame without
/// pixels never does.
pub proof fn law_lossless_bodies_take_six_bits_a_pixel(header: Header, body_bytes: int)
    requires
        0 <= body_bytes,
    ensures
        header.lossless(body_bytes) <==> 0 < header.width * header.height && 6 * (header.width
            * header.height) <= 8 * body_bytes,
{
    let pixels = header.width * header.height;
    assert(pixels >= 0) by (nonlinear_arith)
        requires
            pixels == header.width * header.height,
            0 <= header.width,
            0 <= header.height,
    ;
    if pixels > 0 {
        assert((body_bytes * 8) / pixels >= 6 <==> 6 * pixels <= 8 * body_bytes) by (nonlinear_arith)
            requires
                pixels > 0,
                0 <= body_bytes,
        ;
    }
}

} // verus!
