//! Camera raw files: what a file is, what it holds, and how its samples
//! are packed.

pub mod bits;
pub mod common;
pub mod detect;
pub mod develop;
pub mod formats;
pub mod frame;
pub mod image;
pub mod ljpeg;
pub mod predict;
pub mod tiff;

use crate::bytes::{be16, find_word32, has_tag, read_be16, tagged, word32_in};
use crate::raw::common::{camera_of, make_model, orientation_of};
use crate::raw::detect::{format_of, probe};
use crate::raw::formats::cr2::{Stream, StreamModel};
use crate::raw::formats::crw::{records_of, Ciff, CiffModel};
use crate::raw::formats::x3f::Numbers;
use crate::raw::formats::{cr2, crw, iiq, kodak, rw2, srw, x3f};
use crate::raw::frame::{flaw, trimmed_text, with_table, Camera, Ratio, RawImage, RawModel};
use crate::raw::image::Orientation;
use crate::raw::ljpeg::{LosslessFrame, LosslessModel};
use crate::raw::tiff::{tiff_at, Tiff};
use crate::text::{decimal, push_decimal, trimmed};
use vstd::prelude::*;
use vstd::slice::slice_subrange;

verus! {

/// Which container a file is.
#[derive(Debug, Clone, Copy, PartialEq, Eq, Hash, Structural)]
pub enum Format {
    /// Adobe DNG, including Apple ProRAW, Pixel, Leica and Pentax DNGs.
    Dng,
    /// Nikon NEF and NRW.
    Nef,
    /// Sony ARW, SR2 and SRF.
    Arw,
    /// Canon CR2.
    Cr2,
    /// Canon CRW (CIFF).
    Crw,
    /// Canon CR3 (ISO-BMFF with the CRX codec).
    Cr3,
    /// Fujifilm RAF.
    Raf,
    /// Olympus / OM System ORF.
    Orf,
    /// Panasonic RW2 and Leica RWL.
    Rw2,
    /// Pentax PEF.
    Pef,
    /// Samsung SRW.
    Srw,
    /// Minolta MRW.
    Mrw,
    /// Kodak DCR and KDC.
    Kodak,
    /// Epson ERF.
    Erf,
    /// Mamiya MEF.
    Mef,
    /// Phase One IIQ.
    Iiq,
    /// Hasselblad 3FR and FFF.
    Hasselblad,
    /// Leaf MOS.
    Mos,
    /// Sigma X3F (Foveon).
    X3f,
}

/// Why a raw file could not be read.
#[derive(Debug)]
pub enum Error {
    /// A file that is recognised but cannot be decoded: an unknown
    /// compression variant, a camera without data, a missing feature. The
    /// caller may have another decoder to try.
    Unsupported(String),
    /// The file is not what its header says.
    Corrupt(String),
    /// Not a raw file at all.
    NotRaw,
}

pub type Result<T> = core::result::Result<T, Error>;

/// An [`Error`] as a mathematical value.
pub enum Fault {
    Unsupported(Seq<char>),
    Corrupt(Seq<char>),
    NotRaw,
}

/// A decoder's result as a mathematical value.
pub type Outcome<T> = core::result::Result<T, Fault>;

impl View for Error {
    type V = Fault;

    open spec fn view(&self) -> Fault {
        match self {
            Error::Unsupported(text) => Fault::Unsupported(text@),
            Error::Corrupt(text) => Fault::Corrupt(text@),
            Error::NotRaw => Fault::NotRaw,
        }
    }
}

/// What a decoder returned, with the error as a mathematical value.
pub open spec fn outcome<T>(r: Result<T>) -> Outcome<T> {
    match r {
        Ok(value) => Ok(value),
        Err(e) => Err(e@),
    }
}

/// What a decoder returned, with both sides as mathematical values.
pub open spec fn deep_outcome<T: View>(r: Result<T>) -> Outcome<T::V> {
    match r {
        Ok(value) => Ok(value@),
        Err(e) => Err(e@),
    }
}

/// What the search for a preview returned, as a mathematical value.
pub open spec fn preview_outcome(r: Result<Option<Vec<u8>>>) -> Outcome<Option<Seq<u8>>> {
    match r {
        Ok(Some(jpeg)) => Ok(Some(jpeg@)),
        Ok(None) => Ok(None),
        Err(e) => Err(e@),
    }
}

impl Error {
    /// The error in words.
    pub fn message(&self) -> (text: String)
        ensures
            text@ == match self@ {
                Fault::Unsupported(what) => "unsupported: "@ + what,
                Fault::Corrupt(what) => "corrupt: "@ + what,
                Fault::NotRaw => "not a camera raw file"@,
            },
    {
        match self {
            Error::Unsupported(what) => {
                let mut text = "unsupported: ".to_string();
                text.append(what.as_str());
                text
            },
            Error::Corrupt(what) => {
                let mut text = "corrupt: ".to_string();
                text.append(what.as_str());
                text
            },
            Error::NotRaw => "not a camera raw file".to_string(),
        }
    }
}

/// [`Error::Corrupt`] with a fixed text.
pub fn corrupt(what: &str) -> (e: Error)
    ensures
        e@ == Fault::Corrupt(what@),
{
    Error::Corrupt(what.to_string())
}

/// [`Error::Unsupported`] with a fixed text.
pub fn unsupported(what: &str) -> (e: Error)
    ensures
        e@ == Fault::Unsupported(what@),
{
    Error::Unsupported(what.to_string())
}

/// A rectangle in sensor pixels of the uncropped data.
#[derive(Debug, Clone, Copy, PartialEq, Eq, Structural)]
pub struct Rect {
    pub x: usize,
    pub y: usize,
    pub width: usize,
    pub height: usize,
}

impl Default for Rect {
    fn default() -> (rect: Rect)
        ensures
            rect == (Rect { x: 0, y: 0, width: 0, height: 0 }),
    {
        Rect { x: 0, y: 0, width: 0, height: 0 }
    }
}

/// The largest frame a decoder will allocate for, in samples of one
/// plane: past every sensor shipped, while refusing the multi-gigabyte
/// requests a forged header can make.
pub const MAX_FRAME_SAMPLES: usize = 0x1900_0000;

/// The number of samples in a frame, if it is plausible.
pub open spec fn frame_samples_spec(width: usize, height: usize, cpp: usize) -> Outcome<
    usize,
> {
    if width * height <= usize::MAX && width * height * cpp <= MAX_FRAME_SAMPLES {
        Ok((width * height * cpp) as usize)
    } else {
        Err(
            Fault::Corrupt(
                "frame of "@ + decimal(width as int) + "x"@ + decimal(height as int) + "x"@
                    + decimal(cpp as int) + " samples is not plausible"@,
            ),
        )
    }
}

/// `width * height * cpp`, checked against overflow and against
/// [`MAX_FRAME_SAMPLES`]. Every decoder sizes its output through this
/// before allocating.
pub fn frame_samples(width: usize, height: usize, cpp: usize) -> (r: Result<usize>)
    ensures
        outcome(r) == frame_samples_spec(width, height, cpp),
{
    if let Some(pixels) = width.checked_mul(height) {
        if let Some(samples) = pixels.checked_mul(cpp) {
            if samples <= MAX_FRAME_SAMPLES {
                return Ok(samples);
            }
        }
    }
    let mut text = "frame of ".to_string();
    push_decimal(&mut text, width as u64);
    text.append("x");
    push_decimal(&mut text, height as u64);
    text.append("x");
    push_decimal(&mut text, cpp as u64);
    text.append(" samples is not plausible");
    Err(Error::Corrupt(text))
}

// ---------------------------------------------------------- orientation

/// The orientation in the TIFF whose header lies at `base`; normal where
/// there is none.
pub open spec fn embedded_orientation(bytes: Seq<u8>, base: int) -> Orientation {
    match tiff_at(bytes, base) {
        Ok(tiff) => orientation_of(tiff),
        Err(_) => Orientation::Normal,
    }
}

/// The orientation inside a JPEG's shooting data, looking from marker
/// segment `at` on.
pub open spec fn jpeg_orientation_from(jpeg: Seq<u8>, at: int) -> Orientation
    decreases jpeg.len() - at,
{
    if at < 0 || at + 4 > jpeg.len() || jpeg[at] != 0xFF {
        Orientation::Normal
    } else if jpeg[at + 1] == 0xE1 && tagged(jpeg, at + 4, "Exif\0\0"@) {
        embedded_orientation(jpeg, at + 10)
    } else if jpeg[at + 1] == 0xDA || at + 2 + be16(jpeg, at + 2) > jpeg.len() {
        Orientation::Normal
    } else {
        jpeg_orientation_from(jpeg, at + 2 + be16(jpeg, at + 2))
    }
}

/// The orientation of a RAF: that of the JPEG which two words of the
/// header point at.
pub open spec fn raf_orientation_of(bytes: Seq<u8>) -> Orientation {
    match (word32_in(bytes, 84, false), word32_in(bytes, 88, false)) {
        (Some(at), Some(len)) => if at + len <= bytes.len() {
            jpeg_orientation_from(bytes.subrange(at, at + len), 2)
        } else {
            Orientation::Normal
        },
        _ => Orientation::Normal,
    }
}

/// The orientation of a file. `cmt1` is where the first CMT1 box of a CR3
/// has its data.
pub open spec fn orientation_in(bytes: Seq<u8>, cmt1: Option<usize>) -> Orientation {
    match format_of(bytes) {
        None | Some(Format::Crw) | Some(Format::X3f) | Some(Format::Mrw) => Orientation::Normal,
        Some(Format::Cr3) => match cmt1 {
            Some(at) => embedded_orientation(bytes, at as int),
            None => Orientation::Normal,
        },
        Some(Format::Raf) => raf_orientation_of(bytes),
        Some(_) => embedded_orientation(bytes, 0),
    }
}

fn tiff_orientation(bytes: &[u8], base: usize) -> (r: Orientation)
    ensures
        r == embedded_orientation(bytes@, base as int),
{
    match Tiff::parse_embedded(bytes, base) {
        Ok(tiff) => common::orientation(&tiff),
        Err(_) => Orientation::Normal,
    }
}

fn jpeg_orientation(jpeg: &[u8]) -> (r: Orientation)
    ensures
        r == jpeg_orientation_from(jpeg@, 2),
{
    assert(jpeg@.len() == jpeg.len());
    proof {
        reveal_strlit("Exif\0\0");
    }
    let mut at: usize = 2;
    while jpeg.len() >= 4 && at <= jpeg.len() - 4
        invariant
            jpeg@.len() == jpeg.len(),
            "Exif\0\0"@.len() == 6,
            jpeg_orientation_from(jpeg@, 2) == jpeg_orientation_from(jpeg@, at as int),
        decreases jpeg@.len() - at,
    {
        if jpeg[at] != 0xFF {
            return Orientation::Normal;
        }
        let marker: u8 = jpeg[at + 1];
        let len: usize = read_be16(jpeg, at + 2) as usize;
        if marker == 0xE1 && has_tag(jpeg, at + 4, "Exif\0\0") {
            return tiff_orientation(jpeg, at + 10);
        }
        if marker == 0xDA || len > jpeg.len() - at - 2 {
            return Orientation::Normal;
        }
        at = at + 2 + len;
    }
    Orientation::Normal
}

fn raf_orientation(bytes: &[u8]) -> (r: Orientation)
    ensures
        r == raf_orientation_of(bytes@),
{
    assert(bytes@.len() == bytes.len());
    match (find_word32(bytes, 84, false), find_word32(bytes, 88, false)) {
        (Some(at), Some(len)) => {
            if at as u64 + len as u64 > bytes.len() as u64 {
                return Orientation::Normal;
            }
            jpeg_orientation(slice_subrange(bytes, at as usize, at as usize + len as usize))
        },
        _ => Orientation::Normal,
    }
}

/// The camera's orientation without decoding sensor data, for turning the
/// embedded preview upright: the first directory's for the TIFF-shaped
/// formats, the CMT1 box's for CR3, the embedded JPEG's for RAF. Normal for
/// the containers that carry none, and for anything unreadable. `cmt1` is
/// where the first CMT1 box of a CR3 has its data.
pub fn orientation(bytes: &[u8], cmt1: Option<usize>) -> (r: Orientation)
    ensures
        r == orientation_in(bytes@, cmt1),
{
    match probe(bytes) {
        None | Some(Format::Crw) | Some(Format::X3f) | Some(Format::Mrw) => Orientation::Normal,
        Some(Format::Cr3) => match cmt1 {
            Some(at) => tiff_orientation(bytes, at),
            None => Orientation::Normal,
        },
        Some(Format::Raf) => raf_orientation(bytes),
        Some(_) => tiff_orientation(bytes, 0),
    }
}

// ------------------------------------------------------------- decoding

/// What a decoder needs that the file alone does not give.
pub struct Aids<'a> {
    /// The body's normalised make and model: what the camera table has it
    /// under.
    pub clean_make: &'a str,
    pub clean_model: &'a str,
    /// What a camera table knows of the body.
    pub camera: Option<Camera>,
    /// What a lossless JPEG decoder makes of a Kodak strip.
    pub kodak_jpeg: Result<LosslessFrame>,
    /// Of each directory of a CR2, whether its strip is a lossless JPEG.
    pub cr2_lossless: &'a [bool],
    /// What a lossless JPEG decoder makes of a CR2's sensor data.
    pub cr2_stream: Stream,
    /// What the number texts of an X3F stand for.
    pub x3f_numbers: Numbers,
    /// What a decoder of its own makes of a file in one of the formats
    /// that have none here.
    pub other: Result<RawImage>,
}

/// [`Aids`] as a mathematical value.
pub struct AidsModel {
    pub clean_make: Seq<char>,
    pub clean_model: Seq<char>,
    pub camera: Option<Camera>,
    pub kodak_jpeg: Outcome<LosslessModel>,
    pub cr2_lossless: Seq<bool>,
    pub cr2_stream: StreamModel,
    pub x3f_numbers: Numbers,
    pub other: Outcome<RawModel>,
}

impl View for Aids<'_> {
    type V = AidsModel;

    open spec fn view(&self) -> AidsModel {
        AidsModel {
            clean_make: self.clean_make@,
            clean_model: self.clean_model@,
            camera: self.camera,
            kodak_jpeg: deep_outcome(self.kodak_jpeg),
            cr2_lossless: self.cr2_lossless@,
            cr2_stream: self.cr2_stream@,
            x3f_numbers: self.x3f_numbers,
            other: deep_outcome(self.other),
        }
    }
}

impl AidsModel {
    /// Whether the parts are what their makers promise.
    pub open spec fn well_formed(self) -> bool {
        self.cr2_stream.well_formed() && self.x3f_numbers.well_formed()
    }
}

/// The formats that have a decoder here.
pub open spec fn own_format(format: Format) -> bool {
    match format {
        Format::Cr2 | Format::Crw | Format::Rw2 | Format::Srw | Format::Kodak | Format::Iiq
        | Format::X3f => true,
        _ => false,
    }
}

/// The make and model in a file's TIFF.
pub open spec fn tiff_names(bytes: Seq<u8>) -> Option<(Seq<char>, Seq<char>)> {
    match tiff_at(bytes, 0) {
        Ok(tiff) => Some((trimmed(camera_of(tiff).0), trimmed(camera_of(tiff).1))),
        Err(_) => None,
    }
}

/// The make and model in a file of one of the formats that have a decoder
/// here.
pub open spec fn names_in(bytes: Seq<u8>, format: Format) -> Option<(Seq<char>, Seq<char>)> {
    match format {
        Format::Cr2 | Format::Rw2 | Format::Srw | Format::Kodak => tiff_names(bytes),
        Format::Crw => match records_of(bytes) {
            Ok((little, records)) => {
                let (make, model) = CiffModel { bytes, little, records }.camera();
                Some((trimmed(make), trimmed(model)))
            },
            Err(_) => None,
        },
        Format::Iiq => match iiq::directory_of(bytes) {
            Ok(entries) => Some(
                iiq::names_of(tiff_at(bytes, 0), iiq::own_name(bytes, entries)),
            ),
            Err(_) => None,
        },
        Format::X3f => match x3f::directory_of(bytes) {
            Ok(sections) => Some(x3f::names_of(bytes, sections)),
            Err(_) => None,
        },
        _ => None,
    }
}

/// The make and model that [`decode`] will give a file of one of the
/// formats that have a decoder here, without its sensor data: what the
/// normalised names and the table's entry in [`Aids`] go by.
pub fn camera_names(bytes: &[u8]) -> (r: Option<(String, String)>)
    ensures
        match (format_of(bytes@), r) {
            (Some(format), Some((make, model))) => names_in(bytes@, format) == Some(
                (make@, model@),
            ),
            (Some(format), None) => names_in(bytes@, format) is None,
            (None, r) => r is None,
        },
{
    match probe(bytes) {
        Some(Format::Cr2) | Some(Format::Rw2) | Some(Format::Srw) | Some(Format::Kodak) =>
        match Tiff::parse(bytes) {
            Ok(tiff) => {
                let (make, model) = make_model(&tiff);
                Some((trimmed_text(make.as_str()), trimmed_text(model.as_str())))
            },
            Err(_) => None,
        },
        Some(Format::Crw) => match Ciff::parse(bytes) {
            Ok(ciff) => {
                let (make, model) = ciff.make_model();
                Some((trimmed_text(make.as_str()), trimmed_text(model.as_str())))
            },
            Err(_) => None,
        },
        Some(Format::Iiq) => match iiq::camera_names(bytes) {
            Ok(names) => Some(names),
            Err(_) => None,
        },
        Some(Format::X3f) => match x3f::metadata(bytes, Numbers::unread()) {
            Ok((make, model, _, _)) => Some((make, model)),
            Err(_) => None,
        },
        _ => None,
    }
}

/// Whatever a decoder here makes of a file carries the make and model that
/// the file is known by beforehand.
pub proof fn law_names_are_known_beforehand(bytes: Seq<u8>, aids: AidsModel)
    ensures
        decoded(bytes, aids) matches Ok(raw) ==> own_format(raw.format) ==> names_in(
            bytes,
            raw.format,
        ) == Some((raw.make, raw.model)),
{
}

/// What the decoder of a format makes of a file, before the camera table.
pub open spec fn frame_in(bytes: Seq<u8>, format: Format, aids: AidsModel) -> Outcome<RawModel> {
    match format {
        Format::Cr2 => match tiff_at(bytes, 0) {
            Ok(tiff) => cr2::decoded(tiff, aids.cr2_lossless, aids.cr2_stream),
            Err(fault) => Err(fault),
        },
        Format::Crw => match records_of(bytes) {
            Ok((little, records)) => crw::decoded(CiffModel { bytes, little, records }),
            Err(fault) => Err(fault),
        },
        Format::Rw2 => match tiff_at(bytes, 0) {
            Ok(tiff) => rw2::decoded(tiff),
            Err(fault) => Err(fault),
        },
        Format::Srw => match tiff_at(bytes, 0) {
            Ok(tiff) => srw::decoded(tiff, aids.clean_model),
            Err(fault) => Err(fault),
        },
        Format::Kodak => match tiff_at(bytes, 0) {
            Ok(tiff) => kodak::decoded(tiff, aids.kodak_jpeg),
            Err(fault) => Err(fault),
        },
        Format::Iiq => iiq::decoded(bytes),
        Format::X3f => x3f::decoded(bytes, aids.x3f_numbers),
        _ => aids.other,
    }
}

/// A frame under the body's normalised names, and what a camera table adds
/// to it. A decoder elsewhere has set the names and asked the table
/// already. The levels of a reconstructed frame, of three samples a pixel,
/// are its own: a table's say nothing of it.
pub open spec fn asked(
    format: Format,
    frame: RawModel,
    clean: (Seq<char>, Seq<char>),
    camera: Option<Camera>,
) -> RawModel {
    let named = RawModel { clean_make: clean.0, clean_model: clean.1, ..frame };
    if !own_format(format) {
        frame
    } else if format == Format::Cr2 && frame.cpp == 3 {
        RawModel {
            black_levels: frame.black_levels,
            white_level: frame.white_level,
            ..with_table(named, camera)
        }
    } else {
        with_table(named, camera)
    }
}

/// A reconstructed frame keeps its own levels whatever a camera table says,
/// any other takes what the table fills in, and both go by the names that
/// were handed in; a frame of a decoder elsewhere is left alone.
pub proof fn law_reconstructed_frames_keep_their_levels(
    format: Format,
    frame: RawModel,
    clean: (Seq<char>, Seq<char>),
    camera: Option<Camera>,
)
    ensures
        ({
            let raw = asked(format, frame, clean, camera);
            let filled = with_table(frame, camera);
            &&& !own_format(format) ==> raw == frame
            &&& own_format(format) ==> raw.clean_make == clean.0 && raw.clean_model == clean.1
                && raw.color_matrix == filled.color_matrix && raw.data == frame.data
            &&& format == Format::Cr2 && frame.cpp == 3 ==> raw.black_levels == frame.black_levels
                && raw.white_level == frame.white_level
            &&& own_format(format) && !(format == Format::Cr2 && frame.cpp == 3)
                ==> raw.black_levels == filled.black_levels && raw.white_level
                == filled.white_level
        }),
{
    let named = RawModel { clean_make: clean.0, clean_model: clean.1, ..frame };
    let (a, b) = (named.black_levels, frame.black_levels);
    assert(a == b);
    assert((forall|i: int| 0 <= i < 4 ==> (#[trigger] a[i]).same(Ratio::whole(0)))
        <==> (forall|i: int| 0 <= i < 4 ==> (#[trigger] b[i]).same(Ratio::whole(0))));
    assert(with_table(named, camera).black_levels == with_table(frame, camera).black_levels);
}

fn ask_table(raw: &mut RawImage, format: Format, clean: (&str, &str), camera: Option<Camera>)
    ensures
        final(raw)@ == asked(format, old(raw)@, (clean.0@, clean.1@), camera),
{
    match format {
        Format::Cr2 => {
            let (black, white): ([Ratio; 4], Ratio) = (raw.black_levels, raw.white_level);
            raw.set_clean(clean.0, clean.1);
            raw.apply_camera_table(camera);
            if raw.cpp == 3 {
                raw.black_levels = black;
                raw.white_level = white;
            }
        },
        Format::Crw | Format::Rw2 | Format::Srw | Format::Kodak | Format::Iiq | Format::X3f => {
            raw.set_clean(clean.0, clean.1);
            raw.apply_camera_table(camera);
        },
        _ => {},
    }
}

/// What a file decodes to.
pub open spec fn decoded(bytes: Seq<u8>, aids: AidsModel) -> Outcome<RawModel> {
    match format_of(bytes) {
        None => Err(Fault::NotRaw),
        Some(format) => match frame_in(bytes, format, aids) {
            Err(fault) => Err(fault),
            Ok(frame) => {
                let clean = (aids.clean_make, aids.clean_model);
                let raw = RawModel { format, ..asked(format, frame, clean, aids.camera) };
                match flaw(raw) {
                    Some(fault) => Err(fault),
                    None => Ok(raw),
                }
            },
        },
    }
}

fn decode_as(bytes: &[u8], format: Format, aids: Aids<'_>) -> (r: Result<RawImage>)
    requires
        aids@.well_formed(),
    ensures
        deep_outcome(r) == frame_in(bytes@, format, aids@),
{
    match format {
        Format::Cr2 => cr2::decode(bytes, aids.cr2_lossless, aids.cr2_stream),
        Format::Crw => crw::decode(bytes),
        Format::Rw2 => rw2::decode(bytes),
        Format::Srw => srw::decode(bytes, aids.clean_model),
        Format::Kodak => kodak::decode(bytes, aids.kodak_jpeg),
        Format::Iiq => iiq::decode(bytes),
        Format::X3f => x3f::decode(bytes, aids.x3f_numbers),
        _ => aids.other,
    }
}

/// Decodes a raw file into its sensor data and metadata. Whatever comes
/// back is consistent, and of the format the file is; a decoder here gives
/// it the normalised names that were handed in, one elsewhere its own.
pub fn decode(bytes: &[u8], aids: Aids<'_>) -> (r: Result<RawImage>)
    requires
        aids@.well_formed(),
    ensures
        deep_outcome(r) == decoded(bytes@, aids@),
        r matches Ok(raw) ==> {
            &&& flaw(raw@) is None
            &&& format_of(bytes@) == Some(raw.format)
            &&& if own_format(raw.format) {
                raw.clean_make@ == aids.clean_make@ && raw.clean_model@ == aids.clean_model@
            } else {
                aids@.other matches Ok(other) && raw.clean_make@ == other.clean_make
                    && raw.clean_model@ == other.clean_model
            }
        },
{
    let format = match probe(bytes) {
        Some(format) => format,
        None => return Err(Error::NotRaw),
    };
    let camera: Option<Camera> = aids.camera;
    let clean: (&str, &str) = (aids.clean_make, aids.clean_model);
    let mut raw = match decode_as(bytes, format, aids) {
        Ok(raw) => raw,
        Err(e) => return Err(e),
    };
    ask_table(&mut raw, format, clean, camera);
    raw.format = format;
    match raw.validate() {
        Ok(_) => Ok(raw),
        Err(e) => Err(e),
    }
}

/// What the preview search of a format finds in a file.
pub open spec fn preview_as(bytes: Seq<u8>, format: Format, other: Outcome<Option<Seq<u8>>>) -> Outcome<
    Option<Seq<u8>>,
> {
    match format {
        Format::Cr2 | Format::Srw | Format::Kodak | Format::Iiq => common::pictured(bytes),
        Format::Crw => match records_of(bytes) {
            Ok((little, records)) => Ok(CiffModel { bytes, little, records }.picture()),
            Err(fault) => Err(fault),
        },
        Format::Rw2 => match tiff_at(bytes, 0) {
            Ok(tiff) => Ok(rw2::shown(tiff)),
            Err(fault) => Err(fault),
        },
        Format::X3f => x3f::preview_of(bytes),
        _ => other,
    }
}

/// The camera's embedded JPEG preview, without decoding the sensor data.
/// `other` is what a decoder of its own finds in a file of one of the
/// formats that have none here.
pub fn preview(bytes: &[u8], other: Result<Option<Vec<u8>>>) -> (r: Result<Option<Vec<u8>>>)
    ensures
        preview_outcome(r) == match format_of(bytes@) {
            None => Outcome::<Option<Seq<u8>>>::Err(Fault::NotRaw),
            Some(format) => preview_as(bytes@, format, preview_outcome(other)),
        },
{
    match probe(bytes) {
        None => Err(Error::NotRaw),
        Some(format) => match format {
            Format::Cr2 => cr2::preview(bytes),
            Format::Srw => srw::preview(bytes),
            Format::Kodak => kodak::preview(bytes),
            Format::Iiq => iiq::preview(bytes),
            Format::Crw => crw::preview(bytes),
            Format::Rw2 => rw2::preview(bytes),
            Format::X3f => x3f::preview(bytes),
            _ => other,
        },
    }
}

} // verus!
