//! What TIFF-shaped containers have in common: the camera's name, the
//! orientation, the shooting data, the pictures and the strips.

use crate::bytes::{find_part_end, owned, part_end};
use crate::raw::formats::x3f::{displayable, is_displayable_jpeg};
use crate::raw::frame::{maybe_text, trimmed_text, Metadata, MetadataModel, Ratio};
use crate::raw::image::{exif_orientation, Orientation};
use crate::raw::tiff::{
    bare_at, tiff_at, Entry, Ifd, IfdModel, Tiff, TiffModel, BITS_PER_SAMPLE, COMPRESSION,
    DATE_TIME, DATE_TIME_ORIGINAL, EXPOSURE_TIME, FOCAL_LENGTH, F_NUMBER, IMAGE_LENGTH,
    IMAGE_WIDTH, ISO, JPEG_LENGTH, JPEG_OFFSET, LENS_MODEL, MAKE, MODEL, ORIENTATION,
    STRIP_BYTE_COUNTS, STRIP_OFFSETS,
};
use crate::raw::{corrupt, Fault, Outcome, Result};
use crate::text::{lossy_text, text_of, trimmed};
use vstd::prelude::*;
use vstd::slice::slice_subrange;

verus! {

/// The text of a field: up to its first NUL, without the space around it.
pub open spec fn text_in(bytes: Seq<u8>, entry: Option<Entry>) -> Option<Seq<char>> {
    match entry {
        Some(e) => if e.kind == 2 {
            let raw = e.raw(bytes);
            Some(trimmed(lossy_text(raw.subrange(0, part_end(raw, 0)))))
        } else {
            None
        },
        None => None,
    }
}

/// Reads the text of a field.
pub fn read_text(tiff: &Tiff<'_>, entry: Option<Entry>) -> (r: Option<String>)
    requires
        entry matches Some(e) ==> e.inside(tiff.bytes@),
    ensures
        maybe_text(r) == text_in(tiff.bytes@, entry),
{
    match entry {
        Some(e) => {
            if e.kind != 2 {
                return None;
            }
            let raw = tiff.raw(e);
            let end: usize = find_part_end(raw, 0);
            let text = text_of(slice_subrange(raw, 0, end));
            Some(trimmed_text(text.as_str()))
        },
        None => None,
    }
}

/// A text, or none at all for an empty one.
pub open spec fn some_text(text: Option<Seq<char>>) -> Option<Seq<char>> {
    match text {
        Some(t) => if t.len() > 0 {
            Some(t)
        } else {
            None
        },
        None => None,
    }
}

fn nonempty(text: Option<String>) -> (r: Option<String>)
    ensures
        maybe_text(r) == some_text(maybe_text(text)),
{
    match text {
        Some(t) => if t.as_str().unicode_len() > 0 {
            Some(t)
        } else {
            None
        },
        None => None,
    }
}

/// The make and model that a file carries; empty where it does not.
pub open spec fn camera_of(tiff: TiffModel) -> (Seq<char>, Seq<char>) {
    (
        match text_in(tiff.bytes, tiff.field(MAKE)) {
            Some(make) => make,
            None => Seq::empty(),
        },
        match text_in(tiff.bytes, tiff.field(MODEL)) {
            Some(model) => model,
            None => Seq::empty(),
        },
    )
}

/// Reads the make and model.
pub fn make_model(tiff: &Tiff<'_>) -> (r: (String, String))
    requires
        tiff@.well_formed(),
    ensures
        r.0@ == camera_of(tiff@).0,
        r.1@ == camera_of(tiff@).1,
{
    let make = match read_text(tiff, tiff.find(MAKE)) {
        Some(make) => make,
        None => String::new(),
    };
    let model = match read_text(tiff, tiff.find(MODEL)) {
        Some(model) => model,
        None => String::new(),
    };
    (make, model)
}

/// The way the camera was held.
pub open spec fn orientation_of(tiff: TiffModel) -> Orientation {
    match tiff.field(ORIENTATION) {
        Some(entry) => match entry.natural(tiff.bytes, tiff.little, 0) {
            Some(value) => exif_orientation(value),
            None => Orientation::Normal,
        },
        None => Orientation::Normal,
    }
}

/// Reads the way the camera was held.
pub fn orientation(tiff: &Tiff<'_>) -> (r: Orientation)
    requires
        tiff@.well_formed(),
    ensures
        r == orientation_of(tiff@),
{
    match tiff.find(ORIENTATION) {
        Some(entry) => match tiff.u32(entry, 0) {
            Some(value) => Orientation::from_exif(value),
            None => Orientation::Normal,
        },
        None => Orientation::Normal,
    }
}

/// A field's first number, in any directory, as an exact quotient.
pub open spec fn quotient_of(tiff: TiffModel, tag: u16) -> Option<Ratio> {
    match tiff.field(tag) {
        Some(entry) => entry.ratio(tiff.bytes, tiff.little, 0),
        None => None,
    }
}

fn quotient(tiff: &Tiff<'_>, tag: u16) -> (r: Option<Ratio>)
    requires
        tiff@.well_formed(),
    ensures
        r == quotient_of(tiff@, tag),
{
    match tiff.find(tag) {
        Some(entry) => tiff.ratio(entry, 0),
        None => None,
    }
}

/// The shooting data. The time the picture was taken stands before the
/// time the file was written.
pub open spec fn metadata_of(tiff: TiffModel) -> MetadataModel<Ratio> {
    MetadataModel {
        iso: quotient_of(tiff, ISO),
        exposure_time: quotient_of(tiff, EXPOSURE_TIME),
        f_number: quotient_of(tiff, F_NUMBER),
        focal_length: quotient_of(tiff, FOCAL_LENGTH),
        lens: some_text(text_in(tiff.bytes, tiff.field(LENS_MODEL))),
        date_time: match some_text(text_in(tiff.bytes, tiff.field(DATE_TIME_ORIGINAL))) {
            Some(text) => Some(text),
            None => some_text(text_in(tiff.bytes, tiff.field(DATE_TIME))),
        },
    }
}

/// Reads the shooting data.
pub fn metadata(tiff: &Tiff<'_>) -> (m: Metadata<Ratio>)
    requires
        tiff@.well_formed(),
    ensures
        m@ == metadata_of(tiff@),
{
    let taken = nonempty(read_text(tiff, tiff.find(DATE_TIME_ORIGINAL)));
    let date_time = match taken {
        Some(text) => Some(text),
        None => nonempty(read_text(tiff, tiff.find(DATE_TIME))),
    };
    Metadata {
        iso: quotient(tiff, ISO),
        exposure_time: quotient(tiff, EXPOSURE_TIME),
        f_number: quotient(tiff, F_NUMBER),
        focal_length: quotient(tiff, FOCAL_LENGTH),
        lens: nonempty(read_text(tiff, tiff.find(LENS_MODEL))),
        date_time,
    }
}

/// Shooting data with what one source lacks taken from another.
pub open spec fn merged<T>(first: MetadataModel<T>, second: MetadataModel<T>) -> MetadataModel<T> {
    MetadataModel {
        iso: first_of(first.iso, second.iso),
        exposure_time: first_of(first.exposure_time, second.exposure_time),
        f_number: first_of(first.f_number, second.f_number),
        focal_length: first_of(first.focal_length, second.focal_length),
        lens: first_of(first.lens, second.lens),
        date_time: first_of(first.date_time, second.date_time),
    }
}

/// The first of two that is there.
pub open spec fn first_of<T>(a: Option<T>, b: Option<T>) -> Option<T> {
    match a {
        Some(value) => Some(value),
        None => b,
    }
}

fn either<T>(a: Option<T>, b: Option<T>) -> (r: Option<T>)
    ensures
        r == first_of(a, b),
{
    match a {
        Some(value) => Some(value),
        None => b,
    }
}

/// Takes what one source of shooting data lacks from another.
pub fn merge<T>(first: Metadata<T>, second: Metadata<T>) -> (m: Metadata<T>)
    ensures
        m@ == merged(first@, second@),
{
    Metadata {
        iso: either(first.iso, second.iso),
        exposure_time: either(first.exposure_time, second.exposure_time),
        f_number: either(first.f_number, second.f_number),
        focal_length: either(first.focal_length, second.focal_length),
        lens: either(first.lens, second.lens),
        date_time: either(first.date_time, second.date_time),
    }
}

// -------------------------------------------------------------- pictures

/// The stream of `len` bytes at `at`, if it lies in the file and is a
/// picture a viewer could show.
pub open spec fn picture_at(bytes: Seq<u8>, at: int, len: int) -> Option<Seq<u8>> {
    if 0 <= at && at + len <= bytes.len() && displayable(bytes.subrange(at, at + len)) {
        Some(bytes.subrange(at, at + len))
    } else {
        None
    }
}

/// The picture that two fields of a directory point at.
pub open spec fn pointed_picture(tiff: TiffModel, ifd: IfdModel, at: u16, len: u16) -> Option<
    Seq<u8>,
> {
    match (tiff.number(ifd, at), tiff.number(ifd, len)) {
        (Some(at), Some(len)) => picture_at(tiff.bytes, tiff.base + at, len),
        _ => None,
    }
}

/// The picture of a directory: the stream it points at, or its first
/// strip.
pub open spec fn ifd_picture(tiff: TiffModel, ifd: IfdModel) -> Option<Seq<u8>> {
    match pointed_picture(tiff, ifd, JPEG_OFFSET, JPEG_LENGTH) {
        Some(stream) => Some(stream),
        None => pointed_picture(tiff, ifd, STRIP_OFFSETS, STRIP_BYTE_COUNTS),
    }
}

/// The largest picture of the first `n` directories, the first of equals.
pub open spec fn best_picture(tiff: TiffModel, n: int) -> Option<Seq<u8>>
    decreases n,
{
    if n <= 0 {
        None
    } else {
        let before = best_picture(tiff, n - 1);
        match ifd_picture(tiff, tiff.ifds[n - 1]) {
            None => before,
            Some(stream) => if before matches Some(best) && best.len() >= stream.len() {
                before
            } else {
                Some(stream)
            },
        }
    }
}

/// A directory's first number, read.
pub fn first_number(tiff: &Tiff<'_>, ifd: &Ifd, tag: u16) -> (r: Option<u32>)
    requires
        ifd@.inside(tiff.bytes@),
    ensures
        match r {
            Some(n) => tiff@.number(ifd@, tag) == Some(n as int),
            None => tiff@.number(ifd@, tag) is None,
        },
{
    match field_of(tiff, ifd, tag) {
        Some(entry) => tiff.u32(entry, 0),
        None => None,
    }
}

/// A directory's field, which lies in the file.
pub fn field_of(tiff: &Tiff<'_>, ifd: &Ifd, tag: u16) -> (r: Option<Entry>)
    requires
        ifd@.inside(tiff.bytes@),
    ensures
        r == ifd@.field(tag),
        r matches Some(entry) ==> entry.inside(tiff.bytes@),
{
    let r = ifd.get(tag);
    proof {
        crate::raw::tiff::lemma_field_inside(tiff.bytes@, ifd.entries@, tag, 0);
    }
    r
}

/// A directory's number as an exact quotient, read.
pub fn first_ratio(tiff: &Tiff<'_>, ifd: &Ifd, tag: u16, i: usize) -> (r: Option<Ratio>)
    requires
        ifd@.inside(tiff.bytes@),
    ensures
        r == tiff@.ratio(ifd@, tag, i as int),
        r matches Some(q) ==> q.den > 0 && -0x8000_0000 <= q.num <= 0xffff_ffff && q.den
            <= 0xffff_ffff,
{
    match field_of(tiff, ifd, tag) {
        Some(entry) => tiff.ratio(entry, i),
        None => None,
    }
}

fn find_picture<'a>(tiff: &Tiff<'a>, ifd: &Ifd, at: u16, len: u16) -> (r: Option<&'a [u8]>)
    requires
        ifd@.inside(tiff.bytes@),
    ensures
        match r {
            Some(stream) => pointed_picture(tiff@, ifd@, at, len) == Some(stream@),
            None => pointed_picture(tiff@, ifd@, at, len) is None,
        },
{
    assert(tiff.bytes@.len() == tiff.bytes.len());
    let offset: u32 = match first_number(tiff, ifd, at) {
        Some(offset) => offset,
        None => return None,
    };
    let length: u32 = match first_number(tiff, ifd, len) {
        Some(length) => length,
        None => return None,
    };
    let start: u128 = tiff.base as u128 + offset as u128;
    let end: u128 = start + length as u128;
    if end > tiff.bytes.len() as u128 {
        return None;
    }
    let stream = slice_subrange(tiff.bytes, start as usize, end as usize);
    if is_displayable_jpeg(stream) {
        Some(stream)
    } else {
        None
    }
}

/// The largest embedded picture.
pub fn largest_jpeg(tiff: &Tiff<'_>) -> (r: Option<Vec<u8>>)
    requires
        tiff@.well_formed(),
    ensures
        match r {
            Some(jpeg) => best_picture(tiff@, tiff@.ifds.len() as int) == Some(jpeg@),
            None => best_picture(tiff@, tiff@.ifds.len() as int) is None,
        },
{
    let mut best: Option<&[u8]> = None;
    let mut i: usize = 0;
    while i < tiff.ifds.len()
        invariant
            tiff@.well_formed(),
            i <= tiff.ifds@.len(),
            match best {
                Some(stream) => best_picture(tiff@, i as int) == Some(stream@),
                None => best_picture(tiff@, i as int) is None,
            },
        decreases tiff.ifds@.len() - i,
    {
        let ifd = &tiff.ifds[i];
        assert(tiff@.ifds[i as int] == ifd@);
        assert(tiff@.ifds[i as int].inside(tiff.bytes@));
        let found = match find_picture(tiff, ifd, JPEG_OFFSET, JPEG_LENGTH) {
            Some(stream) => Some(stream),
            None => find_picture(tiff, ifd, STRIP_OFFSETS, STRIP_BYTE_COUNTS),
        };
        if let Some(stream) = found {
            let larger: bool = match best {
                Some(other) => stream.len() > other.len(),
                None => true,
            };
            if larger {
                best = Some(stream);
            }
        }
        i = i + 1;
    }
    match best {
        Some(stream) => Some(owned(stream)),
        None => None,
    }
}

// ---------------------------------------------------------------- layout

/// The numbers of a field's first `n` elements, up to the first that is
/// none.
pub open spec fn numbers_of(tiff: TiffModel, entry: Entry, n: int) -> Seq<u32>
    decreases n,
{
    if n <= 0 {
        Seq::empty()
    } else {
        let before = numbers_of(tiff, entry, n - 1);
        if before.len() < n - 1 {
            before
        } else {
            match entry.natural(tiff.bytes, tiff.little, n - 1) {
                Some(v) => before.push(v as u32),
                None => before,
            }
        }
    }
}

proof fn lemma_numbers_stop(tiff: TiffModel, entry: Entry, k: int, n: int)
    requires
        0 <= k <= n,
        numbers_of(tiff, entry, k).len() < k,
    ensures
        numbers_of(tiff, entry, n) == numbers_of(tiff, entry, k),
    decreases n - k,
{
    if k < n {
        assert(numbers_of(tiff, entry, k + 1) == numbers_of(tiff, entry, k));
        lemma_numbers_stop(tiff, entry, k + 1, n);
    }
}

/// All the leading numbers of a field.
pub fn read_numbers(tiff: &Tiff<'_>, entry: Entry) -> (out: Vec<u32>)
    requires
        entry.inside(tiff.bytes@),
    ensures
        out@ == numbers_of(tiff@, entry, entry.count as int),
{
    let mut out: Vec<u32> = Vec::new();
    let mut i: usize = 0;
    while i < entry.count
        invariant
            entry.inside(tiff.bytes@),
            i <= entry.count,
            out@ == numbers_of(tiff@, entry, i as int),
            out@.len() == i,
        decreases entry.count - i,
    {
        match tiff.u32(entry, i) {
            Some(v) => {
                out.push(v);
                i = i + 1;
            },
            None => {
                proof {
                    assert(numbers_of(tiff@, entry, i + 1) == out@);
                    lemma_numbers_stop(tiff@, entry, i + 1, entry.count as int);
                }
                return out;
            },
        }
    }
    out
}

/// The directory that a field points at with a plain offset: not a child,
/// but an ordinary one in the file's byte order once you go there.
pub open spec fn private_of(tiff: TiffModel, tag: u16) -> Option<TiffModel> {
    match tiff.field(tag) {
        Some(e) => match e.natural(tiff.bytes, tiff.little, 0) {
            Some(offset) => match bare_at(tiff.bytes, offset + tiff.base, 0, tiff.little) {
                Ok(found) => Some(found),
                Err(_) => None,
            },
            None => None,
        },
        None => None,
    }
}

/// The directory that a field points at with a plain offset.
pub fn private_ifd<'a>(tiff: &Tiff<'a>, tag: u16) -> (r: Option<Tiff<'a>>)
    requires
        tiff@.well_formed(),
    ensures
        match r {
            Some(found) => private_of(tiff@, tag) == Some(found@) && found@.well_formed()
                && found.bytes@ == tiff.bytes@ && found.little == tiff.little,
            None => private_of(tiff@, tag) is None,
        },
{
    assert(tiff.bytes@.len() == tiff.bytes.len());
    let e = match tiff.find(tag) {
        Some(e) => e,
        None => return None,
    };
    let offset: u32 = match tiff.u32(e, 0) {
        Some(offset) => offset,
        None => return None,
    };
    let at: u128 = offset as u128 + tiff.base as u128;
    if at > tiff.bytes.len() as u128 {
        return None;
    }
    match Tiff::parse_at(tiff.bytes, at as usize, tiff.little) {
        Ok(found) => Some(found),
        Err(_) => None,
    }
}

/// The largest picture of a file that is a TIFF.
pub open spec fn pictured(bytes: Seq<u8>) -> Outcome<Option<Seq<u8>>> {
    match tiff_at(bytes, 0) {
        Ok(tiff) => Ok(best_picture(tiff, tiff.ifds.len() as int)),
        Err(fault) => Err(fault),
    }
}

/// How a directory lays its samples out.
#[derive(Debug)]
pub struct ImageLayout {
    pub width: usize,
    pub height: usize,
    pub bits_per_sample: u32,
    pub compression: u32,
    /// Where the strips are, absolute, and how long.
    pub chunks: Vec<(usize, usize)>,
}

/// [`ImageLayout`] as a mathematical value.
pub struct LayoutModel {
    pub width: int,
    pub height: int,
    pub bits_per_sample: int,
    pub compression: int,
    pub chunks: Seq<(usize, usize)>,
}

impl View for ImageLayout {
    type V = LayoutModel;

    open spec fn view(&self) -> LayoutModel {
        LayoutModel {
            width: self.width as int,
            height: self.height as int,
            bits_per_sample: self.bits_per_sample as int,
            compression: self.compression as int,
            chunks: self.chunks@,
        }
    }
}

/// How many strips a directory lists: as many as both its fields have.
pub open spec fn strip_count(offsets: Option<Entry>, counts: Option<Entry>) -> int {
    match (offsets, counts) {
        (Some(a), Some(b)) => if a.count <= b.count {
            a.count as int
        } else {
            b.count as int
        },
        _ => 0,
    }
}

/// The first `n` strips; an error for one that is not a number or lies
/// outside the file.
pub open spec fn strips_of(tiff: TiffModel, offsets: Entry, counts: Entry, n: int) -> Outcome<
    Seq<(usize, usize)>,
>
    decreases n,
{
    if n <= 0 {
        Ok(Seq::empty())
    } else {
        match strips_of(tiff, offsets, counts, n - 1) {
            Err(fault) => Err(fault),
            Ok(before) => match (
                offsets.natural(tiff.bytes, tiff.little, n - 1),
                counts.natural(tiff.bytes, tiff.little, n - 1),
            ) {
                (Some(offset), Some(len)) => if tiff.base + offset + len > tiff.bytes.len() {
                    Err(Fault::Corrupt("image strip outside the file"@))
                } else {
                    Ok(before.push(((tiff.base + offset) as usize, len as usize)))
                },
                _ => Err(Fault::Corrupt("image strip outside the file"@)),
            },
        }
    }
}

/// The layout of a directory.
pub open spec fn layout_of(tiff: TiffModel, ifd: IfdModel) -> Outcome<LayoutModel> {
    match (tiff.number(ifd, IMAGE_WIDTH), tiff.number(ifd, IMAGE_LENGTH)) {
        (Some(width), Some(height)) => {
            let (offsets, counts) = (ifd.field(STRIP_OFFSETS), ifd.field(STRIP_BYTE_COUNTS));
            let chunks: Outcome<Seq<(usize, usize)>> = match (offsets, counts) {
                (Some(a), Some(b)) => strips_of(tiff, a, b, strip_count(offsets, counts)),
                _ => Ok(Seq::empty()),
            };
            match chunks {
                Err(fault) => Err(fault),
                Ok(chunks) => Ok(
                    LayoutModel {
                        width,
                        height,
                        bits_per_sample: match tiff.number(ifd, BITS_PER_SAMPLE) {
                            Some(bits) => bits,
                            None => 1,
                        },
                        compression: match tiff.number(ifd, COMPRESSION) {
                            Some(compression) => compression,
                            None => 1,
                        },
                        chunks,
                    },
                ),
            }
        },
        _ => Err(Fault::Corrupt("image directory without dimensions"@)),
    }
}

proof fn lemma_strips_fault(tiff: TiffModel, offsets: Entry, counts: Entry, some: int, n: int)
    requires
        some <= n,
        strips_of(tiff, offsets, counts, some) is Err,
    ensures
        strips_of(tiff, offsets, counts, n) == strips_of(tiff, offsets, counts, some),
    decreases n - some,
{
    if some < n {
        lemma_strips_fault(tiff, offsets, counts, some, n - 1);
    }
}

/// Whether every strip lies inside a file.
pub open spec fn strips_inside(bytes: Seq<u8>, chunks: Seq<(usize, usize)>) -> bool {
    forall|i: int|
        0 <= i < chunks.len() ==> (#[trigger] chunks[i]).0 + chunks[i].1 <= bytes.len()
}

fn read_strips(tiff: &Tiff<'_>, offsets: Entry, counts: Entry, n: usize) -> (r: Result<
    Vec<(usize, usize)>,
>)
    requires
        offsets.inside(tiff.bytes@),
        counts.inside(tiff.bytes@),
        tiff.base <= tiff.bytes@.len(),
    ensures
        match r {
            Ok(chunks) => strips_of(tiff@, offsets, counts, n as int) == Outcome::<
                Seq<(usize, usize)>,
            >::Ok(chunks@) && strips_inside(tiff.bytes@, chunks@),
            Err(e) => strips_of(tiff@, offsets, counts, n as int) == Outcome::<
                Seq<(usize, usize)>,
            >::Err(e@),
        },
{
    assert(tiff.bytes@.len() == tiff.bytes.len());
    let mut chunks: Vec<(usize, usize)> = Vec::new();
    let mut k: usize = 0;
    while k < n
        invariant
            tiff.bytes@.len() == tiff.bytes.len(),
            offsets.inside(tiff.bytes@),
            counts.inside(tiff.bytes@),
            tiff.base <= tiff.bytes@.len(),
            k <= n,
            strips_inside(tiff.bytes@, chunks@),
            strips_of(tiff@, offsets, counts, k as int) == Outcome::<Seq<(usize, usize)>>::Ok(
                chunks@,
            ),
        decreases n - k,
    {
        let (offset, len) = (tiff.u32(offsets, k), tiff.u32(counts, k));
        match (offset, len) {
            (Some(offset), Some(len)) => {
                let start: u128 = tiff.base as u128 + offset as u128;
                if start + len as u128 > tiff.bytes.len() as u128 {
                    proof {
                        lemma_strips_fault(tiff@, offsets, counts, k + 1, n as int);
                    }
                    return Err(corrupt("image strip outside the file"));
                }
                let ghost before = chunks@;
                chunks.push((start as usize, len as usize));
                proof {
                    let more = chunks@;
                    assert forall|i: int| 0 <= i < more.len() implies (#[trigger] more[i]).0
                        + more[i].1 <= tiff.bytes@.len() by {
                        if i < before.len() {
                            assert(more[i] == before[i]);
                        }
                    }
                }
            },
            _ => {
                proof {
                    lemma_strips_fault(tiff@, offsets, counts, k + 1, n as int);
                }
                return Err(corrupt("image strip outside the file"));
            },
        }
        k = k + 1;
    }
    Ok(chunks)
}

impl ImageLayout {
    /// Reads how a directory lays its samples out.
    pub fn of(tiff: &Tiff<'_>, ifd: &Ifd) -> (r: Result<ImageLayout>)
        requires
            tiff@.well_formed(),
            ifd@.inside(tiff.bytes@),
        ensures
            match r {
                Ok(layout) => layout_of(tiff@, ifd@) == Outcome::<LayoutModel>::Ok(layout@)
                    && strips_inside(tiff.bytes@, layout.chunks@),
                Err(e) => layout_of(tiff@, ifd@) == Outcome::<LayoutModel>::Err(e@),
            },
    {
        let (width, height) = match (
            first_number(tiff, ifd, IMAGE_WIDTH),
            first_number(tiff, ifd, IMAGE_LENGTH),
        ) {
            (Some(width), Some(height)) => (width, height),
            _ => return Err(corrupt("image directory without dimensions")),
        };
        let (offsets, counts) = (
            field_of(tiff, ifd, STRIP_OFFSETS),
            field_of(tiff, ifd, STRIP_BYTE_COUNTS),
        );
        let chunks: Vec<(usize, usize)> = match (offsets, counts) {
            (Some(a), Some(b)) => {
                let n: usize = if a.count <= b.count {
                    a.count
                } else {
                    b.count
                };
                match read_strips(tiff, a, b, n) {
                    Ok(chunks) => chunks,
                    Err(e) => return Err(e),
                }
            },
            _ => {
                let none: Vec<(usize, usize)> = Vec::new();
                assert(none@ =~= Seq::<(usize, usize)>::empty());
                none
            },
        };
        let bits_per_sample: u32 = match first_number(tiff, ifd, BITS_PER_SAMPLE) {
            Some(bits) => bits,
            None => 1,
        };
        let compression: u32 = match first_number(tiff, ifd, COMPRESSION) {
            Some(compression) => compression,
            None => 1,
        };
        Ok(
            ImageLayout {
                width: width as usize,
                height: height as usize,
                bits_per_sample,
                compression,
                chunks,
            },
        )
    }
}

/// The picture that is chosen is one of the directories', none is longer,
/// and none before it is as long; there is none only where no directory has
/// one.
pub proof fn law_the_largest_picture_is_chosen(tiff: TiffModel, n: int)
    requires
        0 <= n <= tiff.ifds.len(),
    ensures
        best_picture(tiff, n) is None <==> forall|k: int|
            0 <= k < n ==> ifd_picture(tiff, #[trigger] tiff.ifds[k]) is None,
        best_picture(tiff, n) matches Some(best) ==> exists|k: int|
            0 <= k < n && ifd_picture(tiff, #[trigger] tiff.ifds[k]) == Some(best) && (forall|j: int|
                0 <= j < k ==> (ifd_picture(tiff, #[trigger] tiff.ifds[j]) matches Some(other)
                    ==> other.len() < best.len())),
        best_picture(tiff, n) matches Some(best) ==> forall|j: int|
            0 <= j < n ==> (ifd_picture(tiff, #[trigger] tiff.ifds[j]) matches Some(other)
                ==> other.len() <= best.len()),
    decreases n,
{
    if n > 0 {
        law_the_largest_picture_is_chosen(tiff, n - 1);
        let last = tiff.ifds[n - 1];
        assert(ifd_picture(tiff, last) is Some ==> best_picture(tiff, n) is Some);
    }
}

/// A directory's picture is the stream that its tags 513 and 514 place and
/// measure, and where that is none the strip that 273 and 279 do: bytes of
/// the file that a viewer could show.
pub proof fn law_pictures_lie_where_their_tags_say(tiff: TiffModel, ifd: IfdModel)
    ensures
        ({
            let jpeg = (tiff.number(ifd, 513), tiff.number(ifd, 514));
            let strip = (tiff.number(ifd, 273), tiff.number(ifd, 279));
            let shows = |place: (Option<int>, Option<int>)|
                place.0 is Some && place.1 is Some && 0 <= tiff.base + place.0->0 && tiff.base
                    + place.0->0 + place.1->0 <= tiff.bytes.len() && displayable(
                    tiff.bytes.subrange(
                        tiff.base + place.0->0,
                        tiff.base + place.0->0 + place.1->0,
                    ),
                );
            let place = if shows(jpeg) {
                jpeg
            } else {
                strip
            };
            &&& shows(place) ==> ifd_picture(tiff, ifd) == Some(
                tiff.bytes.subrange(
                    tiff.base + place.0->0,
                    tiff.base + place.0->0 + place.1->0,
                ),
            )
            &&& !shows(place) ==> ifd_picture(tiff, ifd) is None
        }),
{
}

/// Which field every part of the shooting data comes from, by its tag.
pub proof fn law_shooting_data_comes_from_its_fields(tiff: TiffModel)
    ensures
        ({
            let m = metadata_of(tiff);
            let number = |tag: u16| match tiff.field(tag) {
                Some(e) => e.ratio(tiff.bytes, tiff.little, 0),
                None => None,
            };
            let words = |tag: u16| match text_in(tiff.bytes, tiff.field(tag)) {
                Some(t) => t,
                None => Seq::empty(),
            };
            &&& m.iso == number(34855)
            &&& m.exposure_time == number(33434)
            &&& m.f_number == number(33437)
            &&& m.focal_length == number(37386)
            &&& words(42036).len() > 0 ==> m.lens == Some(words(42036))
            &&& words(42036).len() == 0 ==> m.lens is None
            &&& words(36867).len() > 0 ==> m.date_time == Some(words(36867))
            &&& words(36867).len() == 0 && words(306).len() > 0 ==> m.date_time == Some(words(306))
            &&& words(36867).len() == 0 && words(306).len() == 0 ==> m.date_time is None
            &&& camera_of(tiff) == (words(271), words(272))
        }),
{
}

/// Merging keeps what the first source has and takes the rest from the
/// second, part by part.
pub proof fn law_merging_prefers_the_first<T>(
    first: MetadataModel<T>,
    second: MetadataModel<T>,
)
    ensures
        ({
            let m = merged(first, second);
            &&& m.iso == if first.iso is Some {
                first.iso
            } else {
                second.iso
            }
            &&& m.exposure_time == if first.exposure_time is Some {
                first.exposure_time
            } else {
                second.exposure_time
            }
            &&& m.f_number == if first.f_number is Some {
                first.f_number
            } else {
                second.f_number
            }
            &&& m.focal_length == if first.focal_length is Some {
                first.focal_length
            } else {
                second.focal_length
            }
            &&& m.lens == if first.lens is Some {
                first.lens
            } else {
                second.lens
            }
            &&& m.date_time == if first.date_time is Some {
                first.date_time
            } else {
                second.date_time
            }
        }),
{
}

/// Whether a strip lies in the file where element `k` of one field says,
/// and is as long as that of another says.
pub open spec fn is_strip(
    tiff: TiffModel,
    offsets: Entry,
    counts: Entry,
    k: int,
    strip: (usize, usize),
) -> bool {
    &&& offsets.natural(tiff.bytes, tiff.little, k) == Some(strip.0 - tiff.base)
    &&& counts.natural(tiff.bytes, tiff.little, k) == Some(strip.1 as int)
    &&& strip.0 + strip.1 <= tiff.bytes.len()
}

proof fn lemma_strips(tiff: TiffModel, offsets: Entry, counts: Entry, n: int)
    requires
        0 <= n,
        0 <= tiff.base,
        tiff.bytes.len() <= usize::MAX,
        strips_of(tiff, offsets, counts, n) is Ok,
    ensures
        strips_of(tiff, offsets, counts, n)->Ok_0.len() == n,
        forall|k: int|
            0 <= k < n ==> is_strip(
                tiff,
                offsets,
                counts,
                k,
                #[trigger] strips_of(tiff, offsets, counts, n)->Ok_0[k],
            ),
    decreases n,
{
    if n > 0 {
        lemma_strips(tiff, offsets, counts, n - 1);
        let before = strips_of(tiff, offsets, counts, n - 1)->Ok_0;
        let all = strips_of(tiff, offsets, counts, n)->Ok_0;
        assert forall|k: int| 0 <= k < n implies is_strip(
            tiff,
            offsets,
            counts,
            k,
            #[trigger] all[k],
        ) by {
            if k < n - 1 {
                assert(all[k] == before[k]);
            }
        }
    }
}

/// How a directory lays its samples out: tags 256 and 257 are its size, 258
/// and 259 the bits of a sample and the compression, which are one where
/// they are missing, and each strip lies in the file at the offset of tag
/// 273 with the length of tag 279.
pub proof fn law_layouts_say_what_their_tags_say(tiff: TiffModel, ifd: IfdModel)
    requires
        0 <= tiff.base,
        tiff.bytes.len() <= usize::MAX,
    ensures
        layout_of(tiff, ifd) matches Ok(layout) ==> {
            &&& tiff.number(ifd, 256) == Some(layout.width)
            &&& tiff.number(ifd, 257) == Some(layout.height)
            &&& layout.bits_per_sample == if tiff.number(ifd, 258) is Some {
                tiff.number(ifd, 258)->0
            } else {
                1
            }
            &&& layout.compression == if tiff.number(ifd, 259) is Some {
                tiff.number(ifd, 259)->0
            } else {
                1
            }
            &&& (ifd.field(273), ifd.field(279)) matches (Some(offsets), Some(counts)) ==> {
                &&& layout.chunks.len() <= offsets.count
                &&& layout.chunks.len() <= counts.count
                &&& layout.chunks.len() == offsets.count || layout.chunks.len() == counts.count
                &&& forall|k: int|
                    0 <= k < layout.chunks.len() ==> is_strip(
                        tiff,
                        offsets,
                        counts,
                        k,
                        #[trigger] layout.chunks[k],
                    )
            }
            &&& (ifd.field(273) is None || ifd.field(279) is None) ==> layout.chunks.len() == 0
        },
        tiff.number(ifd, 256) is None || tiff.number(ifd, 257) is None ==> layout_of(
            tiff,
            ifd,
        ) is Err,
{
    if layout_of(tiff, ifd) is Ok {
        if let (Some(a), Some(b)) = (ifd.field(273), ifd.field(279)) {
            lemma_strips(tiff, a, b, strip_count(Some(a), Some(b)));
        }
    }
}

} // verus!
