//! Canon CRW: the CIFF container, and what can be done with what is inside
//! it.
//!
//! CIFF is a heap of typed records read from the back. A header (`II` or
//! `MM`, the header length, the signature `HEAPCCDR`) is followed by one
//! big heap running to the end of the file; the last four bytes of a heap
//! give the offset of its directory, relative to the heap's own start, and
//! the directory is a count followed by ten-byte entries of tag, length
//! and offset. A sub-heap is the same structure again with a new origin.

use crate::bytes::{
    find_part_end, find_word16, find_word32, has_tag, holds_number,
    law_numbers_are_read_from_their_bytes, owned, part_end, signed32, tagged, word16, word16_in,
    word32, word32_in,
};
use crate::raw::bits::{
    after, law_numbers_are_read_back, lemma_after_after, msb_bits, word, BitPump, BitPumpMsb,
};
use crate::raw::formats::srw::{lemma_packed_bits, packed_bits};
use crate::raw::frame::{
    no_metadata, plain_image, Gain, Metadata, MetadataModel, Ratio, RawImage, RawModel,
};
use crate::raw::image::{exif_orientation, Cfa, CfaColor, CfaKind, CfaModel, Orientation};
use crate::raw::{
    corrupt, deep_outcome, preview_outcome, Error, Fault, Format, Outcome, Rect, Result,
};
use crate::text::{
    characters, contains_text, decimal, has_text, hex_word, joined, lossy_text, push_decimal,
    push_hex_word, strip_controls, text_of, trim, trimmed, without_controls,
};
use vstd::arithmetic::power2::{lemma2_to64, pow2};
use vstd::prelude::*;
use vstd::slice::slice_subrange;

verus! {

/// Make and model in one ASCII record.
pub const MAKE_MODEL: u16 = 0x080A;

/// Focal length, after its record's length and type.
pub const FOCAL_LENGTH: u16 = 0x1029;

/// The sensor frame and the picture's borders within it.
pub const SENSOR_INFO: u16 = 0x1031;

/// Which Huffman table set the image used; only on a compressed image.
pub const DECODER_TABLE: u16 = 0x1835;

/// White balance levels, several sets of four.
pub const WHITE_BALANCE: u16 = 0x10A9;

/// The picture's width, height, aspect and rotation.
pub const IMAGE_INFO: u16 = 0x1810;

/// The sensor data.
pub const IMAGE_DATA: u16 = 0x2005;

/// The camera's own full-size JPEG.
pub const JPEG: u16 = 0x2007;

/// Ceilings so that a corrupt file cannot make the walk loop or allocate.
pub const MAX_RECORDS: usize = 4096;

pub const MAX_DEPTH: usize = 6;

/// One record, resolved to a position in the file.
#[derive(Debug, Clone, Copy, PartialEq, Eq, Structural)]
pub struct Record {
    pub tag: u16,
    /// Where the value's bytes are, absolute.
    pub at: usize,
    pub len: usize,
}

/// Whether a record's value is the last eight bytes of its entry.
pub open spec fn in_entry(tag: int) -> bool {
    tag / 0x4000 % 2 == 1
}

/// Whether a record holds a heap of its own.
pub open spec fn is_heap(tag: int) -> bool {
    !in_entry(tag) && (tag / 0x800 % 8 == 5 || tag / 0x800 % 8 == 6)
}

/// The record of the directory entry at `entry`, unless its value lies
/// outside the heap.
pub open spec fn record_at(bytes: Seq<u8>, little: bool, base: int, end: int, entry: int) -> Option<
    Record,
> {
    let tag = word16(bytes, entry, little);
    let length = word32(bytes, entry + 2, little);
    let offset = word32(bytes, entry + 6, little);
    if in_entry(tag) {
        Some(Record { tag: tag as u16, at: (entry + 2) as usize, len: 8 })
    } else if base + offset + length > end {
        None
    } else {
        Some(Record { tag: tag as u16, at: (base + offset) as usize, len: length as usize })
    }
}

/// The records found so far, then those of a heap and of every heap under
/// it.
pub open spec fn walked(
    bytes: Seq<u8>,
    little: bool,
    records: Seq<Record>,
    base: int,
    len: int,
    depth: nat,
) -> Seq<Record>
    decreases MAX_DEPTH + 1 - depth, 1nat, 0nat,
{
    let end = base + len;
    if depth > MAX_DEPTH || len < 4 || records.len() >= MAX_RECORDS || end > bytes.len() {
        records
    } else {
        let directory = base + word32(bytes, end - 4, little);
        match word16_in(bytes, directory, little) {
            None => records,
            Some(count) => entries(
                bytes,
                little,
                records,
                base,
                end,
                depth,
                directory,
                count,
                0,
            ),
        }
    }
}

/// The records found so far, then those of a directory from entry `i` on.
pub open spec fn entries(
    bytes: Seq<u8>,
    little: bool,
    records: Seq<Record>,
    base: int,
    end: int,
    depth: nat,
    directory: int,
    count: int,
    i: int,
) -> Seq<Record>
    decreases MAX_DEPTH + 1 - depth, 0nat, (count - i) as nat,
{
    let entry = directory + 2 + i * 10;
    if i < 0 || i >= count || depth > MAX_DEPTH || records.len() >= MAX_RECORDS || entry + 10 > end {
        records
    } else {
        let found = match record_at(bytes, little, base, end, entry) {
            None => records,
            Some(record) => if is_heap(record.tag as int) {
                walked(
                    bytes,
                    little,
                    records.push(record),
                    record.at as int,
                    record.len as int,
                    depth + 1,
                )
            } else {
                records.push(record)
            },
        };
        entries(bytes, little, found, base, end, depth, directory, count, i + 1)
    }
}

/// Whether every record lies inside the file.
pub open spec fn all_inside(bytes: Seq<u8>, records: Seq<Record>) -> bool {
    forall|i: int|
        0 <= i < records.len() ==> (#[trigger] records[i]).at + records[i].len <= bytes.len()
}

/// Whether a list of records is another with records added that all lie
/// in one stretch of the file.
pub open spec fn grown(before: Seq<Record>, after: Seq<Record>, base: int, end: int) -> bool {
    &&& before.len() <= after.len()
    &&& forall|i: int| 0 <= i < before.len() ==> #[trigger] after[i] == before[i]
    &&& forall|i: int|
        before.len() <= i < after.len() ==> base <= (#[trigger] after[i]).at && after[i].at
            + after[i].len <= end
}

proof fn lemma_walked_grows(
    bytes: Seq<u8>,
    little: bool,
    records: Seq<Record>,
    base: int,
    len: int,
    depth: nat,
)
    requires
        records.len() <= MAX_RECORDS,
        bytes.len() <= usize::MAX,
        0 <= base,
    ensures
        grown(records, walked(bytes, little, records, base, len, depth), base, base + len),
        walked(bytes, little, records, base, len, depth).len() <= MAX_RECORDS,
    decreases MAX_DEPTH + 1 - depth, 1nat, 0nat,
{
    let end = base + len;
    if !(depth > MAX_DEPTH || len < 4 || records.len() >= MAX_RECORDS || end > bytes.len()) {
        let directory = base + word32(bytes, end - 4, little);
        if let Some(count) = word16_in(bytes, directory, little) {
            lemma_entries_grow(bytes, little, records, base, end, depth, directory, count, 0);
        }
    }
}

proof fn lemma_entries_grow(
    bytes: Seq<u8>,
    little: bool,
    records: Seq<Record>,
    base: int,
    end: int,
    depth: nat,
    directory: int,
    count: int,
    i: int,
)
    requires
        records.len() <= MAX_RECORDS,
        bytes.len() <= usize::MAX,
        0 <= base <= directory,
        end <= bytes.len(),
    ensures
        grown(
            records,
            entries(bytes, little, records, base, end, depth, directory, count, i),
            base,
            end,
        ),
        entries(bytes, little, records, base, end, depth, directory, count, i).len()
            <= MAX_RECORDS,
    decreases MAX_DEPTH + 1 - depth, 0nat, (count - i) as nat,
{
    let entry = directory + 2 + i * 10;
    if !(i < 0 || i >= count || depth > MAX_DEPTH || records.len() >= MAX_RECORDS || entry + 10
        > end) {
        let found = match record_at(bytes, little, base, end, entry) {
            None => records,
            Some(record) => if is_heap(record.tag as int) {
                walked(
                    bytes,
                    little,
                    records.push(record),
                    record.at as int,
                    record.len as int,
                    depth + 1,
                )
            } else {
                records.push(record)
            },
        };
        if let Some(record) = record_at(bytes, little, base, end, entry) {
            let pushed = records.push(record);
            assert(base <= record.at && record.at + record.len <= end);
            if is_heap(record.tag as int) {
                lemma_walked_grows(
                    bytes,
                    little,
                    pushed,
                    record.at as int,
                    record.len as int,
                    depth + 1,
                );
                assert(found[records.len() as int] == pushed[records.len() as int]);
                assert forall|k: int| 0 <= k < records.len() implies #[trigger] found[k]
                    == records[k] by {
                    assert(found[k] == pushed[k]);
                }
            }
        }
        assert(grown(records, found, base, end));
        lemma_entries_grow(bytes, little, found, base, end, depth, directory, count, i + 1);
        let after = entries(bytes, little, found, base, end, depth, directory, count, i + 1);
        assert forall|k: int| 0 <= k < records.len() implies #[trigger] after[k]
            == records[k] by {
            assert(after[k] == found[k]);
        }
        assert forall|k: int| records.len() <= k < after.len() implies base <= (
        #[trigger] after[k]).at && after[k].at + after[k].len <= end by {
            if k < found.len() {
                assert(after[k] == found[k]);
            }
        }
    }
}

proof fn lemma_walked_inside(
    bytes: Seq<u8>,
    little: bool,
    records: Seq<Record>,
    base: int,
    len: int,
    depth: nat,
)
    requires
        records.len() <= MAX_RECORDS,
        all_inside(bytes, records),
        bytes.len() <= usize::MAX,
        0 <= base,
    ensures
        all_inside(bytes, walked(bytes, little, records, base, len, depth)),
{
    let after = walked(bytes, little, records, base, len, depth);
    lemma_walked_grows(bytes, little, records, base, len, depth);
    assert forall|i: int| 0 <= i < after.len() implies (#[trigger] after[i]).at + after[i].len
        <= bytes.len() by {
        if i < records.len() {
            assert(after[i] == records[i]);
        }
    }
}

/// A walk never leaves the file and never gathers more than its ceiling.
pub proof fn law_a_walk_is_bounded(bytes: Seq<u8>, little: bool, base: int, len: int, depth: nat)
    requires
        bytes.len() <= usize::MAX,
        0 <= base,
    ensures
        all_inside(bytes, walked(bytes, little, Seq::empty(), base, len, depth)),
        walked(bytes, little, Seq::empty(), base, len, depth).len() <= MAX_RECORDS,
{
    lemma_walked_inside(bytes, little, Seq::empty(), base, len, depth);
    lemma_walked_grows(bytes, little, Seq::empty(), base, len, depth);
}

/// A walk keeps the records it was given, in front, and adds only such as
/// lie inside the heap it walks: one outside its own heap is dropped. The
/// ceiling holds for old and new together. A heap too deep, too short for
/// a directory or past the end of the file adds nothing.
pub proof fn law_a_walk_only_adds(
    bytes: Seq<u8>,
    little: bool,
    records: Seq<Record>,
    base: int,
    len: int,
    depth: nat,
)
    requires
        bytes.len() <= usize::MAX,
        records.len() <= MAX_RECORDS,
        0 <= base,
    ensures
        ({
            let after = walked(bytes, little, records, base, len, depth);
            &&& records.len() <= after.len() <= MAX_RECORDS
            &&& after.take(records.len() as int) == records
            &&& forall|i: int|
                records.len() <= i < after.len() ==> base <= (#[trigger] after[i]).at
                    && after[i].at + after[i].len <= base + len <= bytes.len()
            &&& depth > MAX_DEPTH || len < 4 || base + len > bytes.len() ==> after == records
        }),
{
    let after = walked(bytes, little, records, base, len, depth);
    lemma_walked_grows(bytes, little, records, base, len, depth);
    assert(after.take(records.len() as int) =~= records);
}

/// Reads one entry of a directory.
fn read_record(bytes: &[u8], little: bool, base: usize, end: usize, entry: usize) -> (r: Option<
    Record,
>)
    requires
        base <= end <= bytes@.len(),
        entry + 10 <= end,
    ensures
        r == record_at(bytes@, little, base as int, end as int, entry as int),
{
    assert(bytes@.len() == bytes.len());
    let tag: u16 = match find_word16(bytes, entry as u64, little) {
        Some(tag) => tag,
        None => return None,
    };
    let length: u32 = match find_word32(bytes, (entry + 2) as u64, little) {
        Some(length) => length,
        None => return None,
    };
    let offset: u32 = match find_word32(bytes, (entry + 6) as u64, little) {
        Some(offset) => offset,
        None => return None,
    };
    if tag / 0x4000 % 2 == 1 {
        Some(Record { tag, at: entry + 2, len: 8 })
    } else {
        let value_end: u128 = base as u128 + offset as u128 + length as u128;
        if value_end > end as u128 {
            None
        } else {
            Some(Record { tag, at: base + offset as usize, len: length as usize })
        }
    }
}

/// A parsed CIFF: every record in the file, in the order the heaps put
/// them, with the byte order the header names.
pub struct Ciff<'a> {
    pub bytes: &'a [u8],
    pub little_endian: bool,
    pub records: Vec<Record>,
}

/// Whether the ten bytes of an entry place a record: its tag, and then its
/// length and where it starts in the heap, unless bit 14 of the tag says
/// that those eight bytes are the value itself.
pub open spec fn places_record(
    bytes: Seq<u8>,
    little: bool,
    base: int,
    entry: int,
    record: Record,
) -> bool {
    &&& holds_number(bytes, entry, record.tag as int, 2, little)
    &&& if record.tag as int / 16384 % 2 == 1 {
        record.at == entry + 2 && record.len == 8
    } else {
        &&& record.len < 0x1_0000_0000
        &&& 0 <= record.at - base < 0x1_0000_0000
        &&& holds_number(bytes, entry + 2, record.len as int, 4, little)
        &&& holds_number(bytes, entry + 6, record.at - base, 4, little)
    }
}

/// Whether a tag's kind, which is its bits 11 to 13, is that of a heap.
pub open spec fn kind_of_heap(tag: u16) -> bool {
    tag as int / 16384 % 2 == 0 && (tag as int / 2048 % 8 == 5 || tag as int / 2048 % 8 == 6)
}

proof fn lemma_entries_listed(
    bytes: Seq<u8>,
    little: bool,
    before: Seq<Record>,
    list: Seq<Record>,
    base: int,
    end: int,
    depth: nat,
    directory: int,
    i: int,
)
    requires
        0 <= i <= list.len(),
        depth <= MAX_DEPTH,
        0 <= base,
        0 <= directory,
        end <= bytes.len() <= usize::MAX,
        directory + 2 + 10 * list.len() <= end,
        before.len() + list.len() <= MAX_RECORDS,
        forall|k: int|
            0 <= k < list.len() ==> places_record(
                bytes,
                little,
                base,
                directory + 2 + 10 * k,
                #[trigger] list[k],
            ) && list[k].at + list[k].len <= end && !kind_of_heap(list[k].tag),
    ensures
        entries(
            bytes,
            little,
            before + list.take(i),
            base,
            end,
            depth,
            directory,
            list.len() as int,
            i,
        ) == before + list,
    decreases list.len() - i,
{
    if i == list.len() {
        assert(list.take(i) =~= list);
    } else {
        let record = list[i];
        let entry = directory + 2 + i * 10;
        assert(entry == directory + 2 + 10 * i);
        law_numbers_are_read_from_their_bytes(bytes, entry, record.tag as int, little);
        law_numbers_are_read_from_their_bytes(bytes, entry + 2, record.len as int, little);
        law_numbers_are_read_from_their_bytes(bytes, entry + 6, record.at - base, little);
        assert(record_at(bytes, little, base, end, entry) == Some(record));
        assert((before + list.take(i)).push(record) =~= before + list.take(i + 1));
        lemma_entries_listed(
            bytes,
            little,
            before,
            list,
            base,
            end,
            depth,
            directory,
            i + 1,
        );
    }
}

/// The records of a heap without heaps in it are read back from its
/// directory, which the heap's last four bytes place: how many there are,
/// and an entry for each.
pub proof fn law_a_heap_lists_its_records(
    bytes: Seq<u8>,
    little: bool,
    before: Seq<Record>,
    list: Seq<Record>,
    base: int,
    len: int,
    depth: nat,
    directory: int,
)
    requires
        depth <= MAX_DEPTH,
        0 <= base <= directory,
        4 <= len,
        base + len <= bytes.len() <= usize::MAX,
        directory - base < 0x1_0000_0000,
        holds_number(bytes, base + len - 4, directory - base, 4, little),
        list.len() < 0x1_0000,
        holds_number(bytes, directory, list.len() as int, 2, little),
        directory + 2 + 10 * list.len() <= base + len,
        before.len() + list.len() <= MAX_RECORDS,
        forall|k: int|
            0 <= k < list.len() ==> places_record(
                bytes,
                little,
                base,
                directory + 2 + 10 * k,
                #[trigger] list[k],
            ) && list[k].at + list[k].len <= base + len && !kind_of_heap(list[k].tag),
    ensures
        walked(bytes, little, before, base, len, depth) == before + list,
{
    law_numbers_are_read_from_their_bytes(bytes, base + len - 4, directory - base, little);
    law_numbers_are_read_from_their_bytes(bytes, directory, list.len() as int, little);
    assert(before + list.take(0) =~= before);
    if before.len() < MAX_RECORDS {
        lemma_entries_listed(
            bytes,
            little,
            before,
            list,
            base,
            base + len,
            depth,
            directory,
            0,
        );
    } else {
        assert(before + list =~= before);
    }
}

/// The records of a file.
pub open spec fn records_of(bytes: Seq<u8>) -> Outcome<(bool, Seq<Record>)> {
    if !tagged(bytes, 6, "HEAPCCDR"@) {
        Err(Fault::Corrupt("crw: not a HEAPCCDR file"@))
    } else if !tagged(bytes, 0, "II"@) && !tagged(bytes, 0, "MM"@) {
        Err(Fault::Corrupt("crw: no byte order mark"@))
    } else {
        let little = tagged(bytes, 0, "II"@);
        let start = word32(bytes, 2, little);
        let len = if start <= bytes.len() {
            bytes.len() - start
        } else {
            0
        };
        let records = walked(bytes, little, Seq::empty(), start, len, 0);
        if records.len() == 0 {
            Err(Fault::Corrupt("crw: no readable records"@))
        } else {
            Ok((little, records))
        }
    }
}

/// The first record with a tag, from record `i` on.
pub open spec fn first_from(records: Seq<Record>, tag: u16, i: int) -> Option<Record>
    decreases records.len() - i,
{
    if i < 0 || i >= records.len() {
        None
    } else if records[i].tag == tag {
        Some(records[i])
    } else {
        first_from(records, tag, i + 1)
    }
}

proof fn lemma_first_inside(bytes: Seq<u8>, records: Seq<Record>, tag: u16, i: int)
    requires
        all_inside(bytes, records),
    ensures
        match first_from(records, tag, i) {
            Some(record) => record.at + record.len <= bytes.len() && record.tag == tag,
            None => true,
        },
    decreases records.len() - i,
{
    if 0 <= i < records.len() && records[i].tag != tag {
        lemma_first_inside(bytes, records, tag, i + 1);
    }
}

/// The record that is found is the first with its tag; none is found only
/// where none has it.
pub proof fn law_the_first_record_is_found(records: Seq<Record>, tag: u16, i: int)
    requires
        0 <= i <= records.len(),
    ensures
        match first_from(records, tag, i) {
            Some(record) => exists|k: int|
                i <= k < records.len() && #[trigger] records[k] == record && record.tag == tag && (
                forall|j: int| i <= j < k ==> (#[trigger] records[j]).tag != tag),
            None => forall|k: int|
                i <= k < records.len() ==> (#[trigger] records[k]).tag != tag,
        },
    decreases records.len() - i,
{
    if i < records.len() && records[i].tag != tag {
        law_the_first_record_is_found(records, tag, i + 1);
    }
}

/// A heap's text record part: what its bytes say, without control
/// characters and without the space around it.
pub open spec fn cleaned(text: Seq<char>) -> Seq<char> {
    trimmed(without_controls(text))
}

/// Cleans a text of control characters and of the space around it.
pub fn clean(text: &str) -> (r: String)
    ensures
        r@ == cleaned(text@),
{
    let all = characters(text);
    let printable = strip_controls(all.as_slice());
    joined(trim(printable.as_slice()).as_slice())
}

/// The first two NUL-separated parts of a record; a missing one is empty.
pub open spec fn two_parts(bytes: Seq<u8>) -> (Seq<u8>, Option<Seq<u8>>) {
    let first = part_end(bytes, 0);
    (
        bytes.subrange(0, first),
        if first < bytes.len() {
            Some(bytes.subrange(first + 1, part_end(bytes, first + 1)))
        } else {
            None
        },
    )
}

/// `0x1031`: the sensor frame, and the picture's inclusive borders in it.
#[derive(Debug, Clone, Copy, PartialEq, Eq, Structural)]
pub struct SensorInfo {
    pub width: usize,
    pub height: usize,
    pub left: usize,
    pub top: usize,
    pub right: usize,
    pub bottom: usize,
}

impl SensorInfo {
    /// The borders as a rectangle, when they lie inside the frame.
    pub open spec fn crop_spec(self, width: usize, height: usize) -> Option<Rect> {
        if self.left <= self.right < width && self.top <= self.bottom < height {
            Some(
                Rect {
                    x: self.left,
                    y: self.top,
                    width: (self.right - self.left + 1) as usize,
                    height: (self.bottom - self.top + 1) as usize,
                },
            )
        } else {
            None
        }
    }

    /// The borders as a rectangle, when they lie inside the frame.
    pub fn crop(&self, width: usize, height: usize) -> (r: Option<Rect>)
        ensures
            r == self.crop_spec(width, height),
    {
        if self.left <= self.right && self.right < width && self.top <= self.bottom && self.bottom
            < height {
            Some(
                Rect {
                    x: self.left,
                    y: self.top,
                    width: self.right - self.left + 1,
                    height: self.bottom - self.top + 1,
                },
            )
        } else {
            None
        }
    }
}

/// `0x1810`: what the camera would have made of the frame.
#[derive(Debug, Clone, Copy, PartialEq, Eq, Structural)]
pub struct ImageInfo {
    pub height: usize,
    pub orientation: Orientation,
}

/// The orientation that a rotation in degrees clockwise stands for, whole
/// turns aside.
pub open spec fn rotation(degrees: int) -> Orientation {
    if degrees % 360 == 90 {
        Orientation::Rotate90CW
    } else if degrees % 360 == 180 {
        Orientation::Rotate180
    } else if degrees % 360 == 270 {
        Orientation::Rotate270CW
    } else {
        Orientation::Normal
    }
}

/// A rotation turns a picture as the orientation tag of the same meaning
/// does: by a quarter six, by a half three, and by three quarters eight,
/// however many whole turns come on top and whichever way round.
pub proof fn law_rotations_are_orientations(degrees: int, turns: int)
    ensures
        rotation(90 + 360 * turns) == exif_orientation(6),
        rotation(180 + 360 * turns) == exif_orientation(3),
        rotation(270 + 360 * turns) == exif_orientation(8),
        rotation(-90 + 360 * turns) == exif_orientation(8),
        rotation(360 * turns) == exif_orientation(1),
        degrees % 90 != 0 ==> rotation(degrees) == exif_orientation(1),
{
}

fn rotation_of(word: u32) -> (r: Orientation)
    ensures
        r == rotation(signed32(word as int)),
{
    // 2^32 is 256 past a whole number of turns.
    let turn: u32 = if word <= 0x7fff_ffff {
        word % 360
    } else {
        (word % 360 + 104) % 360
    };
    assert(turn == signed32(word as int) % 360);
    match turn {
        90 => Orientation::Rotate90CW,
        180 => Orientation::Rotate180,
        270 => Orientation::Rotate270CW,
        _ => Orientation::Normal,
    }
}

/// A [`Ciff`] as a mathematical value.
pub struct CiffModel {
    pub bytes: Seq<u8>,
    pub little: bool,
    pub records: Seq<Record>,
}

impl<'a> View for Ciff<'a> {
    type V = CiffModel;

    open spec fn view(&self) -> CiffModel {
        CiffModel { bytes: self.bytes@, little: self.little_endian, records: self.records@ }
    }
}

impl CiffModel {
    /// Whether every record lies inside the file.
    pub open spec fn well_formed(self) -> bool {
        all_inside(self.bytes, self.records)
    }

    /// The first record with a tag.
    pub open spec fn record(self, tag: u16) -> Option<Record> {
        first_from(self.records, tag, 0)
    }

    /// The bytes of the first record with a tag.
    pub open spec fn value(self, tag: u16) -> Option<Seq<u8>> {
        match self.record(tag) {
            Some(record) => Some(self.bytes.subrange(record.at as int, record.at + record.len)),
            None => None,
        }
    }

    /// The 16-bit elements of a record; none for a record that is absent.
    pub open spec fn words(self, tag: u16) -> Seq<u16> {
        match self.record(tag) {
            Some(record) => Seq::new(
                (record.len / 2) as nat,
                |i: int| word16(self.bytes, record.at + 2 * i, self.little) as u16,
            ),
            None => Seq::empty(),
        }
    }

    /// The 32-bit elements of a record; none for a record that is absent.
    pub open spec fn wide_words(self, tag: u16) -> Seq<u32> {
        match self.record(tag) {
            Some(record) => Seq::new(
                (record.len / 4) as nat,
                |i: int| word32(self.bytes, record.at + 4 * i, self.little) as u32,
            ),
            None => Seq::empty(),
        }
    }

    /// The make and the model.
    pub open spec fn camera(self) -> (Seq<char>, Seq<char>) {
        match self.value(MAKE_MODEL) {
            None => (Seq::empty(), Seq::empty()),
            Some(bytes) => {
                let (make, model) = two_parts(bytes);
                (
                    cleaned(lossy_text(make)),
                    match model {
                        Some(model) => cleaned(lossy_text(model)),
                        None => Seq::empty(),
                    },
                )
            },
        }
    }

    /// The sensor frame and the picture in it.
    pub open spec fn sensor(self) -> Option<SensorInfo> {
        let v = self.words(SENSOR_INFO);
        if v.len() < 9 || v[1] == 0 || v[2] == 0 {
            None
        } else {
            Some(
                SensorInfo {
                    width: v[1] as usize,
                    height: v[2] as usize,
                    left: v[5] as usize,
                    top: v[6] as usize,
                    right: v[7] as usize,
                    bottom: v[8] as usize,
                },
            )
        }
    }

    /// The picture's height and rotation.
    pub open spec fn info(self) -> Option<ImageInfo> {
        let v = self.wide_words(IMAGE_INFO);
        if v.len() < 4 {
            None
        } else {
            Some(
                ImageInfo {
                    height: v[1] as usize,
                    orientation: rotation(signed32(v[3] as int)),
                },
            )
        }
    }

    /// The as-shot white balance, R G B G2 relative to the first green.
    pub open spec fn balance(self) -> Option<Seq<Gain>> {
        let v = self.words(WHITE_BALANCE);
        if v.len() < 5 || v[1] == 0 || v[2] == 0 || v[4] == 0 {
            None
        } else {
            Some(
                seq![
                    Gain::of(v[1] as u32, v[2] as u32),
                    Gain::unit(),
                    Gain::of(v[4] as u32, v[2] as u32),
                    Gain::of(v[3] as u32, v[2] as u32),
                ],
            )
        }
    }

    /// The camera's own JPEG, if the record is one.
    pub open spec fn picture(self) -> Option<Seq<u8>> {
        match self.value(JPEG) {
            Some(stream) => if stream.len() >= 2 && stream[0] == 0xff && stream[1] == 0xd8 {
                Some(stream)
            } else {
                None
            },
            None => None,
        }
    }

    /// The shooting data: the focal length in millimetres.
    pub open spec fn shot(self) -> MetadataModel<Ratio> {
        let v = self.words(FOCAL_LENGTH);
        MetadataModel {
            focal_length: if v.len() >= 3 && v[2] > 0 {
                Some(Ratio::whole(v[2] as u32))
            } else {
                None
            },
            ..no_metadata()
        }
    }
}

impl<'a> Ciff<'a> {
    /// Reads a file's records.
    pub fn parse(bytes: &'a [u8]) -> (r: Result<Ciff<'a>>)
        ensures
            match r {
                Ok(ciff) => {
                    &&& ciff.bytes@ == bytes@
                    &&& ciff@.well_formed()
                    &&& records_of(bytes@) == Outcome::<(bool, Seq<Record>)>::Ok(
                        (ciff.little_endian, ciff.records@),
                    )
                },
                Err(e) => records_of(bytes@) == Outcome::<(bool, Seq<Record>)>::Err(e@),
            },
    {
        assert(bytes@.len() == bytes.len());
        if !has_tag(bytes, 6, "HEAPCCDR") {
            return Err(corrupt("crw: not a HEAPCCDR file"));
        }
        let little: bool = has_tag(bytes, 0, "II");
        if !little && !has_tag(bytes, 0, "MM") {
            return Err(corrupt("crw: no byte order mark"));
        }
        proof {
            reveal_strlit("HEAPCCDR");
        }
        let start: u32 = match find_word32(bytes, 2, little) {
            Some(start) => start,
            None => 0,
        };
        let mut ciff = Ciff { bytes, little_endian: little, records: Vec::new() };
        if start as u64 <= bytes.len() as u64 {
            let start: usize = start as usize;
            ciff.walk(start, bytes.len() - start, 0);
        } else {
            assert(ciff.records@ =~= walked(bytes@, little, Seq::empty(), start as int, 0, 0));
        }
        proof {
            let len = if start <= bytes@.len() {
                bytes@.len() - start
            } else {
                0
            };
            lemma_walked_inside(bytes@, little, Seq::empty(), start as int, len, 0);
        }
        if ciff.records.len() == 0 {
            return Err(corrupt("crw: no readable records"));
        }
        Ok(ciff)
    }

    /// Reads one heap's directory and every heap under it.
    ///
    /// A heap keeps its directory at the end and points at it with the last
    /// four bytes, so the walk is back to front; a record that does not lie
    /// inside its own heap is dropped rather than followed, which is what
    /// keeps a truncated file harmless.
    pub fn walk(&mut self, base: usize, len: usize, depth: usize)
        ensures
            final(self).bytes == old(self).bytes,
            final(self).little_endian == old(self).little_endian,
            final(self).records@ == walked(
                old(self).bytes@,
                old(self).little_endian,
                old(self).records@,
                base as int,
                len as int,
                depth as nat,
            ),
            old(self).records@.len() <= MAX_RECORDS ==> ({
                let (before, after) = (old(self).records@, final(self).records@);
                &&& before.len() <= after.len() <= MAX_RECORDS
                &&& after.take(before.len() as int) == before
                &&& forall|i: int|
                    before.len() <= i < after.len() ==> base <= (#[trigger] after[i]).at
                        && after[i].at + after[i].len <= base + len <= old(self).bytes@.len()
            }),
            depth > MAX_DEPTH || len < 4 || base + len > old(self).bytes@.len()
                ==> final(self).records@ == old(self).records@,
        decreases MAX_DEPTH + 1 - depth,
    {
        let ghost start = self.records@;
        let (bytes, little): (&[u8], bool) = (self.bytes, self.little_endian);
        assert(bytes@.len() == bytes.len());
        let ghost goal = walked(bytes@, little, start, base as int, len as int, depth as nat);
        proof {
            if start.len() <= MAX_RECORDS {
                law_a_walk_only_adds(
                    bytes@,
                    little,
                    start,
                    base as int,
                    len as int,
                    depth as nat,
                );
            }
        }
        if depth > MAX_DEPTH || len < 4 || self.records.len() >= MAX_RECORDS {
            return;
        }
        if base > bytes.len() || len > bytes.len() - base {
            return;
        }
        let end: usize = base + len;
        let directory: u128 = match find_word32(bytes, (end - 4) as u64, little) {
            Some(d) => base as u128 + d as u128,
            None => return,
        };
        if directory + 2 > bytes.len() as u128 {
            return;
        }
        let directory: usize = directory as usize;
        let count: u16 = match find_word16(bytes, directory as u64, little) {
            Some(count) => count,
            None => return,
        };
        let mut i: usize = 0;
        assert(entries(
            bytes@,
            little,
            self.records@,
            base as int,
            end as int,
            depth as nat,
            directory as int,
            count as int,
            0,
        ) == goal);
        while i < count as usize
            invariant
                bytes@.len() == bytes.len(),
                self.bytes == bytes,
                self.little_endian == little,
                base <= end <= bytes@.len(),
                depth <= MAX_DEPTH,
                directory + 2 <= bytes@.len(),
                i <= count,
                entries(
                    bytes@,
                    little,
                    self.records@,
                    base as int,
                    end as int,
                    depth as nat,
                    directory as int,
                    count as int,
                    i as int,
                ) == goal,
            ensures
                self.bytes == bytes,
                self.little_endian == little,
                self.records@ == goal,
            decreases count - i,
        {
            let entry: u128 = directory as u128 + 2 + i as u128 * 10;
            if self.records.len() >= MAX_RECORDS || entry + 10 > end as u128 {
                break;
            }
            let entry: usize = entry as usize;
            match read_record(bytes, little, base, end, entry) {
                None => {},
                Some(record) => {
                    self.records.push(record);
                    let kind: u16 = record.tag / 0x800 % 8;
                    if (kind == 5 || kind == 6) && record.tag / 0x4000 % 2 != 1 {
                        self.walk(record.at, record.len, depth + 1);
                    }
                },
            }
            i = i + 1;
        }
    }

    /// The 16-bit number at `at`, if it lies in the file.
    pub fn u16(&self, at: usize) -> (r: Option<u16>)
        ensures
            match r {
                Some(v) => word16_in(self.bytes@, at as int, self.little_endian) == Some(v as int),
                None => word16_in(self.bytes@, at as int, self.little_endian) is None,
            },
    {
        find_word16(self.bytes, at as u64, self.little_endian)
    }

    /// The 32-bit number at `at`, if it lies in the file.
    pub fn u32(&self, at: usize) -> (r: Option<u32>)
        ensures
            match r {
                Some(v) => word32_in(self.bytes@, at as int, self.little_endian) == Some(v as int),
                None => word32_in(self.bytes@, at as int, self.little_endian) is None,
            },
    {
        find_word32(self.bytes, at as u64, self.little_endian)
    }

    /// The first record with a tag.
    pub fn find(&self, tag: u16) -> (r: Option<Record>)
        ensures
            r == self@.record(tag),
    {
        let mut i: usize = 0;
        while i < self.records.len()
            invariant
                i <= self.records@.len(),
                first_from(self.records@, tag, 0) == first_from(self.records@, tag, i as int),
            decreases self.records@.len() - i,
        {
            if self.records[i].tag == tag {
                return Some(self.records[i]);
            }
            i = i + 1;
        }
        None
    }

    /// A record's bytes.
    pub fn slice(&self, record: Record) -> (r: Result<&'a [u8]>)
        ensures
            match r {
                Ok(bytes) => record.at + record.len <= self.bytes@.len() && bytes@
                    == self.bytes@.subrange(record.at as int, record.at + record.len),
                Err(e) => record.at + record.len > self.bytes@.len() && e@ == Fault::Corrupt(
                    "crw: record "@ + hex_word(record.tag as int) + " lies outside the file"@,
                ),
            },
    {
        assert(self.bytes@.len() == self.bytes.len());
        if record.at <= self.bytes.len() && record.len <= self.bytes.len() - record.at {
            Ok(slice_subrange(self.bytes, record.at, record.at + record.len))
        } else {
            let mut text = "crw: record ".to_string();
            push_hex_word(&mut text, record.tag);
            text.append(" lies outside the file");
            Err(Error::Corrupt(text))
        }
    }

    /// The bytes of the first record with a tag.
    fn lookup(&self, tag: u16) -> (r: Option<&'a [u8]>)
        requires
            self@.well_formed(),
        ensures
            match r {
                Some(bytes) => self@.value(tag) == Some(bytes@),
                None => self@.value(tag) is None,
            },
    {
        proof {
            lemma_first_inside(self.bytes@, self.records@, tag, 0);
        }
        match self.find(tag) {
            None => None,
            Some(record) => match self.slice(record) {
                Ok(bytes) => Some(bytes),
                Err(_) => None,
            },
        }
    }

    /// A record's 16-bit elements. The arrays begin with their own length
    /// in bytes, which is left in place.
    pub fn shorts(&self, tag: u16) -> (r: Vec<u16>)
        requires
            self@.well_formed(),
        ensures
            r@ == self@.words(tag),
    {
        let mut out: Vec<u16> = Vec::new();
        proof {
            lemma_first_inside(self.bytes@, self.records@, tag, 0);
            assert(self.bytes@.len() == self.bytes.len());
        }
        if let Some(record) = self.find(tag) {
            let mut i: usize = 0;
            while i < record.len / 2
                invariant
                    i <= record.len / 2,
                    record.at + record.len <= self.bytes@.len() <= usize::MAX,
                    self@.record(tag) == Some(record),
                    out@ == self@.words(tag).take(i as int),
                decreases record.len / 2 - i,
            {
                match self.u16(record.at + 2 * i) {
                    Some(v) => out.push(v),
                    None => {
                        assert(false);
                    },
                }
                i = i + 1;
                assert(out@ =~= self@.words(tag).take(i as int));
            }
        }
        assert(out@ =~= self@.words(tag));
        out
    }

    /// A record's 32-bit elements.
    pub fn longs(&self, tag: u16) -> (r: Vec<u32>)
        requires
            self@.well_formed(),
        ensures
            r@ == self@.wide_words(tag),
    {
        let mut out: Vec<u32> = Vec::new();
        proof {
            lemma_first_inside(self.bytes@, self.records@, tag, 0);
            assert(self.bytes@.len() == self.bytes.len());
        }
        if let Some(record) = self.find(tag) {
            let mut i: usize = 0;
            while i < record.len / 4
                invariant
                    i <= record.len / 4,
                    record.at + record.len <= self.bytes@.len() <= usize::MAX,
                    self@.record(tag) == Some(record),
                    out@ == self@.wide_words(tag).take(i as int),
                decreases record.len / 4 - i,
            {
                match self.u32(record.at + 4 * i) {
                    Some(v) => out.push(v),
                    None => {
                        assert(false);
                    },
                }
                i = i + 1;
                assert(out@ =~= self@.wide_words(tag).take(i as int));
            }
        }
        assert(out@ =~= self@.wide_words(tag));
        out
    }

    /// `0x080A`: the make, a NUL, the model, a NUL, padding.
    pub fn make_model(&self) -> (r: (String, String))
        requires
            self@.well_formed(),
        ensures
            r.0@ == self@.camera().0,
            r.1@ == self@.camera().1,
    {
        match self.lookup(MAKE_MODEL) {
            None => (String::new(), String::new()),
            Some(bytes) => {
                assert(bytes@.len() == bytes.len());
                let first: usize = find_part_end(bytes, 0);
                let make = text_of(slice_subrange(bytes, 0, first));
                let model = if first < bytes.len() {
                    let second: usize = find_part_end(bytes, first + 1);
                    clean(text_of(slice_subrange(bytes, first + 1, second)).as_str())
                } else {
                    String::new()
                };
                (clean(make.as_str()), model)
            },
        }
    }

    /// The sensor frame and the picture's borders in it.
    pub fn sensor_info(&self) -> (r: Option<SensorInfo>)
        requires
            self@.well_formed(),
        ensures
            r == self@.sensor(),
    {
        let v = self.shorts(SENSOR_INFO);
        if v.len() < 9 || v[1] == 0 || v[2] == 0 {
            None
        } else {
            Some(
                SensorInfo {
                    width: v[1] as usize,
                    height: v[2] as usize,
                    left: v[5] as usize,
                    top: v[6] as usize,
                    right: v[7] as usize,
                    bottom: v[8] as usize,
                },
            )
        }
    }

    /// The picture's height and rotation.
    pub fn image_info(&self) -> (r: Option<ImageInfo>)
        requires
            self@.well_formed(),
        ensures
            r == self@.info(),
    {
        let v = self.longs(IMAGE_INFO);
        if v.len() < 4 {
            None
        } else {
            Some(ImageInfo { height: v[1] as usize, orientation: rotation_of(v[3]) })
        }
    }

    /// The as-shot white balance, R G B G2 relative to the first green.
    pub fn as_shot_wb(&self) -> (r: Option<[Gain; 4]>)
        requires
            self@.well_formed(),
        ensures
            match r {
                Some(gains) => self@.balance() == Some(gains@),
                None => self@.balance() is None,
            },
    {
        let v = self.shorts(WHITE_BALANCE);
        if v.len() < 5 || v[1] == 0 || v[2] == 0 || v[4] == 0 {
            None
        } else {
            let g: u32 = v[2] as u32;
            let gains: [Gain; 4] = [
                Gain::of(v[1] as u32, g),
                Gain::unit(),
                Gain::of(v[4] as u32, g),
                Gain::of(v[3] as u32, g),
            ];
            assert(gains@ =~= self@.balance()->0);
            Some(gains)
        }
    }

    /// `0x2007`, the camera's own full-size JPEG.
    pub fn jpeg(&self) -> (r: Option<Vec<u8>>)
        requires
            self@.well_formed(),
        ensures
            match r {
                Some(stream) => self@.picture() == Some(stream@),
                None => self@.picture() is None,
            },
    {
        match self.lookup(JPEG) {
            None => None,
            Some(stream) => if stream.len() >= 2 && stream[0] == 0xff && stream[1] == 0xd8 {
                Some(owned(stream))
            } else {
                None
            },
        }
    }

    /// What the container records of the shot: the focal length.
    pub fn metadata(&self) -> (m: Metadata<Ratio>)
        requires
            self@.well_formed(),
        ensures
            m@ == self@.shot(),
    {
        let v = self.shorts(FOCAL_LENGTH);
        let mut m: Metadata<Ratio> = Metadata::default();
        if v.len() >= 3 && v[2] > 0 {
            m.focal_length = Some(Ratio::whole(v[2] as u32));
        }
        m
    }
}

// ------------------------------------------------------------ samples

/// Bytes with the two of every pair swapped; a last odd one stays.
pub open spec fn swapped(bytes: Seq<u8>) -> Seq<u8> {
    Seq::new(
        bytes.len(),
        |i: int|
            if i % 2 == 1 {
                bytes[i - 1]
            } else if i + 1 < bytes.len() {
                bytes[i + 1]
            } else {
                bytes[i]
            },
    )
}

/// Ten-bit samples, most significant bit first, in little-endian
/// sixteen-bit words. Past the end of the bytes the bits are zero.
pub open spec fn ten_bit_samples(bytes: Seq<u8>, samples: nat) -> Seq<u16> {
    Seq::new(
        samples,
        |i: int| word(after(msb_bits(swapped(bytes)), (10 * i) as nat), 10) as u16,
    )
}

/// Reads ten-bit samples out of swapped words.
pub fn unpack10(bytes: &[u8], samples: usize) -> (out: Vec<u16>)
    ensures
        out@ == ten_bit_samples(bytes@, samples as nat),
{
    assert(bytes@.len() == bytes.len());
    let mut unswapped: Vec<u8> = Vec::new();
    let mut i: usize = 0;
    while i < bytes.len()
        invariant
            bytes@.len() == bytes.len(),
            i <= bytes@.len(),
            unswapped@ == swapped(bytes@).take(i as int),
        decreases bytes@.len() - i,
    {
        let from: usize = if i % 2 == 1 {
            i - 1
        } else if bytes.len() - i > 1 {
            i + 1
        } else {
            i
        };
        unswapped.push(bytes[from]);
        i = i + 1;
        assert(unswapped@ =~= swapped(bytes@).take(i as int));
    }
    assert(unswapped@ =~= swapped(bytes@));
    let mut pump = BitPumpMsb::new(unswapped.as_slice());
    let ghost stream = msb_bits(swapped(bytes@));
    let ghost goal = ten_bit_samples(bytes@, samples as nat);
    let mut out: Vec<u16> = Vec::new();
    let mut k: usize = 0;
    assert(after(stream, 0) =~= stream);
    while k < samples
        invariant
            k <= samples,
            stream == msb_bits(swapped(bytes@)),
            goal == ten_bit_samples(bytes@, samples as nat),
            pump.rest() == after(stream, (10 * k) as nat),
            out@ == goal.take(k as int),
        decreases samples - k,
    {
        proof {
            lemma_after_after(stream, (10 * k) as nat, 10);
        }
        let value: u32 = pump.get(10);
        out.push(value as u16);
        k = k + 1;
        assert(out@ =~= goal.take(k as int));
    }
    assert(out@ =~= goal);
    out
}

/// Unpacking undoes packing: samples of ten bits are read back where their
/// bits, most significant first, fill a string of bytes and the two bytes
/// of every pair are then exchanged.
pub proof fn law_ten_bit_samples_are_read_back(
    bytes: Seq<u8>,
    plain: Seq<u8>,
    samples: Seq<u16>,
    tail: Seq<bool>,
)
    requires
        forall|i: int| 0 <= i < samples.len() ==> #[trigger] samples[i] < 1024,
        msb_bits(plain) == packed_bits(samples, 10, true, 0, tail),
        bytes.len() == plain.len(),
        forall|i: int|
            0 <= i < plain.len() && i % 2 == 0 && i + 1 < plain.len() ==> #[trigger] plain[i]
                == bytes[i + 1],
        forall|i: int| 0 <= i < plain.len() && i % 2 == 1 ==> #[trigger] plain[i] == bytes[i - 1],
        plain.len() % 2 == 1 ==> plain.last() == bytes.last(),
    ensures
        ten_bit_samples(bytes, samples.len()) == samples,
{
    lemma2_to64();
    assert(swapped(bytes) =~= plain);
    let read = ten_bit_samples(bytes, samples.len());
    assert forall|i: int| 0 <= i < samples.len() implies read[i] == samples[i] by {
        lemma_packed_bits(samples, 10, true, i as nat, tail);
        assert((i as nat) * 10 == 10 * i);
        law_numbers_are_read_back(
            samples[i] as int,
            10,
            packed_bits(samples, 10, true, (i + 1) as nat, tail),
        );
    }
    assert(read =~= samples);
}

/// The filter array of the bodies that wrote their frames uncompressed:
/// four rows of alternating pairs, yellow and cyan over magenta and green,
/// the pairs swapping every other row.
pub open spec fn complementary() -> CfaModel {
    CfaModel {
        kind: CfaKind::Pattern,
        width: 2,
        height: 4,
        colors: seq![
            CfaColor::Yellow,
            CfaColor::Cyan,
            CfaColor::Magenta,
            CfaColor::Green,
            CfaColor::Cyan,
            CfaColor::Yellow,
            CfaColor::Green,
            CfaColor::Magenta,
        ],
    }
}

/// The filter array of a body that wrote its frames uncompressed. Nothing
/// in the file describes it, so it can only be recognised by name.
pub fn uncompressed_cfa(model: &str) -> (r: Option<Cfa>)
    ensures
        match r {
            Some(cfa) => contains_text(model@, "Pro70"@) && cfa@ == complementary(),
            None => !contains_text(model@, "Pro70"@),
        },
{
    let name = characters(model);
    if has_text(name.as_slice(), "Pro70") {
        let mut colors: Vec<CfaColor> = Vec::new();
        colors.push(CfaColor::Yellow);
        colors.push(CfaColor::Cyan);
        colors.push(CfaColor::Magenta);
        colors.push(CfaColor::Green);
        colors.push(CfaColor::Cyan);
        colors.push(CfaColor::Yellow);
        colors.push(CfaColor::Green);
        colors.push(CfaColor::Magenta);
        assert(colors@ =~= complementary().colors);
        Some(Cfa::Pattern { width: 2, height: 4, colors })
    } else {
        None
    }
}

/// The frame's width and height: the sensor's, or, where no record has
/// them, the picture's rows and as many ten-bit samples as the image
/// record holds.
pub open spec fn frame_size(
    image_len: int,
    sensor: Option<SensorInfo>,
    info: Option<ImageInfo>,
) -> Option<(int, int)> {
    match sensor {
        Some(sensor) => Some((sensor.width as int, sensor.height as int)),
        None => match info {
            Some(info) => if info.height > 0 {
                let samples = if image_len * 8 <= usize::MAX {
                    image_len * 8 / 10
                } else {
                    0
                };
                Some((samples / info.height as int, info.height as int))
            } else {
                None
            },
            None => None,
        },
    }
}

/// What a parsed file decodes to.
pub open spec fn decoded(ciff: CiffModel) -> Outcome<RawModel> {
    let (make, model) = ciff.camera();
    match ciff.record(IMAGE_DATA) {
        None => Err(Fault::Corrupt("crw: no image record (0x2005)"@)),
        Some(image) => if ciff.record(DECODER_TABLE) is Some {
            Err(
                Fault::Unsupported(
                    "crw: "@ + model
                        + "'s image is Canon's compressed CIFF data; its Huffman tables are published nowhere this clean-room decoder may read"@,
                ),
            )
        } else {
            match frame_size(image.len as int, ciff.sensor(), ciff.info()) {
                None => Err(Fault::Corrupt("crw: no image dimensions"@)),
                Some((width, height)) => if width == 0 || height == 0 || image.len * 8 != width
                    * height * 10 {
                    Err(
                        Fault::Unsupported(
                            "crw: "@ + decimal(image.len as int)
                                + " bytes of uncompressed image for a "@ + decimal(width) + "x"@
                                + decimal(height)
                                + " frame is not the ten bits a sample this decoder knows"@,
                        ),
                    )
                } else if !contains_text(model, "Pro70"@) {
                    Err(
                        Fault::Unsupported(
                            "crw: uncompressed CIFF from "@ + model
                                + ": this decoder does not know its filter array"@,
                        ),
                    )
                } else {
                    let plain = plain_image(
                        Format::Crw,
                        width as usize,
                        height as usize,
                        1,
                        ten_bit_samples(
                            ciff.bytes.subrange(image.at as int, image.at + image.len),
                            (width * height) as nat,
                        ),
                        complementary(),
                    );
                    Ok(
                        RawModel {
                            make: trimmed(make),
                            model: trimmed(model),
                            white_level: Ratio::whole(1023),
                            crop: match ciff.sensor() {
                                Some(sensor) => match sensor.crop_spec(
                                    width as usize,
                                    height as usize,
                                ) {
                                    Some(crop) => crop,
                                    None => plain.crop,
                                },
                                None => plain.crop,
                            },
                            orientation: match ciff.info() {
                                Some(info) => info.orientation,
                                None => plain.orientation,
                            },
                            wb_coeffs: match ciff.balance() {
                                Some(gains) => gains,
                                None => plain.wb_coeffs,
                            },
                            metadata: ciff.shot(),
                            preview: ciff.picture(),
                            ..plain
                        },
                    )
                },
            }
        },
    }
}

impl<'a> Ciff<'a> {
    /// The frame's width and height, and the check that the image record
    /// holds exactly that many ten-bit samples.
    fn size(&self, image: Record) -> (r: Result<(usize, usize)>)
        requires
            self@.well_formed(),
            self@.record(IMAGE_DATA) == Some(image),
        ensures
            match (frame_size(image.len as int, self@.sensor(), self@.info()), r) {
                (None, Err(e)) => e@ == Fault::Corrupt("crw: no image dimensions"@),
                (Some((width, height)), Ok((w, h))) => w == width && h == height && width > 0
                    && height > 0 && image.len * 8 == width * height * 10,
                (Some((width, height)), Err(e)) => (width == 0 || height == 0 || image.len * 8
                    != width * height * 10) && e@ == Fault::Unsupported(
                    "crw: "@ + decimal(image.len as int) + " bytes of uncompressed image for a "@
                        + decimal(width) + "x"@ + decimal(height)
                        + " frame is not the ten bits a sample this decoder knows"@,
                ),
                _ => false,
            },
    {
        let (width, height): (usize, usize) = match self.sensor_info() {
            Some(sensor) => (sensor.width, sensor.height),
            None => match self.image_info() {
                Some(info) => {
                    if info.height == 0 {
                        return Err(corrupt("crw: no image dimensions"));
                    }
                    let samples: usize = match image.len.checked_mul(8) {
                        Some(bits) => bits / 10,
                        None => 0,
                    };
                    (samples / info.height, info.height)
                },
                None => return Err(corrupt("crw: no image dimensions")),
            },
        };
        let fits: bool = width > 0 && height > 0 && exactly_ten_bits(image.len, width, height);
        if fits {
            Ok((width, height))
        } else {
            let mut text = "crw: ".to_string();
            push_decimal(&mut text, image.len as u64);
            text.append(" bytes of uncompressed image for a ");
            push_decimal(&mut text, width as u64);
            text.append("x");
            push_decimal(&mut text, height as u64);
            text.append(" frame is not the ten bits a sample this decoder knows");
            Err(Error::Unsupported(text))
        }
    }
}

fn exactly_ten_bits(len: usize, width: usize, height: usize) -> (r: bool)
    ensures
        r == (len * 8 == width * height * 10),
{
    proof {
        assert(0 <= width * height <= usize::MAX * usize::MAX) by (nonlinear_arith)
            requires
                0 <= width <= usize::MAX,
                0 <= height <= usize::MAX,
        ;
    }
    let pixels: u128 = width as u128 * height as u128;
    let bits: u128 = len as u128 * 8;
    pixels <= bits && bits == pixels * 10
}

/// Decodes an uncompressed CIFF.
pub fn decode(bytes: &[u8]) -> (r: Result<RawImage>)
    ensures
        match records_of(bytes@) {
            Err(fault) => deep_outcome(r) == Outcome::<RawModel>::Err(fault),
            Ok((little, records)) => deep_outcome(r) == decoded(
                CiffModel { bytes: bytes@, little, records },
            ),
        },
{
    let ciff = match Ciff::parse(bytes) {
        Ok(ciff) => ciff,
        Err(e) => return Err(e),
    };
    decode_records(&ciff)
}

/// Decodes the frame that a parsed file holds.
pub fn decode_records(ciff: &Ciff<'_>) -> (r: Result<RawImage>)
    requires
        ciff@.well_formed(),
    ensures
        deep_outcome(r) == decoded(ciff@),
{
    let (make, model) = ciff.make_model();
    let image: Record = match ciff.find(IMAGE_DATA) {
        Some(image) => image,
        None => return Err(corrupt("crw: no image record (0x2005)")),
    };
    if ciff.find(DECODER_TABLE).is_some() {
        let mut text = "crw: ".to_string();
        text.append(model.as_str());
        text.append(
            "'s image is Canon's compressed CIFF data; its Huffman tables are published nowhere this clean-room decoder may read",
        );
        return Err(Error::Unsupported(text));
    }
    let (width, height): (usize, usize) = match ciff.size(image) {
        Ok(size) => size,
        Err(e) => return Err(e),
    };
    let cfa: Cfa = match uncompressed_cfa(model.as_str()) {
        Some(cfa) => cfa,
        None => {
            let mut text = "crw: uncompressed CIFF from ".to_string();
            text.append(model.as_str());
            text.append(": this decoder does not know its filter array");
            return Err(Error::Unsupported(text));
        },
    };
    proof {
        lemma_first_inside(ciff.bytes@, ciff.records@, IMAGE_DATA, 0);
        assert(ciff.bytes@.len() == ciff.bytes.len());
    }
    let source = match ciff.slice(image) {
        Ok(source) => source,
        Err(e) => return Err(e),
    };
    proof {
        assert(width * height <= image.len) by (nonlinear_arith)
            requires
                image.len * 8 == width * height * 10,
        ;
    }
    let data = unpack10(source, width * height);
    let mut raw = RawImage::new(Format::Crw, width, height, 1, data, cfa);
    raw.set_camera(make.as_str(), model.as_str());
    raw.white_level = Ratio::whole(1023);
    if let Some(sensor) = ciff.sensor_info() {
        if let Some(crop) = sensor.crop(width, height) {
            raw.crop = crop;
        }
    }
    if let Some(info) = ciff.image_info() {
        raw.orientation = info.orientation;
    }
    if let Some(gains) = ciff.as_shot_wb() {
        raw.wb_coeffs = gains;
    }
    raw.metadata = ciff.metadata();
    raw.preview = ciff.jpeg();
    Ok(raw)
}

/// The camera's own full-size JPEG.
pub fn preview(bytes: &[u8]) -> (r: Result<Option<Vec<u8>>>)
    ensures
        match records_of(bytes@) {
            Err(fault) => preview_outcome(r) == Outcome::<Option<Seq<u8>>>::Err(fault),
            Ok((little, records)) => preview_outcome(r) == Outcome::<Option<Seq<u8>>>::Ok(
                CiffModel { bytes: bytes@, little, records }.picture(),
            ),
        },
{
    match Ciff::parse(bytes) {
        Ok(ciff) => Ok(ciff.jpeg()),
        Err(e) => Err(e),
    }
}

/// The picture's area reaches from its first column and row to its last,
/// both of them in it, where they lie in the frame; elsewhere there is
/// none.
pub proof fn law_borders_are_inside_the_picture(
    sensor: SensorInfo,
    width: usize,
    height: usize,
    x: int,
    y: int,
)
    ensures
        sensor.crop_spec(width, height) is Some <==> sensor.left <= sensor.right && sensor.right < width
            && sensor.top <= sensor.bottom && sensor.bottom < height,
        sensor.crop_spec(width, height) matches Some(area) ==> (area.x <= x < area.x + area.width
            && area.y <= y < area.y + area.height <==> sensor.left <= x <= sensor.right
            && sensor.top <= y <= sensor.bottom),
{
}

} // verus!
