//! TIFF directories: reading the tagged fields that most raw containers
//! keep their picture and their metadata in.
//!
//! Every field that is handed out lies inside the file; one that does not
//! is left out of its directory. Directories are gathered in order, each
//! followed by its sub-directories, and the walk is bounded so that a
//! corrupt file cannot make it loop.

use crate::bytes::{
    find_word16, find_word32, has_tag, holds, holds_number, law_numbers_are_read_from_their_bytes,
    law_signed_numbers_are_read_back, signed16, signed32, tagged, word16, word16_in, word32,
    word32_in,
};
use crate::raw::frame::Ratio;
use crate::raw::{corrupt, Fault, Outcome, Result};
use vstd::prelude::*;
use vstd::slice::slice_subrange;

verus! {

pub const IMAGE_WIDTH: u16 = 0x0100;

pub const IMAGE_LENGTH: u16 = 0x0101;

pub const BITS_PER_SAMPLE: u16 = 0x0102;

pub const COMPRESSION: u16 = 0x0103;

pub const PHOTOMETRIC: u16 = 0x0106;

pub const MAKE: u16 = 0x010F;

pub const MODEL: u16 = 0x0110;

pub const STRIP_OFFSETS: u16 = 0x0111;

pub const ORIENTATION: u16 = 0x0112;

pub const SAMPLES_PER_PIXEL: u16 = 0x0115;

pub const STRIP_BYTE_COUNTS: u16 = 0x0117;

pub const DATE_TIME: u16 = 0x0132;

pub const SUB_IFDS: u16 = 0x014A;

pub const JPEG_OFFSET: u16 = 0x0201;

pub const JPEG_LENGTH: u16 = 0x0202;

pub const CFA_REPEAT_PATTERN_DIM: u16 = 0x828D;

pub const CFA_PATTERN: u16 = 0x828E;

pub const EXPOSURE_TIME: u16 = 0x829A;

pub const F_NUMBER: u16 = 0x829D;

pub const EXIF_IFD: u16 = 0x8769;

pub const ISO: u16 = 0x8827;

pub const DATE_TIME_ORIGINAL: u16 = 0x9003;

pub const FOCAL_LENGTH: u16 = 0x920A;

pub const MAKER_NOTE: u16 = 0x927C;

pub const LENS_MODEL: u16 = 0xA434;

/// Ceilings on a walk.
pub const MAX_IFDS: usize = 64;

pub const MAX_DEPTH: usize = 4;

/// One field: where its value lies in the file, and how it is written.
#[derive(Debug, Clone, Copy, PartialEq, Eq, Structural)]
pub struct Entry {
    pub tag: u16,
    pub kind: u16,
    /// How many elements the value has.
    pub count: usize,
    /// Where the value is, absolute.
    pub offset: usize,
}

/// Bytes an element of a kind takes; none for a kind that is unknown.
pub open spec fn kind_size(kind: int) -> int {
    if kind == 1 || kind == 2 || kind == 6 || kind == 7 {
        1
    } else if kind == 3 || kind == 8 {
        2
    } else if kind == 4 || kind == 9 || kind == 11 || kind == 13 {
        4
    } else if kind == 5 || kind == 10 || kind == 12 {
        8
    } else {
        0
    }
}

/// Bytes that `n` elements of a kind take.
pub open spec fn span(kind: int, n: int) -> int {
    if kind_size(kind) == 8 {
        8 * n
    } else if kind_size(kind) == 4 {
        4 * n
    } else if kind_size(kind) == 2 {
        2 * n
    } else {
        n
    }
}

fn size_of_kind(kind: u16) -> (n: u64)
    ensures
        n == kind_size(kind as int),
        n <= 8,
{
    match kind {
        1 | 2 | 6 | 7 => 1,
        3 | 8 => 2,
        4 | 9 | 11 | 13 => 4,
        5 | 10 | 12 => 8,
        _ => 0,
    }
}

fn span_of(each: u64, n: u64) -> (r: u64)
    requires
        each == 1 || each == 2 || each == 4 || each == 8,
        each == 2 ==> 2 * n <= u64::MAX,
        each == 4 ==> 4 * n <= u64::MAX,
        each == 8 ==> 8 * n <= u64::MAX,
    ensures
        each == 1 ==> r == n,
        each == 2 ==> r == 2 * n,
        each == 4 ==> r == 4 * n,
        each == 8 ==> r == 8 * n,
{
    match each {
        8 => 8 * n,
        4 => 4 * n,
        2 => 2 * n,
        _ => n,
    }
}

impl Entry {
    /// Whether the value lies inside a file.
    pub open spec fn inside(self, bytes: Seq<u8>) -> bool {
        &&& kind_size(self.kind as int) > 0
        &&& self.offset + span(self.kind as int, self.count as int) <= bytes.len()
    }

    /// Element `i` as a whole number, for the kinds that are one.
    pub open spec fn whole(self, bytes: Seq<u8>, little: bool, i: int) -> Option<int> {
        let kind = self.kind as int;
        let at = self.offset + span(kind, i);
        if i < 0 || i >= self.count {
            None
        } else if kind == 1 || kind == 7 {
            Some(bytes[at] as int)
        } else if kind == 6 {
            Some(
                if bytes[at] < 128 {
                    bytes[at] as int
                } else {
                    bytes[at] - 256
                },
            )
        } else if kind == 3 {
            Some(word16(bytes, at, little))
        } else if kind == 8 {
            Some(signed16(word16(bytes, at, little)))
        } else if kind == 4 || kind == 13 {
            Some(word32(bytes, at, little))
        } else if kind == 9 {
            Some(signed32(word32(bytes, at, little)))
        } else {
            None
        }
    }

    /// Element `i` as a number without sign.
    pub open spec fn natural(self, bytes: Seq<u8>, little: bool, i: int) -> Option<int> {
        match self.whole(bytes, little, i) {
            Some(n) => if n >= 0 {
                Some(n)
            } else {
                None
            },
            None => None,
        }
    }

    /// Element `i` as an exact quotient, for the whole and the rational
    /// kinds.
    pub open spec fn ratio(self, bytes: Seq<u8>, little: bool, i: int) -> Option<Ratio> {
        let at = self.offset + 8 * i;
        match self.whole(bytes, little, i) {
            Some(n) => Some(Ratio { num: n as i64, den: 1 }),
            None => if i < 0 || i >= self.count {
                None
            } else if self.kind == 5 {
                let (num, den) = (word32(bytes, at, little), word32(bytes, at + 4, little));
                if den == 0 {
                    None
                } else {
                    Some(Ratio { num: num as i64, den: den as u64 })
                }
            } else if self.kind == 10 {
                let (num, den) = (
                    signed32(word32(bytes, at, little)),
                    signed32(word32(bytes, at + 4, little)),
                );
                if den == 0 {
                    None
                } else if den < 0 {
                    Some(Ratio { num: (-num) as i64, den: (-den) as u64 })
                } else {
                    Some(Ratio { num: num as i64, den: den as u64 })
                }
            } else {
                None
            },
        }
    }

    /// The bytes of the value.
    pub open spec fn raw(self, bytes: Seq<u8>) -> Seq<u8> {
        bytes.subrange(
            self.offset as int,
            self.offset + span(self.kind as int, self.count as int),
        )
    }
}

/// The field in the slot at `at`, unless its kind is unknown or its value
/// lies outside the file. A value of up to four bytes is in the slot.
pub open spec fn entry_at(bytes: Seq<u8>, base: int, little: bool, at: int) -> Option<Entry> {
    let tag = word16(bytes, at, little);
    let kind = word16(bytes, at + 2, little);
    let count = word32(bytes, at + 4, little);
    let size = span(kind, count);
    let place = if size <= 4 {
        at + 8
    } else {
        base + word32(bytes, at + 8, little)
    };
    if kind_size(kind) == 0 || place + size > bytes.len() {
        None
    } else {
        Some(
            Entry {
                tag: tag as u16,
                kind: kind as u16,
                count: count as usize,
                offset: place as usize,
            },
        )
    }
}

/// A directory: its fields, in file order.
#[derive(Debug)]
pub struct Ifd {
    /// Where the directory is, absolute.
    pub offset: usize,
    pub entries: Vec<Entry>,
}

/// An [`Ifd`] as a mathematical value.
#[verifier::ext_equal]
pub struct IfdModel {
    pub offset: int,
    pub entries: Seq<Entry>,
}

impl View for Ifd {
    type V = IfdModel;

    open spec fn view(&self) -> IfdModel {
        IfdModel { offset: self.offset as int, entries: self.entries@ }
    }
}

/// The first field with a tag, from field `i` on.
pub open spec fn first_entry(entries: Seq<Entry>, tag: u16, i: int) -> Option<Entry>
    decreases entries.len() - i,
{
    if i < 0 || i >= entries.len() {
        None
    } else if entries[i].tag == tag {
        Some(entries[i])
    } else {
        first_entry(entries, tag, i + 1)
    }
}

impl IfdModel {
    /// The field with a tag.
    pub open spec fn field(self, tag: u16) -> Option<Entry> {
        first_entry(self.entries, tag, 0)
    }

    /// Whether every field lies inside a file.
    pub open spec fn inside(self, bytes: Seq<u8>) -> bool {
        forall|i: int| 0 <= i < self.entries.len() ==> (#[trigger] self.entries[i]).inside(bytes)
    }
}

/// The fields of the first `k` slots of a directory: those that are there
/// and can be read.
pub open spec fn entry_list(bytes: Seq<u8>, base: int, little: bool, offset: int, k: int) -> Seq<
    Entry,
>
    decreases k,
{
    if k <= 0 {
        Seq::empty()
    } else {
        let before = entry_list(bytes, base, little, offset, k - 1);
        let at = offset + 2 + 12 * (k - 1);
        if at + 12 > bytes.len() {
            before
        } else {
            match entry_at(bytes, base, little, at) {
                Some(entry) => before.push(entry),
                None => before,
            }
        }
    }
}

/// Where the value of the first field with a tag begins and how many
/// elements it has, from slot `i` of a directory of `n` slots on. Unlike
/// [`entry_list`], this keeps a field whose value runs past the end of the
/// file.
pub open spec fn place_from(
    bytes: Seq<u8>,
    base: int,
    little: bool,
    offset: int,
    tag: u16,
    i: int,
    n: int,
) -> Option<(int, int)>
    decreases n - i,
{
    let at = offset + 2 + 12 * i;
    if i < 0 || i >= n || at + 12 > bytes.len() {
        None
    } else {
        let kind = word16(bytes, at + 2, little);
        let count = word32(bytes, at + 4, little);
        if word16(bytes, at, little) != tag || kind_size(kind) == 0 {
            place_from(bytes, base, little, offset, tag, i + 1, n)
        } else if span(kind, count) <= 4 {
            Some((at + 8, count))
        } else {
            Some((base + word32(bytes, at + 8, little), count))
        }
    }
}

/// The directory at `offset`, if its count lies in the file.
pub open spec fn directory_at(bytes: Seq<u8>, base: int, little: bool, offset: int) -> Option<
    IfdModel,
> {
    match word16_in(bytes, offset, little) {
        None => None,
        Some(n) => Some(
            IfdModel { offset, entries: entry_list(bytes, base, little, offset, n) },
        ),
    }
}

/// The offset that follows a directory's slots; zero for the last one.
pub open spec fn next_pointer(bytes: Seq<u8>, little: bool, offset: int) -> int {
    match word16_in(bytes, offset, little) {
        None => 0,
        Some(n) => match word32_in(bytes, offset + 2 + 12 * n, little) {
            Some(next) => next,
            None => 0,
        },
    }
}

/// The offsets that a field of offsets holds, from its first; none for a
/// field of another kind.
pub open spec fn offsets_in(bytes: Seq<u8>, base: int, little: bool, entry: Option<Entry>) -> Seq<
    int,
> {
    match entry {
        None => Seq::empty(),
        Some(e) => if e.kind == 4 || e.kind == 13 {
            Seq::new(
                e.count as nat,
                |i: int| base + word32(bytes, e.offset + 4 * i, little),
            )
        } else {
            Seq::empty()
        },
    }
}

/// Where a directory's sub-directories are: those it lists, then the one
/// of the shooting data.
pub open spec fn children_of(bytes: Seq<u8>, base: int, little: bool, ifd: IfdModel) -> Seq<int> {
    offsets_in(bytes, base, little, ifd.field(SUB_IFDS)) + offsets_in(
        bytes,
        base,
        little,
        ifd.field(EXIF_IFD),
    )
}

/// Whether a directory is among those found.
pub open spec fn seen(ifds: Seq<IfdModel>, offset: int) -> bool {
    exists|i: int| 0 <= i < ifds.len() && (#[trigger] ifds[i]).offset == offset
}

/// The directories found so far, then the one at `offset` and everything
/// under it.
pub open spec fn visited(
    bytes: Seq<u8>,
    base: int,
    little: bool,
    ifds: Seq<IfdModel>,
    offset: int,
    depth: nat,
) -> Seq<IfdModel>
    decreases MAX_DEPTH + 1 - depth, 1nat, 0nat,
{
    if depth > MAX_DEPTH || ifds.len() >= MAX_IFDS || seen(ifds, offset) {
        ifds
    } else {
        match directory_at(bytes, base, little, offset) {
            None => ifds,
            Some(ifd) => with_children(
                bytes,
                base,
                little,
                ifds.push(ifd),
                children_of(bytes, base, little, ifd),
                0,
                depth,
            ),
        }
    }
}

/// The directories found so far, then those at the offsets from the `i`th
/// on.
pub open spec fn with_children(
    bytes: Seq<u8>,
    base: int,
    little: bool,
    ifds: Seq<IfdModel>,
    offsets: Seq<int>,
    i: int,
    depth: nat,
) -> Seq<IfdModel>
    decreases MAX_DEPTH + 1 - depth, 0nat, (offsets.len() - i) as nat,
{
    if i < 0 || i >= offsets.len() || depth > MAX_DEPTH {
        ifds
    } else {
        with_children(
            bytes,
            base,
            little,
            visited(bytes, base, little, ifds, offsets[i], depth + 1),
            offsets,
            i + 1,
            depth,
        )
    }
}

/// The directories found so far, then those of a chain that goes on with
/// the one at `offset`. A directory that adds nothing ends it.
pub open spec fn chained(
    bytes: Seq<u8>,
    base: int,
    little: bool,
    ifds: Seq<IfdModel>,
    offset: int,
    fuel: nat,
) -> Seq<IfdModel>
    decreases fuel,
{
    if fuel == 0 {
        ifds
    } else {
        let found = visited(bytes, base, little, ifds, offset, 0);
        let next = next_pointer(bytes, little, offset);
        if found.len() == ifds.len() || next == 0 {
            found
        } else {
            chained(bytes, base, little, found, base + next, (fuel - 1) as nat)
        }
    }
}

/// A parsed TIFF structure.
pub struct Tiff<'a> {
    pub bytes: &'a [u8],
    /// What offsets count from.
    pub base: usize,
    pub little: bool,
    pub ifds: Vec<Ifd>,
}

/// A [`Tiff`] as a mathematical value.
#[verifier::ext_equal]
pub struct TiffModel {
    pub bytes: Seq<u8>,
    pub base: int,
    pub little: bool,
    pub ifds: Seq<IfdModel>,
}

/// Directories as mathematical values.
pub open spec fn ifd_list(ifds: Seq<Ifd>) -> Seq<IfdModel> {
    Seq::new(ifds.len(), |i: int| ifds[i]@)
}

impl<'a> View for Tiff<'a> {
    type V = TiffModel;

    open spec fn view(&self) -> TiffModel {
        TiffModel {
            bytes: self.bytes@,
            base: self.base as int,
            little: self.little,
            ifds: ifd_list(self.ifds@),
        }
    }
}

impl TiffModel {
    /// Whether there is a directory and every field lies inside the file.
    pub open spec fn well_formed(self) -> bool {
        &&& self.ifds.len() > 0
        &&& self.bytes.len() <= usize::MAX
        &&& 0 <= self.base <= self.bytes.len()
        &&& forall|i: int| 0 <= i < self.ifds.len() ==> (#[trigger] self.ifds[i]).inside(self.bytes)
    }

    /// The first field with a tag, from directory `i` on.
    pub open spec fn found_from(self, tag: u16, i: int) -> Option<Entry>
        decreases self.ifds.len() - i,
    {
        if i < 0 || i >= self.ifds.len() {
            None
        } else {
            match self.ifds[i].field(tag) {
                Some(entry) => Some(entry),
                None => self.found_from(tag, i + 1),
            }
        }
    }

    /// The first field with a tag in any directory.
    pub open spec fn field(self, tag: u16) -> Option<Entry> {
        self.found_from(tag, 0)
    }

    /// The first directory.
    pub open spec fn root(self) -> IfdModel {
        self.ifds[0]
    }

    /// Where the value of a directory's field begins and how many elements
    /// it has, also where it runs past the end of the file.
    pub open spec fn place(self, ifd: IfdModel, tag: u16) -> Option<(int, int)> {
        match word16_in(self.bytes, ifd.offset, self.little) {
            Some(n) => place_from(self.bytes, self.base, self.little, ifd.offset, tag, 0, n),
            None => None,
        }
    }

    /// The first number without sign of a directory's field.
    pub open spec fn number(self, ifd: IfdModel, tag: u16) -> Option<int> {
        match ifd.field(tag) {
            Some(entry) => entry.natural(self.bytes, self.little, 0),
            None => None,
        }
    }

    /// The first number of a directory's field as an exact quotient.
    pub open spec fn ratio(self, ifd: IfdModel, tag: u16, i: int) -> Option<Ratio> {
        match ifd.field(tag) {
            Some(entry) => entry.ratio(self.bytes, self.little, i),
            None => None,
        }
    }
}

/// The second half of a header that begins a structure of this kind:
/// plain TIFF and its vendors' variants.
pub open spec fn known_magic(magic: int) -> bool {
    magic == 42 || magic == 0x55 || magic == 0x4F52 || magic == 0x5352
}

/// The structure whose header is at `base`.
pub open spec fn tiff_at(bytes: Seq<u8>, base: int) -> Outcome<TiffModel> {
    let little = tagged(bytes, base, "II"@);
    if !holds(bytes, base, 8) {
        Err(Fault::Corrupt("TIFF header outside the file"@))
    } else if !little && !tagged(bytes, base, "MM"@) {
        Err(Fault::Corrupt("no TIFF byte order mark"@))
    } else if !known_magic(word16(bytes, base + 2, little)) {
        Err(Fault::Corrupt("not a TIFF header"@))
    } else {
        let ifds = chained(
            bytes,
            base,
            little,
            Seq::empty(),
            base + word32(bytes, base + 4, little),
            MAX_IFDS as nat,
        );
        if ifds.len() == 0 {
            Err(Fault::Corrupt("TIFF with no directory"@))
        } else {
            Ok(TiffModel { bytes, base, little, ifds })
        }
    }
}

/// The bare directory at `offset`, with what is under it.
pub open spec fn bare_at(bytes: Seq<u8>, offset: int, base: int, little: bool) -> Outcome<
    TiffModel,
> {
    let ifds = visited(bytes, base, little, Seq::empty(), offset, 0);
    if base > bytes.len() || ifds.len() == 0 {
        Err(Fault::Corrupt("TIFF with no directory"@))
    } else {
        Ok(TiffModel { bytes, base, little, ifds })
    }
}

// ------------------------------------------------------------ invariants

proof fn lemma_entries_inside(bytes: Seq<u8>, base: int, little: bool, offset: int, k: int)
    requires
        bytes.len() <= usize::MAX,
        0 <= base,
        0 <= offset,
    ensures
        forall|i: int|
            0 <= i < entry_list(bytes, base, little, offset, k).len() ==> (#[trigger] entry_list(
                bytes,
                base,
                little,
                offset,
                k,
            )[i]).inside(bytes),
    decreases k,
{
    if k > 0 {
        lemma_entries_inside(bytes, base, little, offset, k - 1);
        let before = entry_list(bytes, base, little, offset, k - 1);
        let at = offset + 2 + 12 * (k - 1);
        let all = entry_list(bytes, base, little, offset, k);
        if at + 12 <= bytes.len() {
            if let Some(entry) = entry_at(bytes, base, little, at) {
                lemma_entry_inside(bytes, base, little, at);
                assert forall|i: int| 0 <= i < all.len() implies (#[trigger] all[i]).inside(bytes) by {
                    if i < before.len() {
                        assert(all[i] == before[i]);
                    }
                }
            }
        }
    }
}

proof fn lemma_entry_inside(bytes: Seq<u8>, base: int, little: bool, at: int)
    requires
        bytes.len() <= usize::MAX,
        0 <= base,
        0 <= at,
        at + 12 <= bytes.len(),
    ensures
        match entry_at(bytes, base, little, at) {
            Some(entry) => entry.inside(bytes),
            None => true,
        },
{
    let kind = word16(bytes, at + 2, little);
    let count = word32(bytes, at + 4, little);
    assert(0 <= kind < 0x1_0000);
    assert(0 <= count < 0x1_0000_0000);
}

/// Whether every field of every directory lies inside a file.
pub open spec fn all_inside(bytes: Seq<u8>, ifds: Seq<IfdModel>) -> bool {
    forall|i: int| 0 <= i < ifds.len() ==> (#[trigger] ifds[i]).inside(bytes)
}

proof fn lemma_visited(
    bytes: Seq<u8>,
    base: int,
    little: bool,
    ifds: Seq<IfdModel>,
    offset: int,
    depth: nat,
)
    requires
        bytes.len() <= usize::MAX,
        0 <= base,
        0 <= offset,
        all_inside(bytes, ifds),
        ifds.len() <= MAX_IFDS,
    ensures
        all_inside(bytes, visited(bytes, base, little, ifds, offset, depth)),
        ifds.len() <= visited(bytes, base, little, ifds, offset, depth).len() <= MAX_IFDS,
    decreases MAX_DEPTH + 1 - depth, 1nat, 0nat,
{
    if !(depth > MAX_DEPTH || ifds.len() >= MAX_IFDS || seen(ifds, offset)) {
        if let Some(ifd) = directory_at(bytes, base, little, offset) {
            let n = word16_in(bytes, offset, little)->0;
            lemma_entries_inside(bytes, base, little, offset, n);
            let more = ifds.push(ifd);
            assert(all_inside(bytes, more)) by {
                assert forall|i: int| 0 <= i < more.len() implies (#[trigger] more[i]).inside(
                    bytes,
                ) by {
                    if i < ifds.len() {
                        assert(more[i] == ifds[i]);
                    }
                }
            }
            lemma_offsets_sound(bytes, base, little, ifd.field(SUB_IFDS));
            lemma_offsets_sound(bytes, base, little, ifd.field(EXIF_IFD));
            lemma_with_children(
                bytes,
                base,
                little,
                more,
                children_of(bytes, base, little, ifd),
                0,
                depth,
            );
        }
    }
}

proof fn lemma_offsets_sound(bytes: Seq<u8>, base: int, little: bool, entry: Option<Entry>)
    requires
        0 <= base,
    ensures
        forall|i: int|
            0 <= i < offsets_in(bytes, base, little, entry).len() ==> #[trigger] offsets_in(
                bytes,
                base,
                little,
                entry,
            )[i] >= 0,
{
}

proof fn lemma_with_children(
    bytes: Seq<u8>,
    base: int,
    little: bool,
    ifds: Seq<IfdModel>,
    offsets: Seq<int>,
    i: int,
    depth: nat,
)
    requires
        bytes.len() <= usize::MAX,
        0 <= base,
        all_inside(bytes, ifds),
        ifds.len() <= MAX_IFDS,
        forall|k: int| 0 <= k < offsets.len() ==> #[trigger] offsets[k] >= 0,
    ensures
        all_inside(bytes, with_children(bytes, base, little, ifds, offsets, i, depth)),
        ifds.len() <= with_children(bytes, base, little, ifds, offsets, i, depth).len()
            <= MAX_IFDS,
    decreases MAX_DEPTH + 1 - depth, 0nat, (offsets.len() - i) as nat,
{
    if !(i < 0 || i >= offsets.len() || depth > MAX_DEPTH) {
        lemma_visited(bytes, base, little, ifds, offsets[i], depth + 1);
        lemma_with_children(
            bytes,
            base,
            little,
            visited(bytes, base, little, ifds, offsets[i], depth + 1),
            offsets,
            i + 1,
            depth,
        );
    }
}

proof fn lemma_chained(
    bytes: Seq<u8>,
    base: int,
    little: bool,
    ifds: Seq<IfdModel>,
    offset: int,
    fuel: nat,
)
    requires
        bytes.len() <= usize::MAX,
        0 <= base,
        0 <= offset,
        all_inside(bytes, ifds),
        ifds.len() <= MAX_IFDS,
    ensures
        all_inside(bytes, chained(bytes, base, little, ifds, offset, fuel)),
        chained(bytes, base, little, ifds, offset, fuel).len() <= MAX_IFDS,
    decreases fuel,
{
    if fuel > 0 {
        lemma_visited(bytes, base, little, ifds, offset, 0);
        let found = visited(bytes, base, little, ifds, offset, 0);
        let next = next_pointer(bytes, little, offset);
        if !(found.len() == ifds.len() || next == 0) {
            lemma_chained(bytes, base, little, found, base + next, (fuel - 1) as nat);
        }
    }
}

/// Whatever the file, no more directories are gathered than the ceiling,
/// and every field of theirs lies inside the file.
pub proof fn law_a_parse_is_bounded(bytes: Seq<u8>, base: int)
    requires
        bytes.len() <= usize::MAX,
        0 <= base,
    ensures
        tiff_at(bytes, base) matches Ok(tiff) ==> tiff.well_formed() && tiff.ifds.len()
            <= MAX_IFDS,
{
    let little = tagged(bytes, base, "II"@);
    if holds(bytes, base, 8) {
        lemma_chained(
            bytes,
            base,
            little,
            Seq::empty(),
            base + word32(bytes, base + 4, little),
            MAX_IFDS as nat,
        );
    }
}

// --------------------------------------------------------------- reading

fn read_entry(bytes: &[u8], base: usize, little: bool, at: usize) -> (r: Option<Entry>)
    requires
        at + 12 <= bytes@.len(),
        base <= bytes@.len(),
    ensures
        r == entry_at(bytes@, base as int, little, at as int),
        r matches Some(entry) ==> entry.inside(bytes@),
{
    assert(bytes@.len() == bytes.len());
    proof {
        lemma_entry_inside(bytes@, base as int, little, at as int);
    }
    let tag: u16 = match find_word16(bytes, at as u64, little) {
        Some(tag) => tag,
        None => return None,
    };
    let kind: u16 = match find_word16(bytes, (at + 2) as u64, little) {
        Some(kind) => kind,
        None => return None,
    };
    let count: u32 = match find_word32(bytes, (at + 4) as u64, little) {
        Some(count) => count,
        None => return None,
    };
    let each: u64 = size_of_kind(kind);
    if each == 0 {
        return None;
    }
    let size: u64 = span_of(each, count as u64);
    let place: u128 = if size <= 4 {
        at as u128 + 8
    } else {
        match find_word32(bytes, (at + 8) as u64, little) {
            Some(offset) => base as u128 + offset as u128,
            None => return None,
        }
    };
    if place + size as u128 > bytes.len() as u128 {
        return None;
    }
    Some(Entry { tag, kind, count: count as usize, offset: place as usize })
}

fn read_directory(bytes: &[u8], base: usize, little: bool, offset: u128) -> (r: Option<Ifd>)
    requires
        base <= bytes@.len(),
    ensures
        match r {
            Some(ifd) => directory_at(bytes@, base as int, little, offset as int) == Some(ifd@),
            None => directory_at(bytes@, base as int, little, offset as int) is None,
        },
{
    assert(bytes@.len() == bytes.len());
    if offset > u64::MAX as u128 {
        return None;
    }
    let n: u16 = match find_word16(bytes, offset as u64, little) {
        Some(n) => n,
        None => return None,
    };
    let offset: usize = offset as usize;
    let mut entries: Vec<Entry> = Vec::new();
    let mut k: usize = 0;
    while k < n as usize
        invariant
            bytes@.len() == bytes.len(),
            base <= bytes@.len(),
            offset + 2 <= bytes@.len(),
            k <= n,
            entries@ == entry_list(bytes@, base as int, little, offset as int, k as int),
        decreases n - k,
    {
        let at: u128 = offset as u128 + 2 + 12 * k as u128;
        if at + 12 <= bytes.len() as u128 {
            if let Some(entry) = read_entry(bytes, base, little, at as usize) {
                entries.push(entry);
            }
        }
        k = k + 1;
    }
    let ifd = Ifd { offset, entries };
    assert(ifd@ =~= directory_at(bytes@, base as int, little, offset as int)->0);
    Some(ifd)
}

fn read_next(bytes: &[u8], little: bool, offset: u128) -> (next: u32)
    ensures
        next == next_pointer(bytes@, little, offset as int),
{
    assert(bytes@.len() == bytes.len());
    if offset > u64::MAX as u128 {
        return 0;
    }
    match find_word16(bytes, offset as u64, little) {
        None => 0,
        Some(n) => {
            let at: u128 = offset + 2 + 12 * n as u128;
            if at > u64::MAX as u128 {
                return 0;
            }
            match find_word32(bytes, at as u64, little) {
                Some(next) => next,
                None => 0,
            }
        },
    }
}

fn find_entry(entries: &Vec<Entry>, tag: u16) -> (r: Option<Entry>)
    ensures
        r == first_entry(entries@, tag, 0),
{
    let mut i: usize = 0;
    while i < entries.len()
        invariant
            i <= entries@.len(),
            first_entry(entries@, tag, 0) == first_entry(entries@, tag, i as int),
        decreases entries@.len() - i,
    {
        if entries[i].tag == tag {
            return Some(entries[i]);
        }
        i = i + 1;
    }
    None
}

/// A field of a directory that lies inside a file lies there too.
pub proof fn lemma_field_inside(bytes: Seq<u8>, entries: Seq<Entry>, tag: u16, i: int)
    requires
        forall|k: int| 0 <= k < entries.len() ==> (#[trigger] entries[k]).inside(bytes),
    ensures
        first_entry(entries, tag, i) matches Some(entry) ==> entry.inside(bytes) && entry.tag == tag,
    decreases entries.len() - i,
{
    if 0 <= i < entries.len() && entries[i].tag != tag {
        lemma_field_inside(bytes, entries, tag, i + 1);
    }
}

/// Offsets as mathematical integers.
pub open spec fn wide(offsets: Seq<u128>) -> Seq<int> {
    Seq::new(offsets.len(), |i: int| offsets[i] as int)
}

fn push_offsets(
    bytes: &[u8],
    base: usize,
    little: bool,
    entry: Option<Entry>,
    out: &mut Vec<u128>,
)
    requires
        entry matches Some(e) ==> e.inside(bytes@),
    ensures
        wide(final(out)@) == wide(old(out)@) + offsets_in(bytes@, base as int, little, entry),
{
    assert(bytes@.len() == bytes.len());
    let ghost start = wide(out@);
    if let Some(e) = entry {
        if e.kind == 4 || e.kind == 13 {
            let ghost goal = offsets_in(bytes@, base as int, little, entry);
            let mut i: usize = 0;
            assert(wide(out@) =~= start + goal.take(0));
            while i < e.count
                invariant
                    bytes@.len() == bytes.len(),
                    e.kind == 4 || e.kind == 13,
                    e.inside(bytes@),
                    i <= e.count,
                    goal == offsets_in(bytes@, base as int, little, Some(e)),
                    wide(out@) == start + goal.take(i as int),
                decreases e.count - i,
            {
                match find_word32(bytes, e.offset as u64 + 4 * i as u64, little) {
                    Some(offset) => {
                        let ghost before = wide(out@);
                        out.push(base as u128 + offset as u128);
                        assert(wide(out@) =~= before.push(base + offset));
                    },
                    None => {
                        assert(false);
                    },
                }
                i = i + 1;
                assert(wide(out@) =~= start + goal.take(i as int));
            }
            assert(goal.take(i as int) =~= goal);
            return ;
        }
    }
    assert(wide(out@) =~= start + offsets_in(bytes@, base as int, little, entry));
}

/// Whether a directory is among those found.
fn has_seen(ifds: &Vec<Ifd>, offset: u128) -> (r: bool)
    ensures
        r == seen(ifd_list(ifds@), offset as int),
{
    let ghost model = ifd_list(ifds@);
    let mut i: usize = 0;
    while i < ifds.len()
        invariant
            i <= ifds@.len(),
            model == ifd_list(ifds@),
            forall|k: int| 0 <= k < i ==> (#[trigger] model[k]).offset != offset,
        decreases ifds@.len() - i,
    {
        if ifds[i].offset as u128 == offset {
            assert(model[i as int].offset == offset);
            return true;
        }
        i = i + 1;
    }
    false
}

/// Gathers a directory and everything under it.
fn visit(bytes: &[u8], base: usize, little: bool, ifds: &mut Vec<Ifd>, offset: u128, depth: usize)
    requires
        base <= bytes@.len(),
        all_inside(bytes@, ifd_list(old(ifds)@)),
        old(ifds)@.len() <= MAX_IFDS,
    ensures
        ifd_list(final(ifds)@) == visited(
            bytes@,
            base as int,
            little,
            ifd_list(old(ifds)@),
            offset as int,
            depth as nat,
        ),
    decreases MAX_DEPTH + 1 - depth,
{
    assert(bytes@.len() == bytes.len());
    if depth > MAX_DEPTH || ifds.len() >= MAX_IFDS || has_seen(ifds, offset) {
        return;
    }
    let ghost before = ifd_list(ifds@);
    let ifd = match read_directory(bytes, base, little, offset) {
        Some(ifd) => ifd,
        None => return,
    };
    let ghost model = ifd@;
    proof {
        let n = word16_in(bytes@, offset as int, little)->0;
        lemma_entries_inside(bytes@, base as int, little, offset as int, n);
        lemma_field_inside(bytes@, model.entries, SUB_IFDS, 0);
        lemma_field_inside(bytes@, model.entries, EXIF_IFD, 0);
    }
    let subs = find_entry(&ifd.entries, SUB_IFDS);
    let exif = find_entry(&ifd.entries, EXIF_IFD);
    let mut offsets: Vec<u128> = Vec::new();
    assert(wide(offsets@) =~= Seq::<int>::empty());
    push_offsets(bytes, base, little, subs, &mut offsets);
    push_offsets(bytes, base, little, exif, &mut offsets);
    assert(wide(offsets@) =~= children_of(bytes@, base as int, little, model));
    ifds.push(ifd);
    assert(ifd_list(ifds@) =~= before.push(model));
    let ghost goal = visited(
        bytes@,
        base as int,
        little,
        before,
        offset as int,
        depth as nat,
    );
    proof {
        let more = before.push(model);
        assert forall|i: int| 0 <= i < more.len() implies (#[trigger] more[i]).inside(bytes@) by {
            if i < before.len() {
                assert(more[i] == before[i]);
            }
        }
    }
    let mut i: usize = 0;
    while i < offsets.len()
        invariant
            bytes@.len() == bytes.len(),
            base <= bytes@.len(),
                depth <= MAX_DEPTH,
            i <= offsets@.len(),
            all_inside(bytes@, ifd_list(ifds@)),
            ifds@.len() <= MAX_IFDS,
            with_children(
                bytes@,
                base as int,
                little,
                ifd_list(ifds@),
                wide(offsets@),
                i as int,
                depth as nat,
            ) == goal,
        decreases offsets@.len() - i,
    {
        proof {
            lemma_visited(
                bytes@,
                base as int,
                little,
                ifd_list(ifds@),
                offsets@[i as int] as int,
                (depth + 1) as nat,
            );
            assert(wide(offsets@)[i as int] == offsets@[i as int]);
        }
        visit(bytes, base, little, ifds, offsets[i], depth + 1);
        i = i + 1;
    }
}

/// Gathers a chain of directories.
fn chain(bytes: &[u8], base: usize, little: bool, first: u128) -> (ifds: Vec<Ifd>)
    requires
        base <= bytes@.len(),
    ensures
        ifd_list(ifds@) == chained(
            bytes@,
            base as int,
            little,
            Seq::empty(),
            first as int,
            MAX_IFDS as nat,
        ),
        all_inside(bytes@, ifd_list(ifds@)),
{
    assert(bytes@.len() == bytes.len());
    let ghost goal = chained(
        bytes@,
        base as int,
        little,
        Seq::empty(),
        first as int,
        MAX_IFDS as nat,
    );
    proof {
        lemma_chained(bytes@, base as int, little, Seq::empty(), first as int, MAX_IFDS as nat);
    }
    let mut ifds: Vec<Ifd> = Vec::new();
    assert(ifd_list(ifds@) =~= Seq::<IfdModel>::empty());
    let mut offset: u128 = first;
    let mut fuel: usize = MAX_IFDS;
    while fuel > 0
        invariant
            bytes@.len() == bytes.len(),
            base <= bytes@.len(),
                goal == chained(
                bytes@,
                base as int,
                little,
                Seq::empty(),
                first as int,
                MAX_IFDS as nat,
            ),
            all_inside(bytes@, goal),
            all_inside(bytes@, ifd_list(ifds@)),
            ifds@.len() <= MAX_IFDS,
            chained(
                bytes@,
                base as int,
                little,
                ifd_list(ifds@),
                offset as int,
                fuel as nat,
            ) == goal,
        decreases fuel,
    {
        proof {
            lemma_visited(bytes@, base as int, little, ifd_list(ifds@), offset as int, 0);
        }
        let had: usize = ifds.len();
        visit(bytes, base, little, &mut ifds, offset, 0);
        let next: u32 = read_next(bytes, little, offset);
        if ifds.len() == had || next == 0 {
            return ifds;
        }
        offset = base as u128 + next as u128;
        fuel = fuel - 1;
    }
    ifds
}

impl<'a> Tiff<'a> {
    /// Reads the structure whose header is at `base`.
    pub fn parse_embedded(bytes: &'a [u8], base: usize) -> (r: Result<Tiff<'a>>)
        ensures
            match r {
                Ok(tiff) => tiff_at(bytes@, base as int) == Outcome::<TiffModel>::Ok(tiff@)
                    && tiff@.well_formed(),
                Err(e) => tiff_at(bytes@, base as int) == Outcome::<TiffModel>::Err(e@),
            },
    {
        assert(bytes@.len() == bytes.len());
        let little: bool = has_tag(bytes, base, "II");
        if base > bytes.len() || bytes.len() - base < 8 {
            return Err(corrupt("TIFF header outside the file"));
        }
        if !little && !has_tag(bytes, base, "MM") {
            return Err(corrupt("no TIFF byte order mark"));
        }
        let magic: u16 = match find_word16(bytes, (base + 2) as u64, little) {
            Some(magic) => magic,
            None => return Err(corrupt("TIFF header outside the file")),
        };
        if magic != 42 && magic != 0x55 && magic != 0x4F52 && magic != 0x5352 {
            return Err(corrupt("not a TIFF header"));
        }
        let first: u32 = match find_word32(bytes, (base + 4) as u64, little) {
            Some(first) => first,
            None => return Err(corrupt("TIFF header outside the file")),
        };
        proof {
            law_a_parse_is_bounded(bytes@, base as int);
        }
        let ifds = chain(bytes, base, little, base as u128 + first as u128);
        if ifds.len() == 0 {
            return Err(corrupt("TIFF with no directory"));
        }
        let tiff = Tiff { bytes, base, little, ifds };
        assert(tiff@ =~= tiff_at(bytes@, base as int)->Ok_0);
        Ok(tiff)
    }

    /// Reads the structure whose header begins the file.
    pub fn parse(bytes: &'a [u8]) -> (r: Result<Tiff<'a>>)
        ensures
            match r {
                Ok(tiff) => tiff_at(bytes@, 0) == Outcome::<TiffModel>::Ok(tiff@)
                    && tiff@.well_formed(),
                Err(e) => tiff_at(bytes@, 0) == Outcome::<TiffModel>::Err(e@),
            },
    {
        Tiff::parse_embedded(bytes, 0)
    }

    /// Reads a bare directory whose offsets count from `base`.
    pub fn parse_at_relative(bytes: &'a [u8], offset: usize, base: usize, little: bool) -> (r: Result<
        Tiff<'a>,
    >)
        ensures
            match r {
                Ok(tiff) => bare_at(bytes@, offset as int, base as int, little) == Outcome::<
                    TiffModel,
                >::Ok(tiff@) && tiff@.well_formed(),
                Err(e) => bare_at(bytes@, offset as int, base as int, little) == Outcome::<
                    TiffModel,
                >::Err(e@),
            },
    {
        assert(bytes@.len() == bytes.len());
        if base > bytes.len() {
            return Err(corrupt("TIFF with no directory"));
        }
        let mut ifds: Vec<Ifd> = Vec::new();
        assert(ifd_list(ifds@) =~= Seq::<IfdModel>::empty());
        proof {
            lemma_visited(bytes@, base as int, little, Seq::empty(), offset as int, 0);
        }
        visit(bytes, base, little, &mut ifds, offset as u128, 0);
        if ifds.len() == 0 {
            return Err(corrupt("TIFF with no directory"));
        }
        let tiff = Tiff { bytes, base, little, ifds };
        assert(tiff@ =~= bare_at(bytes@, offset as int, base as int, little)->Ok_0);
        Ok(tiff)
    }

    /// Reads a bare directory whose offsets count from the file's start.
    pub fn parse_at(bytes: &'a [u8], offset: usize, little: bool) -> (r: Result<Tiff<'a>>)
        ensures
            match r {
                Ok(tiff) => bare_at(bytes@, offset as int, 0, little) == Outcome::<TiffModel>::Ok(
                    tiff@,
                ) && tiff@.well_formed(),
                Err(e) => bare_at(bytes@, offset as int, 0, little) == Outcome::<TiffModel>::Err(
                    e@,
                ),
            },
    {
        Tiff::parse_at_relative(bytes, offset, 0, little)
    }

    /// The first directory.
    pub fn root(&self) -> (ifd: &Ifd)
        requires
            self@.well_formed(),
        ensures
            ifd@ == self@.root(),
            ifd@.inside(self.bytes@),
    {
        assert(ifd_list(self.ifds@)[0] == self.ifds@[0]@);
        &self.ifds[0]
    }

    /// The first field with a tag in any directory.
    pub fn find(&self, tag: u16) -> (r: Option<Entry>)
        requires
            self@.well_formed(),
        ensures
            r == self@.field(tag),
            r matches Some(entry) ==> entry.inside(self.bytes@) && entry.tag == tag,
    {
        let mut i: usize = 0;
        while i < self.ifds.len()
            invariant
                self@.well_formed(),
                i <= self.ifds@.len(),
                self@.found_from(tag, 0) == self@.found_from(tag, i as int),
            decreases self.ifds@.len() - i,
        {
            proof {
                assert(self@.ifds[i as int] == self.ifds@[i as int]@);
                assert(self@.ifds[i as int].inside(self.bytes@));
                lemma_field_inside(self.bytes@, self.ifds@[i as int].entries@, tag, 0);
            }
            if let Some(entry) = find_entry(&self.ifds[i].entries, tag) {
                return Some(entry);
            }
            i = i + 1;
        }
        None
    }

    /// Where the value of a directory's field begins and how many elements
    /// it has, also where it runs past the end of the file.
    pub fn place(&self, ifd: &Ifd, tag: u16) -> (r: Option<(u128, u32)>)
        requires
            self@.well_formed(),
        ensures
            match r {
                Some((at, count)) => self@.place(ifd@, tag) == Some((at as int, count as int)),
                None => self@.place(ifd@, tag) is None,
            },
    {
        let (bytes, base, little) = (self.bytes, self.base, self.little);
        assert(bytes@.len() == bytes.len());
        let n: u16 = match find_word16(bytes, ifd.offset as u64, little) {
            Some(n) => n,
            None => return None,
        };
        let ghost offset = ifd.offset as int;
        let mut i: u16 = 0;
        while i < n && ifd.offset as u128 + 14 + 12 * i as u128 <= bytes.len() as u128
            invariant
                bytes@.len() == bytes.len(),
                bytes == self.bytes,
                base == self.base,
                little == self.little,
                offset == ifd.offset,
                base <= bytes@.len(),
                i <= n,
                word16_in(bytes@, offset, little) == Some(n as int),
                place_from(bytes@, base as int, little, offset, tag, 0, n as int) == place_from(
                    bytes@,
                    base as int,
                    little,
                    offset,
                    tag,
                    i as int,
                    n as int,
                ),
            decreases n - i,
        {
            let at: usize = ifd.offset + 2 + 12 * i as usize;
            if let (Some(found), Some(kind), Some(count), Some(start)) = (
                find_word16(bytes, at as u64, little),
                find_word16(bytes, (at + 2) as u64, little),
                find_word32(bytes, (at + 4) as u64, little),
                find_word32(bytes, (at + 8) as u64, little),
            ) {
                let each: u64 = size_of_kind(kind);
                if found == tag && each > 0 {
                    if span_of(each, count as u64) <= 4 {
                        return Some((at as u128 + 8, count));
                    }
                    return Some((base as u128 + start as u128, count));
                }
            }
            i = i + 1;
        }
        None
    }

    /// The 32-bit number at `at`, if it lies in the file.
    pub fn u32_at(&self, at: usize) -> (r: Option<u32>)
        ensures
            match r {
                Some(v) => word32_in(self.bytes@, at as int, self.little) == Some(v as int),
                None => word32_in(self.bytes@, at as int, self.little) is None,
            },
    {
        find_word32(self.bytes, at as u64, self.little)
    }

    /// Element `i` of a field as a whole number.
    pub fn whole(&self, entry: Entry, i: usize) -> (r: Option<i64>)
        requires
            entry.inside(self.bytes@),
        ensures
            match r {
                Some(n) => entry.whole(self.bytes@, self.little, i as int) == Some(n as int)
                    && -0x8000_0000 <= n <= 0xffff_ffff,
                None => entry.whole(self.bytes@, self.little, i as int) is None,
            },
    {
        assert(self.bytes@.len() == self.bytes.len());
        if i >= entry.count {
            return None;
        }
        match entry.kind {
            1 | 7 => Some(self.bytes[entry.offset + i] as i64),
            6 => {
                let v: u8 = self.bytes[entry.offset + i];
                Some(
                    if v < 128 {
                        v as i64
                    } else {
                        v as i64 - 256
                    },
                )
            },
            3 => match find_word16(self.bytes, (entry.offset + 2 * i) as u64, self.little) {
                Some(v) => Some(v as i64),
                None => None,
            },
            8 => match find_word16(self.bytes, (entry.offset + 2 * i) as u64, self.little) {
                Some(v) => Some(
                    if v < 0x8000 {
                        v as i64
                    } else {
                        v as i64 - 0x1_0000
                    },
                ),
                None => None,
            },
            4 | 13 => match find_word32(self.bytes, (entry.offset + 4 * i) as u64, self.little) {
                Some(v) => Some(v as i64),
                None => None,
            },
            9 => match find_word32(self.bytes, (entry.offset + 4 * i) as u64, self.little) {
                Some(v) => Some(signed_of(v)),
                None => None,
            },
            _ => None,
        }
    }

    /// Element `i` of a field as a number without sign.
    pub fn u32(&self, entry: Entry, i: usize) -> (r: Option<u32>)
        requires
            entry.inside(self.bytes@),
        ensures
            match r {
                Some(n) => entry.natural(self.bytes@, self.little, i as int) == Some(n as int),
                None => entry.natural(self.bytes@, self.little, i as int) is None,
            },
    {
        match self.whole(entry, i) {
            Some(n) => if n >= 0 {
                Some(n as u32)
            } else {
                None
            },
            None => None,
        }
    }

    /// Element `i` of a field as an exact quotient.
    pub fn ratio(&self, entry: Entry, i: usize) -> (r: Option<Ratio>)
        requires
            entry.inside(self.bytes@),
        ensures
            r == entry.ratio(self.bytes@, self.little, i as int),
            r matches Some(q) ==> q.den > 0 && -0x8000_0000 <= q.num <= 0xffff_ffff && q.den
                <= 0xffff_ffff,
    {
        assert(self.bytes@.len() == self.bytes.len());
        if let Some(n) = self.whole(entry, i) {
            return Some(Ratio { num: n, den: 1 });
        }
        if i >= entry.count || (entry.kind != 5 && entry.kind != 10) {
            return None;
        }
        let at: usize = entry.offset + 8 * i;
        let num: u32 = match find_word32(self.bytes, at as u64, self.little) {
            Some(num) => num,
            None => return None,
        };
        let den: u32 = match find_word32(self.bytes, (at + 4) as u64, self.little) {
            Some(den) => den,
            None => return None,
        };
        if den == 0 {
            return None;
        }
        if entry.kind == 5 {
            Some(Ratio { num: num as i64, den: den as u64 })
        } else {
            let (n, d) = (signed_of(num), signed_of(den));
            if d < 0 {
                Some(Ratio { num: -n, den: (-d) as u64 })
            } else {
                Some(Ratio { num: n, den: d as u64 })
            }
        }
    }

    /// The bytes of a field.
    pub fn raw(&self, entry: Entry) -> (r: &'a [u8])
        requires
            entry.inside(self.bytes@),
        ensures
            r@ == entry.raw(self.bytes@),
    {
        assert(self.bytes@.len() == self.bytes.len());
        let each: u64 = size_of_kind(entry.kind);
        let size: usize = span_of(each, entry.count as u64) as usize;
        slice_subrange(self.bytes, entry.offset, entry.offset + size)
    }
}

impl Ifd {
    /// The field with a tag.
    pub fn get(&self, tag: u16) -> (r: Option<Entry>)
        ensures
            r == self@.field(tag),
    {
        find_entry(&self.entries, tag)
    }

    /// Whether there is a field with a tag.
    pub fn has(&self, tag: u16) -> (r: bool)
        ensures
            r == (self@.field(tag) is Some),
    {
        find_entry(&self.entries, tag).is_some()
    }
}

fn signed_of(v: u32) -> (r: i64)
    ensures
        r == signed32(v as int),
{
    if v < 0x8000_0000 {
        v as i64
    } else {
        v as i64 - 0x1_0000_0000
    }
}

// -------------------------------------------------------------- the laws

/// The bytes of an element of each kind, from 1 on: byte, text, short, long,
/// rational, signed byte, opaque, signed short, signed long, signed
/// rational, float, double, directory.
pub open spec fn element_bytes() -> Seq<int> {
    seq![1, 1, 2, 4, 8, 1, 1, 2, 4, 8, 4, 8, 4]
}

/// Whether the slot at `at` holds a field: its tag, its kind, how many
/// elements it has, and the value if it takes up to four bytes, or else
/// where it is.
pub open spec fn holds_field(
    bytes: Seq<u8>,
    base: int,
    little: bool,
    at: int,
    tag: u16,
    kind: int,
    count: int,
    place: int,
) -> bool {
    let size = element_bytes()[kind - 1] * count;
    &&& 0 <= at
    &&& at + 12 <= bytes.len()
    &&& 1 <= kind <= 13
    &&& 0 <= count < 0x1_0000_0000
    &&& holds_number(bytes, at, tag as int, 2, little)
    &&& holds_number(bytes, at + 2, kind, 2, little)
    &&& holds_number(bytes, at + 4, count, 4, little)
    &&& size <= 4 ==> place == at + 8
    &&& size > 4 ==> 0 <= place - base < 0x1_0000_0000 && holds_number(
        bytes,
        at + 8,
        place - base,
        4,
        little,
    )
    &&& 0 <= place
    &&& place + size <= bytes.len()
}

/// A field is read back from its slot.
pub proof fn law_a_field_is_read_back(
    bytes: Seq<u8>,
    base: int,
    little: bool,
    at: int,
    tag: u16,
    kind: int,
    count: int,
    place: int,
)
    requires
        bytes.len() <= usize::MAX,
        0 <= base,
        holds_field(bytes, base, little, at, tag, kind, count, place),
    ensures
        entry_at(bytes, base, little, at) == Some(
            Entry { tag, kind: kind as u16, count: count as usize, offset: place as usize },
        ),
{
    law_numbers_are_read_from_their_bytes(bytes, at, tag as int, little);
    law_numbers_are_read_from_their_bytes(bytes, at + 2, kind, little);
    law_numbers_are_read_from_their_bytes(bytes, at + 4, count, little);
    law_numbers_are_read_from_their_bytes(bytes, at + 8, place - base, little);
    let each = element_bytes()[kind - 1];
    assert(each == 1 || each == 2 || each == 4 || each == 8);
    assert(each * count == span(kind, count)) by (nonlinear_arith)
        requires
            each == 1 && span(kind, count) == count || each == 2 && span(kind, count) == 2 * count
                || each == 4 && span(kind, count) == 4 * count || each == 8 && span(kind, count)
                == 8 * count,
    ;
    assert(count <= each * count) by (nonlinear_arith)
        requires
            1 <= each,
            0 <= count,
    ;
}

/// The elements of a field are read back: bytes, shorts and longs as they
/// are, the signed kinds with their sign, and the rational kinds as a
/// quotient of two longs.
pub proof fn law_elements_are_read_back(
    bytes: Seq<u8>,
    little: bool,
    entry: Entry,
    i: int,
    value: int,
    under: int,
)
    requires
        0 <= i < entry.count,
        entry.inside(bytes),
        bytes.len() <= usize::MAX,
    ensures
        (entry.kind == 1 || entry.kind == 7) && bytes[entry.offset + i] == value ==> entry.whole(
            bytes,
            little,
            i,
        ) == Some(value),
        entry.kind == 6 && -128 <= value < 128 && bytes[entry.offset + i] == value % 256
            ==> entry.whole(bytes, little, i) == Some(value),
        entry.kind == 3 && 0 <= value < 0x1_0000 && holds_number(
            bytes,
            entry.offset + 2 * i,
            value,
            2,
            little,
        ) ==> entry.whole(bytes, little, i) == Some(value),
        entry.kind == 8 && -0x8000 <= value < 0x8000 && holds_number(
            bytes,
            entry.offset + 2 * i,
            value % 0x1_0000,
            2,
            little,
        ) ==> entry.whole(bytes, little, i) == Some(value),
        (entry.kind == 4 || entry.kind == 13) && 0 <= value < 0x1_0000_0000 && holds_number(
            bytes,
            entry.offset + 4 * i,
            value,
            4,
            little,
        ) ==> entry.whole(bytes, little, i) == Some(value),
        entry.kind == 9 && -0x8000_0000 <= value < 0x8000_0000 && holds_number(
            bytes,
            entry.offset + 4 * i,
            value % 0x1_0000_0000,
            4,
            little,
        ) ==> entry.whole(bytes, little, i) == Some(value),
        entry.kind == 5 && 0 <= value < 0x1_0000_0000 && 0 < under < 0x1_0000_0000 && holds_number(
            bytes,
            entry.offset + 8 * i,
            value,
            4,
            little,
        ) && holds_number(bytes, entry.offset + 8 * i + 4, under, 4, little) ==> entry.ratio(
            bytes,
            little,
            i,
        ) == Some(Ratio { num: value as i64, den: under as u64 }),
        entry.kind == 10 && -0x8000_0000 <= value < 0x8000_0000 && -0x8000_0000 <= under
            < 0x8000_0000 && under != 0 && holds_number(
            bytes,
            entry.offset + 8 * i,
            value % 0x1_0000_0000,
            4,
            little,
        ) && holds_number(
            bytes,
            entry.offset + 8 * i + 4,
            under % 0x1_0000_0000,
            4,
            little,
        ) ==> (entry.ratio(bytes, little, i) matches Some(q) && q.den > 0 && q.num * under == value
            * q.den),
        value >= 0 ==> (entry.whole(bytes, little, i) == Some(value) <==> entry.natural(
            bytes,
            little,
            i,
        ) == Some(value)),
        entry.natural(bytes, little, i) matches Some(n) ==> n >= 0,
{
    law_signed_numbers_are_read_back(value);
    law_signed_numbers_are_read_back(under);
    law_numbers_are_read_from_their_bytes(bytes, entry.offset + 2 * i, value, little);
    law_numbers_are_read_from_their_bytes(
        bytes,
        entry.offset + 2 * i,
        value % 0x1_0000,
        little,
    );
    law_numbers_are_read_from_their_bytes(bytes, entry.offset + 4 * i, value, little);
    law_numbers_are_read_from_their_bytes(
        bytes,
        entry.offset + 4 * i,
        value % 0x1_0000_0000,
        little,
    );
    law_numbers_are_read_from_their_bytes(bytes, entry.offset + 8 * i, value, little);
    law_numbers_are_read_from_their_bytes(bytes, entry.offset + 8 * i + 4, under, little);
    law_numbers_are_read_from_their_bytes(
        bytes,
        entry.offset + 8 * i,
        value % 0x1_0000_0000,
        little,
    );
    law_numbers_are_read_from_their_bytes(
        bytes,
        entry.offset + 8 * i + 4,
        under % 0x1_0000_0000,
        little,
    );
    if entry.kind == 10 {
        assert((-value) * under == value * (-under)) by (nonlinear_arith);
    }
}

proof fn lemma_listed(bytes: Seq<u8>, base: int, little: bool, offset: int, k: int, i: int)
    requires
        0 <= i < k,
        forall|j: int|
            0 <= j < k ==> offset + 2 + 12 * j + 12 <= bytes.len() && (#[trigger] entry_at(
                bytes,
                base,
                little,
                offset + 2 + 12 * j,
            )) is Some,
    ensures
        entry_list(bytes, base, little, offset, k).len() == k,
        Some(entry_list(bytes, base, little, offset, k)[i]) == entry_at(
            bytes,
            base,
            little,
            offset + 2 + 12 * i,
        ),
    decreases k,
{
    assert(entry_at(bytes, base, little, offset + 2 + 12 * (k - 1)) is Some);
    if k > 1 {
        lemma_listed(
            bytes,
            base,
            little,
            offset,
            k - 1,
            if i < k - 1 {
                i
            } else {
                0
            },
        );
    } else {
        assert(entry_list(bytes, base, little, offset, 0).len() == 0);
    }
}

/// A directory lists its fields in order: one for each slot of twelve bytes
/// after its count, where they can all be read.
pub proof fn law_a_directory_lists_its_fields(
    bytes: Seq<u8>,
    base: int,
    little: bool,
    offset: int,
    n: int,
    i: int,
)
    requires
        0 <= i < n < 0x1_0000,
        holds_number(bytes, offset, n, 2, little),
        forall|j: int|
            0 <= j < n ==> offset + 2 + 12 * j + 12 <= bytes.len() && (#[trigger] entry_at(
                bytes,
                base,
                little,
                offset + 2 + 12 * j,
            )) is Some,
    ensures
        directory_at(bytes, base, little, offset) matches Some(ifd) && ifd.offset == offset
            && ifd.entries.len() == n && Some(ifd.entries[i]) == entry_at(
            bytes,
            base,
            little,
            offset + 2 + 12 * i,
        ),
{
    law_numbers_are_read_from_their_bytes(bytes, offset, n, little);
    lemma_listed(bytes, base, little, offset, n, i);
}

/// A field is found by its tag: the first one that has it, and none only if
/// none has it.
pub proof fn law_fields_are_found_by_tag(entries: Seq<Entry>, tag: u16, from: int)
    requires
        0 <= from,
    ensures
        match first_entry(entries, tag, from) {
            Some(entry) => entry.tag == tag && exists|i: int|
                from <= i < entries.len() && #[trigger] entries[i] == entry && (forall|j: int|
                    from <= j < i ==> (#[trigger] entries[j]).tag != tag),
            None => forall|i: int|
                from <= i < entries.len() ==> (#[trigger] entries[i]).tag != tag,
        },
    decreases entries.len() - from,
{
    if from < entries.len() {
        if entries[from].tag == tag {
            assert(entries[from] == first_entry(entries, tag, from)->0);
        } else {
            law_fields_are_found_by_tag(entries, tag, from + 1);
            if let Some(entry) = first_entry(entries, tag, from + 1) {
                let i = choose|i: int|
                    from + 1 <= i < entries.len() && #[trigger] entries[i] == entry && (forall|
                        j: int,
                    |
                        from + 1 <= j < i ==> (#[trigger] entries[j]).tag != tag);
                assert(entries[i] == entry);
            }
        }
    }
}

proof fn lemma_visited_keeps(
    bytes: Seq<u8>,
    base: int,
    little: bool,
    ifds: Seq<IfdModel>,
    offset: int,
    depth: nat,
)
    ensures
        ifds.is_prefix_of(visited(bytes, base, little, ifds, offset, depth)),
    decreases MAX_DEPTH + 1 - depth, 1nat, 0nat,
{
    if !(depth > MAX_DEPTH || ifds.len() >= MAX_IFDS || seen(ifds, offset)) {
        if let Some(ifd) = directory_at(bytes, base, little, offset) {
            lemma_children_keep(
                bytes,
                base,
                little,
                ifds.push(ifd),
                children_of(bytes, base, little, ifd),
                0,
                depth,
            );
            assert(ifds.is_prefix_of(ifds.push(ifd)));
        }
    }
}

proof fn lemma_children_keep(
    bytes: Seq<u8>,
    base: int,
    little: bool,
    ifds: Seq<IfdModel>,
    offsets: Seq<int>,
    i: int,
    depth: nat,
)
    ensures
        ifds.is_prefix_of(with_children(bytes, base, little, ifds, offsets, i, depth)),
    decreases MAX_DEPTH + 1 - depth, 0nat, (offsets.len() - i) as nat,
{
    if !(i < 0 || i >= offsets.len() || depth > MAX_DEPTH) {
        lemma_visited_keeps(bytes, base, little, ifds, offsets[i], depth + 1);
        lemma_children_keep(
            bytes,
            base,
            little,
            visited(bytes, base, little, ifds, offsets[i], depth + 1),
            offsets,
            i + 1,
            depth,
        );
    }
}

proof fn lemma_chain_keeps(
    bytes: Seq<u8>,
    base: int,
    little: bool,
    ifds: Seq<IfdModel>,
    offset: int,
    fuel: nat,
)
    ensures
        ifds.is_prefix_of(chained(bytes, base, little, ifds, offset, fuel)),
    decreases fuel,
{
    if fuel > 0 {
        lemma_visited_keeps(bytes, base, little, ifds, offset, 0);
        let found = visited(bytes, base, little, ifds, offset, 0);
        let next = next_pointer(bytes, little, offset);
        if !(found.len() == ifds.len() || next == 0) {
            lemma_chain_keeps(bytes, base, little, found, base + next, (fuel - 1) as nat);
        }
    }
}

/// A structure starts with the directory that its header points at, in the
/// byte order that the header says: `II` for the least significant byte
/// first, `MM` for the most.
pub proof fn law_the_header_points_at_the_root(
    bytes: Seq<u8>,
    base: int,
    little: bool,
    first: int,
)
    requires
        bytes.len() <= usize::MAX,
        0 <= base,
        base + 8 <= bytes.len(),
        bytes[base] == if little {
            0x49u8
        } else {
            0x4du8
        },
        bytes[base + 1] == bytes[base],
        holds_number(bytes, base + 2, 42, 2, little),
        0 <= first < 0x1_0000_0000,
        holds_number(bytes, base + 4, first, 4, little),
        directory_at(bytes, base, little, base + first) is Some,
    ensures
        tiff_at(bytes, base) matches Ok(tiff) && tiff.little == little && tiff.base == base
            && tiff.bytes == bytes && Some(tiff.root()) == directory_at(
            bytes,
            base,
            little,
            base + first,
        ),
{
    law_numbers_are_read_from_their_bytes(bytes, base + 2, 42, little);
    law_numbers_are_read_from_their_bytes(bytes, base + 4, first, little);
    reveal_strlit("II");
    reveal_strlit("MM");
    assert(tagged(bytes, base, "II"@) == little) by {
        if little {
            assert forall|i: int| 0 <= i < "II"@.len() implies #[trigger] "II"@[i] as u32 == bytes[base
                + i] as u32 by {
                assert(i == 0 || i == 1);
            }
        } else {
            assert("II"@[0] as u32 != bytes[base + 0] as u32);
        }
    }
    if !little {
        assert(tagged(bytes, base, "MM"@)) by {
            assert forall|i: int| 0 <= i < "MM"@.len() implies #[trigger] "MM"@[i] as u32 == bytes[base
                + i] as u32 by {
                assert(i == 0 || i == 1);
            }
        }
    }
    let none = Seq::<IfdModel>::empty();
    let ifd = directory_at(bytes, base, little, base + first)->0;
    let offset = base + first;
    lemma_children_keep(
        bytes,
        base,
        little,
        none.push(ifd),
        children_of(bytes, base, little, ifd),
        0,
        0,
    );
    let found = visited(bytes, base, little, none, offset, 0);
    assert(none.push(ifd).is_prefix_of(found));
    assert(none.push(ifd)[0] == ifd);
    let next = next_pointer(bytes, little, offset);
    if next != 0 {
        lemma_chain_keeps(bytes, base, little, found, base + next, (MAX_IFDS - 1) as nat);
    }
    let ifds = chained(bytes, base, little, none, offset, MAX_IFDS as nat);
    assert(found.is_prefix_of(ifds));
    assert(ifds[0] == found[0] && found[0] == ifd);
}

} // verus!
