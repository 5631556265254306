//! Telling which container a file is from its bytes.

use crate::bytes::{find_word16, find_word32, has_tag, holds, tagged, word16_in, word32_in};
use crate::raw::Format;
use crate::text::{
    characters, has_upper_prefix, lossy_text, starts_upper, strip_nuls, text_of, trim, trimmed,
    upper, without_nuls,
};
use vstd::prelude::*;
use vstd::slice::slice_subrange;

verus! {

const MAKE: u16 = 0x010F;

const PHOTOMETRIC: u16 = 0x0106;

const BITS_PER_SAMPLE: u16 = 0x0102;

const STRIP_OFFSETS: u16 = 0x0111;

const STRIP_BYTE_COUNTS: u16 = 0x0117;

const SUB_IFDS: u16 = 0x014A;

const LEAF_DATA: u16 = 0x8606;

const DNG_VERSION: u16 = 0xC612;

const DNG_PRIVATE_DATA: u16 = 0xC634;

/// What a walk over the directories of a TIFF-shaped file has seen.
#[verifier::ext_equal]
pub struct Scan {
    /// The maker's name, once one was found.
    pub make: Seq<char>,
    /// Some directory holds sensor data.
    pub sensor: bool,
    pub dng: bool,
    pub leaf: bool,
    /// Some directory holds the maker's private block.
    pub private: bool,
    /// Directories still to visit, the next one last.
    pub queue: Seq<int>,
    /// The directory at hand has samples more than eight bits deep.
    pub deep: bool,
    /// The directory at hand has strips.
    pub strips: bool,
    /// The directory at hand is still being read.
    pub reading: bool,
}

/// Where the value of an entry lies: in the entry when it is short, else
/// where the entry points.
pub open spec fn value_place(bytes: Seq<u8>, little: bool, entry: int, inside: bool) -> Option<
    int,
> {
    if inside {
        Some(entry + 8)
    } else {
        word32_in(bytes, entry + 8, little)
    }
}

/// The maker's name out of the text stored for it.
pub open spec fn make_in(text: Seq<char>) -> Seq<char> {
    trimmed(without_nuls(text))
}

/// The offsets stored from `at` on: those of the `n` that lie in the file.
pub open spec fn offsets_at(bytes: Seq<u8>, little: bool, at: int, n: nat) -> Seq<int>
    decreases n,
{
    if n == 0 {
        Seq::empty()
    } else {
        let before = offsets_at(bytes, little, at, (n - 1) as nat);
        match word32_in(bytes, at + (n - 1) * 4, little) {
            Some(offset) => before.push(offset),
            None => before,
        }
    }
}

/// The scan after an entry of a known tag, type and count.
pub open spec fn with_entry(
    bytes: Seq<u8>,
    little: bool,
    scan: Scan,
    entry: int,
    tag: int,
    kind: int,
    n: int,
) -> Scan {
    if tag == 0x0102 && kind == 3 {
        match value_place(bytes, little, entry, n <= 2) {
            Some(at) => Scan {
                deep: word16_in(bytes, at, little) matches Some(bits) && bits > 8,
                ..scan
            },
            None => Scan { reading: false, ..scan },
        }
    } else if tag == 0x0111 || tag == 0x0117 {
        Scan { strips: true, ..scan }
    } else if tag == 0x8606 {
        Scan { leaf: true, ..scan }
    } else if tag == 0xC634 {
        Scan { private: true, ..scan }
    } else if tag == 0x010F && kind == 2 && scan.make.len() == 0 {
        match value_place(bytes, little, entry, n <= 4) {
            Some(at) => if holds(bytes, at, n) {
                Scan { make: make_in(lossy_text(bytes.subrange(at, at + n))), ..scan }
            } else {
                scan
            },
            None => Scan { reading: false, ..scan },
        }
    } else if tag == 0x0106 && kind == 3 {
        if word16_in(bytes, entry + 8, little) == Some(32803int) || word16_in(
            bytes,
            entry + 8,
            little,
        ) == Some(34892int) {
            Scan { sensor: true, ..scan }
        } else {
            scan
        }
    } else if tag == 0xC612 {
        Scan { dng: true, ..scan }
    } else if tag == 0x014A && (kind == 4 || kind == 13) {
        let count = if n < 8 {
            n
        } else {
            8
        };
        match value_place(bytes, little, entry, count == 1) {
            Some(at) => Scan {
                queue: scan.queue + offsets_at(bytes, little, at, count as nat),
                ..scan
            },
            None => Scan { reading: false, ..scan },
        }
    } else {
        scan
    }
}

/// The scan after entry `i` of the directory at `ifd`. The first entry
/// that does not lie in the file ends the directory.
pub open spec fn with_entry_at(
    bytes: Seq<u8>,
    little: bool,
    scan: Scan,
    ifd: int,
    i: int,
) -> Scan {
    let entry = ifd + 2 + i * 12;
    if !scan.reading {
        scan
    } else {
        match (
            word16_in(bytes, entry, little),
            word16_in(bytes, entry + 2, little),
            word32_in(bytes, entry + 4, little),
        ) {
            (Some(tag), Some(kind), Some(n)) => with_entry(
                bytes,
                little,
                scan,
                entry,
                tag,
                kind,
                n,
            ),
            _ => Scan { reading: false, ..scan },
        }
    }
}

/// The scan after the first `n` entries of the directory at `ifd`.
pub open spec fn with_entries(bytes: Seq<u8>, little: bool, scan: Scan, ifd: int, n: nat) -> Scan
    decreases n,
{
    if n == 0 {
        Scan { deep: false, strips: false, reading: true, ..scan }
    } else {
        with_entry_at(
            bytes,
            little,
            with_entries(bytes, little, scan, ifd, (n - 1) as nat),
            ifd,
            n - 1,
        )
    }
}

/// The scan after the directory at `ifd`. One of strips more than eight
/// bits deep is sensor data in the formats that never say so.
pub open spec fn with_directory(bytes: Seq<u8>, little: bool, scan: Scan, ifd: int) -> Scan {
    match word16_in(bytes, ifd, little) {
        None => scan,
        Some(stored) => {
            let count = if stored < 512 {
                stored
            } else {
                512
            };
            let read = with_entries(bytes, little, scan, ifd, count as nat);
            let marked = Scan { sensor: read.sensor || (read.deep && read.strips), ..read };
            match word32_in(bytes, ifd + 2 + count * 12, little) {
                Some(next) => if next != 0 {
                    Scan { queue: marked.queue.push(next), ..marked }
                } else {
                    marked
                },
                None => marked,
            }
        },
    }
}

/// The scan when the walk ends: no directory is left, or twelve were
/// visited.
pub open spec fn scanned(bytes: Seq<u8>, little: bool, scan: Scan, visited: nat) -> Scan
    decreases 12 - visited,
{
    if scan.queue.len() == 0 || visited >= 12 {
        scan
    } else {
        scanned(
            bytes,
            little,
            with_directory(
                bytes,
                little,
                Scan { queue: scan.queue.drop_last(), ..scan },
                scan.queue.last(),
            ),
            visited + 1,
        )
    }
}

/// The format whose maker goes by this name.
pub open spec fn format_by_make(make: Seq<char>) -> Option<Format> {
    if starts_upper(make, "NIKON"@) {
        Some(Format::Nef)
    } else if starts_upper(make, "SONY"@) {
        Some(Format::Arw)
    } else if starts_upper(make, "CANON"@) {
        Some(Format::Cr2)
    } else if starts_upper(make, "PENTAX"@) || starts_upper(make, "RICOH"@) || starts_upper(
        make,
        "ASAHI"@,
    ) {
        Some(Format::Pef)
    } else if starts_upper(make, "SAMSUNG"@) {
        Some(Format::Srw)
    } else if starts_upper(make, "KODAK"@) || starts_upper(make, "EASTMAN"@) {
        Some(Format::Kodak)
    } else if starts_upper(make, "SEIKO EPSON"@) || starts_upper(make, "EPSON"@) {
        Some(Format::Erf)
    } else if starts_upper(make, "MAMIYA"@) {
        Some(Format::Mef)
    } else if starts_upper(make, "HASSELBLAD"@) {
        Some(Format::Hasselblad)
    } else if starts_upper(make, "LEAF"@) {
        Some(Format::Mos)
    } else if starts_upper(make, "PHASE ONE"@) {
        Some(Format::Iiq)
    } else if starts_upper(make, "OLYMPUS"@) || starts_upper(make, "OM DIGITAL"@) {
        Some(Format::Orf)
    } else if starts_upper(make, "PANASONIC"@) || starts_upper(make, "LEICA"@) {
        Some(Format::Rw2)
    } else if starts_upper(make, "MINOLTA"@) || starts_upper(make, "KONICA"@) {
        Some(Format::Mrw)
    } else {
        None
    }
}

/// What a finished scan makes of the file. Most makers mark their sensor
/// directories, which a converter's file of the same make does not; the
/// makers that do not are trusted on the make alone.
pub open spec fn verdict(scan: Scan) -> Option<Format> {
    if scan.dng {
        Some(Format::Dng)
    } else if scan.leaf && scan.make.len() == 0 {
        Some(Format::Mos)
    } else {
        match format_by_make(scan.make) {
            None => None,
            Some(format) => {
                let trusted = format == Format::Mos || format == Format::Kodak || format
                    == Format::Mef || format == Format::Erf || (format == Format::Arw
                    && scan.private);
                if scan.sensor || trusted {
                    Some(format)
                } else {
                    None
                }
            },
        }
    }
}

/// A file in which nothing marks sensor data is taken for a raw only on the
/// word of a maker that never marks it: a converter's file of another make
/// is none.
pub proof fn law_unmarked_files_are_not_raw(scan: Scan)
    requires
        !scan.dng,
        !scan.leaf,
        !scan.sensor,
        !scan.private,
    ensures
        match verdict(scan) {
            None => true,
            Some(format) => format_by_make(scan.make) == Some(format) && (format == Format::Mos
                || format == Format::Kodak || format == Format::Mef || format == Format::Erf),
        },
{
}

/// A file that says it is a DNG is one, whoever made it.
pub proof fn law_dng_comes_first(scan: Scan)
    requires
        scan.dng,
    ensures
        verdict(scan) == Some(Format::Dng),
{
}

/// A scan that has seen nothing, about to visit the directory at `ifd`.
pub open spec fn unseen(ifd: int) -> Scan {
    Scan {
        make: Seq::empty(),
        sensor: false,
        dng: false,
        leaf: false,
        private: false,
        queue: seq![ifd],
        deep: false,
        strips: false,
        reading: false,
    }
}

/// Whether a make begins with a name.
pub open spec fn goes_on(make: Seq<char>, name: Seq<char>) -> bool {
    name.len() <= make.len() && make.take(name.len() as int) == name
}

proof fn lemma_begins(make: Seq<char>, name: Seq<char>)
    requires
        goes_on(make, name),
        forall|i: int| 0 <= i < name.len() ==> upper(#[trigger] name[i]) == name[i],
    ensures
        starts_upper(make, name),
        forall|i: int| 0 <= i < name.len() ==> make[i] == #[trigger] name[i],
{
    assert forall|i: int| 0 <= i < name.len() implies make[i] == #[trigger] name[i] by {
        assert(make.take(name.len() as int)[i] == make[i]);
    }
}

/// Whether the first letters of a name are these.
spec fn spelled(name: Seq<char>, a: char, b: char, c: char) -> bool {
    name.len() > 3 && name[0] == a && name[1] == b && name[2] == c && forall|i: int|
        0 <= i < name.len() ==> upper(#[trigger] name[i]) == name[i]
}

proof fn lemma_spelled()
    ensures
        spelled("NIKON"@, 'N', 'I', 'K'),
        spelled("SONY"@, 'S', 'O', 'N'),
        spelled("CANON"@, 'C', 'A', 'N'),
        spelled("PENTAX"@, 'P', 'E', 'N'),
        spelled("RICOH"@, 'R', 'I', 'C'),
        spelled("ASAHI"@, 'A', 'S', 'A'),
        spelled("SAMSUNG"@, 'S', 'A', 'M'),
        spelled("KODAK"@, 'K', 'O', 'D'),
        spelled("EASTMAN"@, 'E', 'A', 'S'),
        spelled("SEIKO EPSON"@, 'S', 'E', 'I'),
        spelled("EPSON"@, 'E', 'P', 'S'),
        spelled("MAMIYA"@, 'M', 'A', 'M'),
        spelled("HASSELBLAD"@, 'H', 'A', 'S'),
        spelled("LEAF"@, 'L', 'E', 'A'),
        spelled("PHASE ONE"@, 'P', 'H', 'A'),
        spelled("OLYMPUS"@, 'O', 'L', 'Y'),
        spelled("OM DIGITAL"@, 'O', 'M', ' '),
        spelled("PANASONIC"@, 'P', 'A', 'N'),
        spelled("LEICA"@, 'L', 'E', 'I'),
        spelled("MINOLTA"@, 'M', 'I', 'N'),
        spelled("KONICA"@, 'K', 'O', 'N'),
{
    reveal_strlit("NIKON");
    reveal_strlit("SONY");
    reveal_strlit("CANON");
    reveal_strlit("PENTAX");
    reveal_strlit("RICOH");
    reveal_strlit("ASAHI");
    reveal_strlit("SAMSUNG");
    reveal_strlit("KODAK");
    reveal_strlit("EASTMAN");
    reveal_strlit("SEIKO EPSON");
    reveal_strlit("EPSON");
    reveal_strlit("MAMIYA");
    reveal_strlit("HASSELBLAD");
    reveal_strlit("LEAF");
    reveal_strlit("PHASE ONE");
    reveal_strlit("OLYMPUS");
    reveal_strlit("OM DIGITAL");
    reveal_strlit("PANASONIC");
    reveal_strlit("LEICA");
    reveal_strlit("MINOLTA");
    reveal_strlit("KONICA");
}

/// Whose files are of which format: those of a make that begins with one of
/// these names, whatever follows it.
pub proof fn law_makers_have_their_formats(make: Seq<char>)
    ensures
        goes_on(make, "NIKON"@) ==> format_by_make(make) == Some(Format::Nef),
        goes_on(make, "SONY"@) ==> format_by_make(make) == Some(Format::Arw),
        goes_on(make, "CANON"@) ==> format_by_make(make) == Some(Format::Cr2),
        goes_on(make, "PENTAX"@) ==> format_by_make(make) == Some(Format::Pef),
        goes_on(make, "RICOH"@) ==> format_by_make(make) == Some(Format::Pef),
        goes_on(make, "ASAHI"@) ==> format_by_make(make) == Some(Format::Pef),
        goes_on(make, "SAMSUNG"@) ==> format_by_make(make) == Some(Format::Srw),
        goes_on(make, "KODAK"@) ==> format_by_make(make) == Some(Format::Kodak),
        goes_on(make, "EASTMAN"@) ==> format_by_make(make) == Some(Format::Kodak),
        goes_on(make, "SEIKO EPSON"@) ==> format_by_make(make) == Some(Format::Erf),
        goes_on(make, "EPSON"@) ==> format_by_make(make) == Some(Format::Erf),
        goes_on(make, "MAMIYA"@) ==> format_by_make(make) == Some(Format::Mef),
        goes_on(make, "HASSELBLAD"@) ==> format_by_make(make) == Some(Format::Hasselblad),
        goes_on(make, "LEAF"@) ==> format_by_make(make) == Some(Format::Mos),
        goes_on(make, "PHASE ONE"@) ==> format_by_make(make) == Some(Format::Iiq),
        goes_on(make, "OLYMPUS"@) ==> format_by_make(make) == Some(Format::Orf),
        goes_on(make, "OM DIGITAL"@) ==> format_by_make(make) == Some(Format::Orf),
        goes_on(make, "PANASONIC"@) ==> format_by_make(make) == Some(Format::Rw2),
        goes_on(make, "LEICA"@) ==> format_by_make(make) == Some(Format::Rw2),
        goes_on(make, "MINOLTA"@) ==> format_by_make(make) == Some(Format::Mrw),
        goes_on(make, "KONICA"@) ==> format_by_make(make) == Some(Format::Mrw),
{
    lemma_spelled();
    if goes_on(make, "NIKON"@) {
        lemma_begins(make, "NIKON"@);
        assert(format_by_make(make) == Some(Format::Nef));
    }
    if goes_on(make, "SONY"@) {
        lemma_begins(make, "SONY"@);
        assert(format_by_make(make) == Some(Format::Arw));
    }
    if goes_on(make, "CANON"@) {
        lemma_begins(make, "CANON"@);
        assert(format_by_make(make) == Some(Format::Cr2));
    }
    if goes_on(make, "PENTAX"@) {
        lemma_begins(make, "PENTAX"@);
        assert(format_by_make(make) == Some(Format::Pef));
    }
    if goes_on(make, "RICOH"@) {
        lemma_begins(make, "RICOH"@);
        assert(format_by_make(make) == Some(Format::Pef));
    }
    if goes_on(make, "ASAHI"@) {
        lemma_begins(make, "ASAHI"@);
        assert(format_by_make(make) == Some(Format::Pef));
    }
    if goes_on(make, "SAMSUNG"@) {
        lemma_begins(make, "SAMSUNG"@);
        assert(format_by_make(make) == Some(Format::Srw));
    }
    if goes_on(make, "KODAK"@) {
        lemma_begins(make, "KODAK"@);
        assert(format_by_make(make) == Some(Format::Kodak));
    }
    if goes_on(make, "EASTMAN"@) {
        lemma_begins(make, "EASTMAN"@);
        assert(format_by_make(make) == Some(Format::Kodak));
    }
    if goes_on(make, "SEIKO EPSON"@) {
        lemma_begins(make, "SEIKO EPSON"@);
        assert(format_by_make(make) == Some(Format::Erf));
    }
    if goes_on(make, "EPSON"@) {
        lemma_begins(make, "EPSON"@);
        assert(format_by_make(make) == Some(Format::Erf));
    }
    if goes_on(make, "MAMIYA"@) {
        lemma_begins(make, "MAMIYA"@);
        assert(format_by_make(make) == Some(Format::Mef));
    }
    if goes_on(make, "HASSELBLAD"@) {
        lemma_begins(make, "HASSELBLAD"@);
        assert(format_by_make(make) == Some(Format::Hasselblad));
    }
    if goes_on(make, "LEAF"@) {
        lemma_begins(make, "LEAF"@);
        assert(format_by_make(make) == Some(Format::Mos));
    }
    if goes_on(make, "PHASE ONE"@) {
        lemma_begins(make, "PHASE ONE"@);
        assert(format_by_make(make) == Some(Format::Iiq));
    }
    if goes_on(make, "OLYMPUS"@) {
        lemma_begins(make, "OLYMPUS"@);
        assert(format_by_make(make) == Some(Format::Orf));
    }
    if goes_on(make, "OM DIGITAL"@) {
        lemma_begins(make, "OM DIGITAL"@);
        assert(format_by_make(make) == Some(Format::Orf));
    }
    if goes_on(make, "PANASONIC"@) {
        lemma_begins(make, "PANASONIC"@);
        assert(format_by_make(make) == Some(Format::Rw2));
    }
    if goes_on(make, "LEICA"@) {
        lemma_begins(make, "LEICA"@);
        assert(format_by_make(make) == Some(Format::Rw2));
    }
    if goes_on(make, "MINOLTA"@) {
        lemma_begins(make, "MINOLTA"@);
        assert(format_by_make(make) == Some(Format::Mrw));
    }
    if goes_on(make, "KONICA"@) {
        lemma_begins(make, "KONICA"@);
        assert(format_by_make(make) == Some(Format::Mrw));
    }
}

/// What a directory's entry tells, by its tag: 50706 a DNG, 34310 a Leaf,
/// 50740 the maker's private block, 273 and 279 strips, and a photometric
/// interpretation of 32803 or 34892 sensor data. An entry changes nothing
/// that was seen before.
pub proof fn law_entries_tell_what_they_are(
    bytes: Seq<u8>,
    little: bool,
    scan: Scan,
    entry: int,
    tag: int,
    kind: int,
    n: int,
)
    ensures
        ({
            let next = with_entry(bytes, little, scan, entry, tag, kind, n);
            &&& next.dng <==> scan.dng || tag == 50706
            &&& next.leaf <==> scan.leaf || tag == 34310
            &&& next.private <==> scan.private || tag == 50740
            &&& next.strips <==> scan.strips || tag == 273 || tag == 279
            &&& next.sensor <==> scan.sensor || tag == 262 && kind == 3 && (word16_in(
                bytes,
                entry + 8,
                little,
            ) == Some(32803int) || word16_in(bytes, entry + 8, little) == Some(34892int))
            &&& scan.make.len() > 0 ==> next.make == scan.make
            &&& tag == 258 && kind == 3 && n <= 2 ==> (next.deep <==> (word16_in(
                bytes,
                entry + 8,
                little,
            ) matches Some(bits) && bits > 8))
            &&& tag != 258 ==> next.deep == scan.deep
            &&& tag != 330 ==> next.queue == scan.queue
            &&& tag == 330 && (kind == 4 || kind == 13) && n == 1 && word32_in(
                bytes,
                entry + 8,
                little,
            ) is Some ==> next.queue == scan.queue.push(word32_in(bytes, entry + 8, little)->0)
        }),
{
    if tag == 330 && n == 1 {
        let none = offsets_at(bytes, little, entry + 8, 0);
        assert(none =~= Seq::empty());
        assert(offsets_at(bytes, little, entry + 8, 1) =~= match word32_in(
            bytes,
            entry + 8 + (1 - 1) * 4,
            little,
        ) {
            Some(offset) => none.push(offset),
            None => none,
        });
        assert(entry + 8 + (1 - 1) * 4 == entry + 8);
        if let Some(offset) = word32_in(bytes, entry + 8, little) {
            assert(scan.queue + none.push(offset) =~= scan.queue.push(offset));
        }
    }
}

/// What becomes of what was seen. A DNG is one whatever else was seen. A
/// Leaf without a make is a Leaf. Otherwise the make decides, where the
/// file holds sensor data or is of a make whose files never say so.
pub proof fn law_verdicts_need_sensor_data(scan: Scan, format: Format)
    requires
        !scan.dng,
        scan.make.len() > 0,
        format_by_make(scan.make) == Some(format),
    ensures
        scan.sensor ==> verdict(scan) == Some(format),
        format == Format::Mos || format == Format::Kodak || format == Format::Mef || format
            == Format::Erf ==> verdict(scan) == Some(format),
        format == Format::Arw ==> (verdict(scan) == Some(format) <==> scan.sensor || scan.private),
        !scan.sensor && (format == Format::Nef || format == Format::Cr2 || format == Format::Pef
            || format == Format::Srw || format == Format::Hasselblad || format == Format::Iiq
            || format == Format::Orf || format == Format::Rw2 || format == Format::Mrw)
            ==> verdict(scan) is None,
{
}

/// The format of a TIFF-shaped file.
pub open spec fn tiff_format(bytes: Seq<u8>) -> Option<Format> {
    let little = tagged(bytes, 0, "II*\0"@);
    if !little && !tagged(bytes, 0, "MM\0*"@) {
        None
    } else {
        match word32_in(bytes, 4, little) {
            None => None,
            Some(ifd) => verdict(scanned(bytes, little, unseen(ifd), 0)),
        }
    }
}

/// The format of a file.
pub open spec fn format_of(bytes: Seq<u8>) -> Option<Format> {
    if tagged(bytes, 0, "FUJIFILMCCD-RAW"@) {
        Some(Format::Raf)
    } else if tagged(bytes, 0, "IIRO"@) || tagged(bytes, 0, "IIRS"@) || tagged(bytes, 0, "MMOR"@) {
        Some(Format::Orf)
    } else if tagged(bytes, 0, "IIU\0"@) {
        Some(Format::Rw2)
    } else if tagged(bytes, 6, "HEAPCCDR"@) {
        Some(Format::Crw)
    } else if tagged(bytes, 0, "FOVb"@) {
        Some(Format::X3f)
    } else if tagged(bytes, 0, "\0MRM"@) {
        Some(Format::Mrw)
    } else if tagged(bytes, 4, "ftyp"@) && tagged(bytes, 8, "crx "@) {
        Some(Format::Cr3)
    } else if tagged(bytes, 0, "II*\0"@) && tagged(bytes, 8, "CR"@) {
        Some(Format::Cr2)
    } else if tagged(bytes, 0, "II*\0"@) && tagged(bytes, 8, "IIIICwaR"@) {
        Some(Format::Iiq)
    } else {
        tiff_format(bytes)
    }
}

/// The maker's name out of the text stored for it.
pub fn make_name(text: &str) -> (make: Vec<char>)
    ensures
        make@ == make_in(text@),
{
    let all = characters(text);
    let bare = strip_nuls(all.as_slice());
    trim(bare.as_slice())
}

/// The format whose maker goes by this name.
pub fn by_make(make: &[char]) -> (r: Option<Format>)
    ensures
        r == format_by_make(make@),
{
    if has_upper_prefix(make, "NIKON") {
        Some(Format::Nef)
    } else if has_upper_prefix(make, "SONY") {
        Some(Format::Arw)
    } else if has_upper_prefix(make, "CANON") {
        Some(Format::Cr2)
    } else if has_upper_prefix(make, "PENTAX") || has_upper_prefix(make, "RICOH")
        || has_upper_prefix(make, "ASAHI") {
        Some(Format::Pef)
    } else if has_upper_prefix(make, "SAMSUNG") {
        Some(Format::Srw)
    } else if has_upper_prefix(make, "KODAK") || has_upper_prefix(make, "EASTMAN") {
        Some(Format::Kodak)
    } else if has_upper_prefix(make, "SEIKO EPSON") || has_upper_prefix(make, "EPSON") {
        Some(Format::Erf)
    } else if has_upper_prefix(make, "MAMIYA") {
        Some(Format::Mef)
    } else if has_upper_prefix(make, "HASSELBLAD") {
        Some(Format::Hasselblad)
    } else if has_upper_prefix(make, "LEAF") {
        Some(Format::Mos)
    } else if has_upper_prefix(make, "PHASE ONE") {
        Some(Format::Iiq)
    } else if has_upper_prefix(make, "OLYMPUS") || has_upper_prefix(make, "OM DIGITAL") {
        Some(Format::Orf)
    } else if has_upper_prefix(make, "PANASONIC") || has_upper_prefix(make, "LEICA") {
        Some(Format::Rw2)
    } else if has_upper_prefix(make, "MINOLTA") || has_upper_prefix(make, "KONICA") {
        Some(Format::Mrw)
    } else {
        None
    }
}

/// The state of a walk over a file's directories.
struct Walk {
    make: Vec<char>,
    sensor: bool,
    dng: bool,
    leaf: bool,
    private: bool,
    queue: Vec<u64>,
    deep: bool,
    strips: bool,
    reading: bool,
}

impl Walk {
    spec fn scan(&self) -> Scan {
        Scan {
            make: self.make@,
            sensor: self.sensor,
            dng: self.dng,
            leaf: self.leaf,
            private: self.private,
            queue: self.queue@.map_values(|offset: u64| offset as int),
            deep: self.deep,
            strips: self.strips,
            reading: self.reading,
        }
    }

    /// Every directory to visit is at a 32-bit offset.
    spec fn bounded(&self) -> bool {
        forall|i: int| 0 <= i < self.queue@.len() ==> #[trigger] self.queue@[i] <= u32::MAX
    }

    fn take_entry(
        &mut self,
        bytes: &[u8],
        little: bool,
        entry: u64,
        tag: u16,
        kind: u16,
        n: u32,
    )
        requires
            entry <= 0x2_0000_0000,
            old(self).bounded(),
        ensures
            final(self).bounded(),
            final(self).scan() == with_entry(
                bytes@,
                little,
                old(self).scan(),
                entry as int,
                tag as int,
                kind as int,
                n as int,
            ),
    {
        if tag == BITS_PER_SAMPLE && kind == 3 {
            // One value sits in the entry; three live where it points,
            // and reading the pointer as the value would call every
            // colour thumbnail deep.
            match place_of(bytes, little, entry, n <= 2) {
                Some(at) => {
                    self.deep = match find_word16(bytes, at, little) {
                        Some(bits) => bits > 8,
                        None => false,
                    };
                },
                None => {
                    self.reading = false;
                },
            }
        } else if tag == STRIP_OFFSETS || tag == STRIP_BYTE_COUNTS {
            self.strips = true;
        } else if tag == LEAF_DATA {
            self.leaf = true;
        } else if tag == DNG_PRIVATE_DATA {
            self.private = true;
        } else if tag == MAKE && kind == 2 && self.make.len() == 0 {
            match place_of(bytes, little, entry, n <= 4) {
                Some(at) => {
                    let end: u64 = at + n as u64;
                    if end <= bytes.len() as u64 {
                        let stored = slice_subrange(bytes, at as usize, end as usize);
                        let text = text_of(stored);
                        self.make = make_name(text.as_str());
                    }
                },
                None => {
                    self.reading = false;
                },
            }
        } else if tag == PHOTOMETRIC && kind == 3 {
            match find_word16(bytes, entry + 8, little) {
                Some(photometric) => {
                    if photometric == 32803 || photometric == 34892 {
                        self.sensor = true;
                    }
                },
                None => {},
            }
        } else if tag == DNG_VERSION {
            self.dng = true;
        } else if tag == SUB_IFDS && (kind == 4 || kind == 13) {
            let count: u32 = if n < 8 {
                n
            } else {
                8
            };
            match place_of(bytes, little, entry, count == 1) {
                Some(at) => {
                    self.take_offsets(bytes, little, at, count);
                },
                None => {
                    self.reading = false;
                },
            }
        }
        assert(self.scan() =~= with_entry(
            bytes@,
            little,
            old(self).scan(),
            entry as int,
            tag as int,
            kind as int,
            n as int,
        ));
    }

    fn take_offsets(&mut self, bytes: &[u8], little: bool, at: u64, count: u32)
        requires
            at <= 0x4_0000_0000,
            count <= 8,
            old(self).bounded(),
        ensures
            final(self).bounded(),
            final(self).scan() == (Scan {
                queue: old(self).scan().queue + offsets_at(
                    bytes@,
                    little,
                    at as int,
                    count as nat,
                ),
                ..old(self).scan()
            }),
    {
        let mut j: u32 = 0;
        assert(self.scan().queue =~= old(self).scan().queue + offsets_at(
            bytes@,
            little,
            at as int,
            0,
        ));
        while j < count
            invariant
                j <= count <= 8,
                at <= 0x4_0000_0000,
                self.bounded(),
                self.scan() == (Scan {
                    queue: old(self).scan().queue + offsets_at(
                        bytes@,
                        little,
                        at as int,
                        j as nat,
                    ),
                    ..old(self).scan()
                }),
            decreases count - j,
        {
            let ghost before = self.scan();
            match find_word32(bytes, at + (j as u64) * 4, little) {
                Some(offset) => {
                    self.queue.push(offset as u64);
                    assert(self.scan().queue =~= before.queue.push(offset as int));
                },
                None => {},
            }
            j = j + 1;
            assert(self.scan().queue =~= old(self).scan().queue + offsets_at(
                bytes@,
                little,
                at as int,
                j as nat,
            ));
        }
    }

    fn take_directory(&mut self, bytes: &[u8], little: bool, ifd: u64)
        requires
            ifd <= u32::MAX,
            old(self).bounded(),
        ensures
            final(self).bounded(),
            final(self).scan() == with_directory(bytes@, little, old(self).scan(), ifd as int),
    {
        let stored: u16 = match find_word16(bytes, ifd, little) {
            Some(stored) => stored,
            None => return,
        };
        let count: u64 = if stored < 512 {
            stored as u64
        } else {
            512
        };
        self.deep = false;
        self.strips = false;
        self.reading = true;
        let ghost start = old(self).scan();
        assert(self.scan() =~= with_entries(bytes@, little, start, ifd as int, 0));
        let mut i: u64 = 0;
        while i < count
            invariant
                ifd <= u32::MAX,
                i <= count <= 512,
                self.bounded(),
                self.scan() == with_entries(bytes@, little, start, ifd as int, i as nat),
            decreases count - i,
        {
            let entry: u64 = ifd + 2 + i * 12;
            if self.reading {
                match (
                    find_word16(bytes, entry, little),
                    find_word16(bytes, entry + 2, little),
                    find_word32(bytes, entry + 4, little),
                ) {
                    (Some(tag), Some(kind), Some(n)) => {
                        self.take_entry(bytes, little, entry, tag, kind, n);
                    },
                    _ => {
                        self.reading = false;
                    },
                }
            }
            i = i + 1;
        }
        if self.deep && self.strips {
            self.sensor = true;
        }
        let ghost marked = self.scan();
        match find_word32(bytes, ifd + 2 + count * 12, little) {
            Some(next) => {
                if next != 0 {
                    self.queue.push(next as u64);
                    assert(self.scan().queue =~= marked.queue.push(next as int));
                }
            },
            None => {},
        }
    }
}

fn place_of(bytes: &[u8], little: bool, entry: u64, inside: bool) -> (r: Option<u64>)
    requires
        entry <= 0x2_0000_0000,
    ensures
        match r {
            Some(at) => value_place(bytes@, little, entry as int, inside) == Some(at as int) && at
                <= 0x3_0000_0000,
            None => value_place(bytes@, little, entry as int, inside) is None,
        },
{
    if inside {
        Some(entry + 8)
    } else {
        match find_word32(bytes, entry + 8, little) {
            Some(offset) => Some(offset as u64),
            None => None,
        }
    }
}

/// The TIFF-shaped formats, told apart by the maker and by whether any
/// directory holds sensor data. This is a minimal walk, so a truncated or
/// odd file cannot make probing fail loudly.
pub fn probe_tiff(bytes: &[u8]) -> (r: Option<Format>)
    ensures
        r == tiff_format(bytes@),
{
    let little: bool = has_tag(bytes, 0, "II*\0");
    if !little && !has_tag(bytes, 0, "MM\0*") {
        return None;
    }
    let first: u64 = match find_word32(bytes, 4, little) {
        Some(offset) => offset as u64,
        None => return None,
    };
    let mut walk = Walk {
        make: Vec::new(),
        sensor: false,
        dng: false,
        leaf: false,
        private: false,
        queue: vec![first],
        deep: false,
        strips: false,
        reading: false,
    };
    assert(walk.scan() =~= unseen(first as int));
    let ghost done = scanned(bytes@, little, unseen(first as int), 0);
    let mut visited: u32 = 0;
    while visited < 12 && walk.queue.len() > 0
        invariant
            visited <= 12,
            walk.bounded(),
            scanned(bytes@, little, walk.scan(), visited as nat) == done,
        decreases 12 - visited,
    {
        let ghost before = walk.scan();
        let ifd: u64 = match walk.queue.pop() {
            Some(ifd) => ifd,
            None => 0,
        };
        assert(walk.scan() =~= (Scan { queue: before.queue.drop_last(), ..before }));
        walk.take_directory(bytes, little, ifd);
        visited = visited + 1;
    }
    assert(walk.scan() == done);
    if walk.dng {
        return Some(Format::Dng);
    }
    if walk.leaf && walk.make.len() == 0 {
        return Some(Format::Mos);
    }
    let format: Format = match by_make(walk.make.as_slice()) {
        Some(format) => format,
        None => return None,
    };
    let trusted: bool = format == Format::Mos || format == Format::Kodak || format == Format::Mef
        || format == Format::Erf || (format == Format::Arw && walk.private);
    if walk.sensor || trusted {
        Some(format)
    } else {
        None
    }
}

/// Which format a file is, from its bytes, without decoding it. `None`
/// for anything that is not a camera raw, a converter's plain TIFF among
/// them: it has no sensor data.
pub fn probe(bytes: &[u8]) -> (r: Option<Format>)
    ensures
        r == format_of(bytes@),
{
    if has_tag(bytes, 0, "FUJIFILMCCD-RAW") {
        Some(Format::Raf)
    } else if has_tag(bytes, 0, "IIRO") || has_tag(bytes, 0, "IIRS") || has_tag(bytes, 0, "MMOR") {
        Some(Format::Orf)
    } else if has_tag(bytes, 0, "IIU\0") {
        Some(Format::Rw2)
    } else if has_tag(bytes, 6, "HEAPCCDR") {
        Some(Format::Crw)
    } else if has_tag(bytes, 0, "FOVb") {
        Some(Format::X3f)
    } else if has_tag(bytes, 0, "\0MRM") {
        Some(Format::Mrw)
    } else if has_tag(bytes, 4, "ftyp") && has_tag(bytes, 8, "crx ") {
        Some(Format::Cr3)
    } else if has_tag(bytes, 0, "II*\0") && has_tag(bytes, 8, "CR") {
        Some(Format::Cr2)
    } else if has_tag(bytes, 0, "II*\0") && has_tag(bytes, 8, "IIIICwaR") {
        Some(Format::Iiq)
    } else {
        probe_tiff(bytes)
    }
}

} // verus!
