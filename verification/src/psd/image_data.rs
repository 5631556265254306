//! Merged (flattened) image data, the last section of a file.
//!
//! A compression method, then planar channel data for the whole canvas,
//! all channels back to back. For the run-length code the table of byte
//! counts covers all channels' rows up front, followed by the rows.

use crate::bytes::{holds_number, law_numbers_are_read_from_their_bytes, owned};
use crate::color::ColorMode;
use crate::psd::cursor::{Cursor, Reader};
use crate::psd::header::Header;
use crate::psd::rle::{
    back_to_back, count_table, countable, counts_at, held, lemma_back_to_back_splits,
    lemma_held_parts, lemma_rows_length, lemma_rows_read, lemma_rows_shrink, lemma_table_read,
    lengths, numbers, packed_rows, padded_rows, read_counts, rows_at, unpack_rows,
};
use crate::psd::{corrupt, PsdError, PsdFault, PsdOutcome, PsdResult};
use crate::text::{decimal, push_decimal};
use vstd::prelude::*;

verus! {

/// Decompressed, still big-endian planes, one per header channel.
#[derive(Debug)]
pub struct CompositePlanes {
    pub planes: Vec<Vec<u8>>,
}

impl View for CompositePlanes {
    type V = Seq<Seq<u8>>;

    open spec fn view(&self) -> Seq<Seq<u8>> {
        Seq::new(self.planes@.len(), |i: int| self.planes@[i]@)
    }
}

/// The first `k` planes of uncompressed data, and where reading them
/// leaves the cursor.
pub open spec fn raw_planes(r: Reader, plane_bytes: int, k: int) -> (
    PsdOutcome<Seq<Seq<u8>>>,
    Reader,
)
    decreases k,
{
    if k <= 0 {
        (Ok(Seq::empty()), r)
    } else {
        let (before, at) = raw_planes(r, plane_bytes, k - 1);
        match before {
            Err(fault) => (Err(fault), at),
            Ok(planes) => match at.next(plane_bytes) {
                Err(fault) => (Err(fault), at),
                Ok(plane) => (Ok(planes.push(plane)), at.past(plane_bytes)),
            },
        }
    }
}

/// The first `k` planes of run-length data, and where decoding them leaves
/// the cursor.
pub open spec fn rle_planes(r: Reader, counts: Seq<int>, rows: int, row_bytes: int, k: int) -> (
    PsdOutcome<Seq<Seq<u8>>>,
    Reader,
)
    decreases k,
{
    if k <= 0 {
        (Ok(Seq::empty()), r)
    } else {
        let (before, at) = rle_planes(r, counts, rows, row_bytes, k - 1);
        match before {
            Err(fault) => (Err(fault), at),
            Ok(planes) => {
                let (plane, next) = rows_at(at, counts, (k - 1) * rows, rows, row_bytes);
                match plane {
                    Err(fault) => (Err(fault), next),
                    Ok(plane) => (Ok(planes.push(plane)), next),
                }
            },
        }
    }
}

proof fn lemma_raw_fault(r: Reader, plane_bytes: int, some: int, k: int)
    requires
        some <= k,
        raw_planes(r, plane_bytes, some).0 is Err,
    ensures
        raw_planes(r, plane_bytes, k) == raw_planes(r, plane_bytes, some),
    decreases k - some,
{
    if some < k {
        lemma_raw_fault(r, plane_bytes, some, k - 1);
    }
}

proof fn lemma_rle_fault(
    r: Reader,
    counts: Seq<int>,
    rows: int,
    row_bytes: int,
    some: int,
    k: int,
)
    requires
        some <= k,
        rle_planes(r, counts, rows, row_bytes, some).0 is Err,
    ensures
        rle_planes(r, counts, rows, row_bytes, k) == rle_planes(r, counts, rows, row_bytes, some),
    decreases k - some,
{
    if some < k {
        lemma_rle_fault(r, counts, rows, row_bytes, some, k - 1);
    }
}

/// A set of planes, if there is one.
pub open spec fn found<T>(r: (PsdOutcome<T>, Reader)) -> (PsdOutcome<Option<T>>, Reader) {
    match r.0 {
        Ok(value) => (Ok(Some(value)), r.1),
        Err(fault) => (Err(fault), r.1),
    }
}

/// The merged image data at a cursor, and where reading it leaves the
/// cursor. A section of fewer than two bytes is absent.
pub open spec fn image_data_at(r: Reader, header: Header) -> (
    PsdOutcome<Option<Seq<Seq<u8>>>>,
    Reader,
) {
    let (channels, rows) = (header.channels as int, header.height as int);
    let row_bytes = header.width * header.depth.bytes();
    let plane_bytes = rows * row_bytes;
    if r.left() < 2 {
        (Ok(None), r)
    } else {
        let method = r.number(2)->Ok_0;
        let a = r.past(2);
        if plane_bytes > usize::MAX {
            (Err(PsdFault::Corrupt("composite size overflows"@)), a)
        } else if method == 0 {
            found(raw_planes(a, plane_bytes, channels))
        } else if method == 1 {
            let (counts, b) = counts_at(a, channels * rows, header.psb);
            match counts {
                Err(fault) => (Err(fault), b),
                Ok(counts) => if plane_bytes * channels > usize::MAX || plane_bytes * channels
                    > b.left() * 64 {
                    (Err(PsdFault::Corrupt("composite RLE data too short for canvas size"@)), b)
                } else {
                    found(rle_planes(b, counts, rows, row_bytes, channels))
                },
            }
        } else if method == 2 || method == 3 {
            (
                Err(
                    PsdFault::Unsupported(
                        "zip-compressed merged image data (method "@ + decimal(method) + ")"@,
                    ),
                ),
                a,
            )
        } else {
            (
                Err(PsdFault::Corrupt("unknown image data compression "@ + decimal(method))),
                a,
            )
        }
    }
}

/// What reading the merged image returned, as a mathematical value.
pub open spec fn composite_outcome(r: PsdResult<Option<CompositePlanes>>) -> PsdOutcome<
    Option<Seq<Seq<u8>>>,
> {
    match r {
        Ok(Some(planes)) => Ok(Some(planes@)),
        Ok(None) => Ok(None),
        Err(e) => Err(e@),
    }
}

fn read_raw(cur: &mut Cursor, channels: usize, plane_bytes: usize) -> (r: PsdResult<
    CompositePlanes,
>)
    ensures
        final(cur)@ == raw_planes(old(cur)@, plane_bytes as int, channels as int).1,
        match r {
            Ok(planes) => raw_planes(old(cur)@, plane_bytes as int, channels as int).0
                == PsdOutcome::<Seq<Seq<u8>>>::Ok(planes@),
            Err(e) => raw_planes(old(cur)@, plane_bytes as int, channels as int).0 == PsdOutcome::<
                Seq<Seq<u8>>,
            >::Err(e@),
        },
{
    let ghost start = cur@;
    let mut out = CompositePlanes { planes: Vec::new() };
    let mut k: usize = 0;
    assert(out@ =~= Seq::<Seq<u8>>::empty());
    while k < channels
        invariant
            start == old(cur)@,
            k <= channels,
            raw_planes(start, plane_bytes as int, k as int) == (
                PsdOutcome::<Seq<Seq<u8>>>::Ok(out@),
                cur@,
            ),
        decreases channels - k,
    {
        match cur.take(plane_bytes) {
            Ok(bytes) => {
                let ghost before = out@;
                let plane = owned(bytes);
                out.planes.push(plane);
                assert(out@ =~= before.push(plane@));
            },
            Err(e) => {
                proof {
                    lemma_raw_fault(start, plane_bytes as int, k + 1, channels as int);
                }
                return Err(e);
            },
        }
        k = k + 1;
    }
    Ok(out)
}

fn read_rle(
    cur: &mut Cursor,
    counts: &[u32],
    channels: usize,
    rows: usize,
    row_bytes: usize,
) -> (r: PsdResult<CompositePlanes>)
    requires
        channels * rows <= counts@.len(),
        rows * row_bytes <= usize::MAX,
    ensures
        final(cur)@ == rle_planes(
            old(cur)@,
            numbers(counts@),
            rows as int,
            row_bytes as int,
            channels as int,
        ).1,
        match r {
            Ok(planes) => rle_planes(
                old(cur)@,
                numbers(counts@),
                rows as int,
                row_bytes as int,
                channels as int,
            ).0 == PsdOutcome::<Seq<Seq<u8>>>::Ok(planes@),
            Err(e) => rle_planes(
                old(cur)@,
                numbers(counts@),
                rows as int,
                row_bytes as int,
                channels as int,
            ).0 == PsdOutcome::<Seq<Seq<u8>>>::Err(e@),
        },
{
    assert(counts@.len() == counts.len());
    let ghost start = cur@;
    let ghost table = numbers(counts@);
    let mut out = CompositePlanes { planes: Vec::new() };
    let mut k: usize = 0;
    assert(out@ =~= Seq::<Seq<u8>>::empty());
    while k < channels
        invariant
            start == old(cur)@,
            counts@.len() == counts.len(),
            k <= channels,
            table == numbers(counts@),
            channels * rows <= counts@.len(),
            rows * row_bytes <= usize::MAX,
            rle_planes(start, table, rows as int, row_bytes as int, k as int) == (
                PsdOutcome::<Seq<Seq<u8>>>::Ok(out@),
                cur@,
            ),
        decreases channels - k,
    {
        proof {
            assert(k * rows + rows <= channels * rows) by (nonlinear_arith)
                requires
                    k + 1 <= channels,
            ;
            assert(0 <= k * rows) by (nonlinear_arith);
        }
        match unpack_rows(cur, counts, k * rows, rows, row_bytes) {
            Ok(plane) => {
                let ghost before = out@;
                out.planes.push(plane);
                assert(out@ =~= before.push(plane@));
            },
            Err(e) => {
                proof {
                    lemma_rle_fault(
                        start,
                        table,
                        rows as int,
                        row_bytes as int,
                        k + 1,
                        channels as int,
                    );
                }
                return Err(e);
            },
        }
        k = k + 1;
    }
    Ok(out)
}

/// Reads the merged image data; `None` if the section is absent, which
/// layered files may leave it.
pub fn parse_image_data(cur: &mut Cursor, header: &Header) -> (r: PsdResult<
    Option<CompositePlanes>,
>)
    requires
        header.width * header.depth.bytes() <= usize::MAX,
        header.channels * header.height <= usize::MAX,
    ensures
        composite_outcome(r) == image_data_at(old(cur)@, *header).0,
        final(cur)@ == image_data_at(old(cur)@, *header).1,
{
    if cur.remaining() < 2 {
        return Ok(None);
    }
    let method: u16 = match cur.u16() {
        Ok(method) => method,
        Err(e) => return Err(e),
    };
    let channels: usize = header.channels as usize;
    let rows: usize = header.height as usize;
    let row_bytes: usize = header.width as usize * header.depth.bytes_per_channel();
    let plane_bytes: usize = match rows.checked_mul(row_bytes) {
        Some(plane_bytes) => plane_bytes,
        None => return Err(corrupt("composite size overflows")),
    };
    match method {
        0 => match read_raw(cur, channels, plane_bytes) {
            Ok(planes) => Ok(Some(planes)),
            Err(e) => Err(e),
        },
        1 => {
            let counts = match read_counts(cur, channels * rows, header.psb) {
                Ok(counts) => counts,
                Err(e) => return Err(e),
            };
            // A packet expands at most sixty-four times.
            let left: usize = cur.remaining();
            let enough: bool = match plane_bytes.checked_mul(channels) {
                Some(total) => total as u128 <= left as u128 * 64,
                None => false,
            };
            if !enough {
                return Err(corrupt("composite RLE data too short for canvas size"));
            }
            match read_rle(cur, counts.as_slice(), channels, rows, row_bytes) {
                Ok(planes) => Ok(Some(planes)),
                Err(e) => Err(e),
            }
        },
        2 | 3 => {
            let mut text = "zip-compressed merged image data (method ".to_string();
            push_decimal(&mut text, method as u64);
            text.append(")");
            Err(PsdError::Unsupported(text))
        },
        _ => {
            let mut text = "unknown image data compression ".to_string();
            push_decimal(&mut text, method as u64);
            Err(PsdError::Corrupt(text))
        },
    }
}

/// All rows of some planes, plane by plane.
pub open spec fn all_rows(planes: Seq<Seq<Seq<u8>>>) -> Seq<Seq<u8>>
    decreases planes.len(),
{
    if planes.len() == 0 {
        Seq::empty()
    } else {
        all_rows(planes.drop_last()) + planes.last()
    }
}

/// Planes whose rows are put one behind the other.
pub open spec fn whole_planes(planes: Seq<Seq<Seq<u8>>>) -> Seq<Seq<u8>> {
    Seq::new(planes.len(), |i: int| back_to_back(planes[i]))
}

/// Whether planes are of one size: `rows` rows of `row_bytes` bytes.
pub open spec fn planes_of(planes: Seq<Seq<Seq<u8>>>, rows: int, row_bytes: int) -> bool {
    &&& forall|i: int| 0 <= i < planes.len() ==> (#[trigger] planes[i]).len() == rows
    &&& forall|i: int, j: int|
        0 <= i < planes.len() && 0 <= j < rows ==> (#[trigger] planes[i][j]).len() == row_bytes
}

proof fn lemma_fewer_planes(planes: Seq<Seq<Seq<u8>>>, rows: int, row_bytes: int)
    requires
        planes_of(planes, rows, row_bytes),
        planes.len() > 0,
    ensures
        planes_of(planes.drop_last(), rows, row_bytes),
        planes.last().len() == rows,
{
    let most = planes.drop_last();
    assert(planes.last() == planes[planes.len() - 1]);
    assert forall|i: int| 0 <= i < most.len() implies (#[trigger] most[i]).len() == rows by {
        assert(most[i] == planes[i]);
    }
    assert forall|i: int, j: int| 0 <= i < most.len() && 0 <= j < rows implies (
    #[trigger] most[i][j]).len() == row_bytes by {
        assert(most[i][j] == planes[i][j]);
    }
}

/// The merged image data of a file whose planes are run-length encoded:
/// the method, the byte counts of all rows, and the rows.
pub open spec fn packed_image(planes: Seq<Seq<Seq<u8>>>, psb: bool) -> Seq<u8> {
    let packed = packed_rows(all_rows(planes));
    seq![0u8, 1u8] + (count_table(lengths(packed), psb) + back_to_back(packed))
}

proof fn lemma_rows_of_planes(planes: Seq<Seq<Seq<u8>>>, rows: int, row_bytes: int)
    requires
        planes_of(planes, rows, row_bytes),
        rows >= 0,
    ensures
        all_rows(planes).len() == planes.len() * rows,
        forall|k: int|
            0 <= k < all_rows(planes).len() ==> (#[trigger] all_rows(planes)[k]).len()
                == row_bytes,
    decreases planes.len(),
{
    if planes.len() > 0 {
        let most = planes.drop_last();
        lemma_fewer_planes(planes, rows, row_bytes);
        lemma_rows_of_planes(most, rows, row_bytes);
        assert((planes.len() - 1) * rows + rows == planes.len() * rows) by (nonlinear_arith);
        let all = all_rows(planes);
        assert forall|k: int| 0 <= k < all.len() implies (#[trigger] all[k]).len()
            == row_bytes by {
            if k < all_rows(most).len() {
                assert(all[k] == all_rows(most)[k]);
            } else {
                let j = k - all_rows(most).len();
                assert(all[k] == planes[planes.len() - 1][j]);
            }
        }
    } else {
        assert(planes.len() * rows == 0) by (nonlinear_arith)
            requires
                planes.len() == 0,
        ;
    }
}

proof fn lemma_planes_read(
    data: Seq<u8>,
    pos: int,
    counts: Seq<int>,
    planes: Seq<Seq<Seq<u8>>>,
    rows: int,
    row_bytes: int,
)
    requires
        planes_of(planes, rows, row_bytes),
        rows >= 0,
        counts.len() >= planes.len() * rows,
        forall|k: int|
            0 <= k < planes.len() * rows ==> counts[k] == (#[trigger] packed_rows(
                all_rows(planes),
            )[k]).len(),
        held(data, pos, back_to_back(packed_rows(all_rows(planes)))),
    ensures
        rle_planes(Reader::at(data, pos), counts, rows, row_bytes, planes.len() as int) == (
            PsdOutcome::<Seq<Seq<u8>>>::Ok(whole_planes(planes)),
            Reader::at(data, pos + back_to_back(packed_rows(all_rows(planes))).len()),
        ),
    decreases planes.len(),
{
    if planes.len() == 0 {
        assert(whole_planes(planes) =~= Seq::empty());
    } else {
        let (most, last) = (planes.drop_last(), planes.last());
        let from = (planes.len() - 1) * rows;
        lemma_fewer_planes(planes, rows, row_bytes);
        lemma_rows_of_planes(planes, rows, row_bytes);
        lemma_rows_of_planes(most, rows, row_bytes);
        assert(from + rows == planes.len() * rows) by (nonlinear_arith)
            requires
                from == (planes.len() - 1) * rows,
        ;
        let (packed, first, rest) = (
            packed_rows(all_rows(planes)),
            packed_rows(all_rows(most)),
            packed_rows(last),
        );
        assert(packed =~= first + rest);
        lemma_back_to_back_splits(first, rest);
        lemma_held_parts(data, pos, back_to_back(first), back_to_back(rest));
        assert forall|k: int| 0 <= k < most.len() * rows implies counts[k] == (
        #[trigger] first[k]).len() by {
            assert(packed[k] == first[k]);
        }
        lemma_planes_read(data, pos, counts, most, rows, row_bytes);
        let pads = Seq::new(last.len(), |i: int| Seq::<u8>::empty());
        assert forall|i: int| 0 <= i < rest.len() implies #[trigger] padded_rows(last, pads)[i]
            == rest[i] by {
            assert(rest[i] + Seq::<u8>::empty() =~= rest[i]);
        }
        assert(padded_rows(last, pads) =~= rest);
        assert forall|i: int| 0 <= i < last.len() implies counts[from + i] == (
        #[trigger] padded_rows(last, pads)[i]).len() by {
            assert(packed[from + i] == rest[i]);
        }
        assert forall|i: int| 0 <= i < last.len() implies (#[trigger] last[i]).len()
            == row_bytes by {
            assert(planes[planes.len() - 1][i] == last[i]);
        }
        lemma_rows_read(
            data,
            pos + back_to_back(first).len(),
            counts,
            from,
            last,
            pads,
            row_bytes,
        );
        assert(whole_planes(most).push(back_to_back(last)) =~= whole_planes(planes));
    }
}

/// A merged image that is written run-length encoded, one plane for every
/// channel of the header, is read back as its planes, and the cursor is
/// then at the end.
pub proof fn law_a_packed_image_is_read_back(
    front: Seq<u8>,
    planes: Seq<Seq<Seq<u8>>>,
    header: Header,
)
    requires
        header.well_formed(),
        planes.len() == header.channels,
        planes_of(planes, header.height as int, header.width * header.depth.bytes()),
        header.height * (header.width * header.depth.bytes()) * header.channels <= usize::MAX,
        forall|k: int|
            0 <= k < all_rows(planes).len() ==> countable(
                (#[trigger] packed_rows(all_rows(planes))[k]).len() as int,
                header.psb,
            ),
    ensures
        ({
            let data = front + packed_image(planes, header.psb);
            image_data_at(Reader::at(data, front.len() as int), header) == (
                PsdOutcome::<Option<Seq<Seq<u8>>>>::Ok(Some(whole_planes(planes))),
                Reader::at(data, data.len() as int),
            )
        }),
{
    let data = front + packed_image(planes, header.psb);
    let rows = header.height as int;
    let row_bytes = header.width * header.depth.bytes();
    let all = all_rows(planes);
    let packed = packed_rows(all);
    let counts = lengths(packed);
    let table = count_table(counts, header.psb);
    let pos = front.len() as int;
    lemma_rows_of_planes(planes, rows, row_bytes);
    assert(held(data, pos, packed_image(planes, header.psb)));
    lemma_held_parts(data, pos, seq![0u8, 1u8], table + back_to_back(packed));
    lemma_held_parts(data, pos + 2, table, back_to_back(packed));
    assert(data[pos] == 0 && data[pos + 1] == 1) by {
        let code = seq![0u8, 1u8];
        assert(data[pos] == code[0] && data[pos + 1] == code[1]);
    }
    assert forall|k: int| 0 <= k < counts.len() implies countable(
        #[trigger] counts[k],
        header.psb,
    ) by {
        assert(counts[k] == packed[k].len());
    }
    lemma_table_read(data, pos + 2, counts, header.psb);
    lemma_planes_read(data, pos + 2 + table.len(), counts, planes, rows, row_bytes);
    // The rows are long enough for what they claim to decode to.
    lemma_rows_length(all, row_bytes);
    lemma_rows_shrink(all);
    let plane_bytes = rows * row_bytes;
    let channels = header.channels as int;
    assert(plane_bytes * channels == (channels * rows) * row_bytes) by (nonlinear_arith)
        requires
            plane_bytes == rows * row_bytes,
    ;
    assert(plane_bytes <= plane_bytes * channels) by (nonlinear_arith)
        requires
            1 <= channels,
            0 <= plane_bytes,
    ;
}

proof fn lemma_raw_read(r: Reader, planes: Seq<Seq<u8>>, plane_bytes: int, k: int)
    requires
        0 <= r.pos,
        0 <= plane_bytes,
        0 <= k <= planes.len(),
        r.pos + planes.len() * plane_bytes <= r.data.len(),
        forall|i: int|
            0 <= i < planes.len() ==> #[trigger] planes[i] == r.data.subrange(
                r.pos + i * plane_bytes,
                r.pos + i * plane_bytes + plane_bytes,
            ),
    ensures
        raw_planes(r, plane_bytes, k) == (
            PsdOutcome::<Seq<Seq<u8>>>::Ok(planes.take(k)),
            r.past(k * plane_bytes),
        ),
    decreases k,
{
    if k == 0 {
        assert(planes.take(0) =~= Seq::<Seq<u8>>::empty());
        assert(0 * plane_bytes == 0);
    } else {
        lemma_raw_read(r, planes, plane_bytes, k - 1);
        assert((k - 1) * plane_bytes + plane_bytes == k * plane_bytes) by (nonlinear_arith);
        assert(k * plane_bytes <= planes.len() * plane_bytes) by (nonlinear_arith)
            requires
                k <= planes.len(),
                0 <= plane_bytes,
        ;
        assert(planes.take(k - 1).push(planes[k - 1]) =~= planes.take(k));
    }
}

/// A merged image that is written uncompressed, the planes of the header's
/// channels one after the other, is read back as its planes, and the cursor
/// is then past them.
pub proof fn law_a_plain_image_is_read_back(r: Reader, planes: Seq<Seq<u8>>, header: Header)
    requires
        0 <= r.pos,
        planes.len() == header.channels,
        holds_number(r.data, r.pos, 0, 2, false),
        ({
            let plane_bytes = header.height * (header.width * header.depth.bytes());
            &&& plane_bytes <= usize::MAX
            &&& r.pos + 2 + planes.len() * plane_bytes <= r.data.len()
            &&& forall|i: int|
                0 <= i < planes.len() ==> #[trigger] planes[i] == r.data.subrange(
                    r.pos + 2 + i * plane_bytes,
                    r.pos + 2 + i * plane_bytes + plane_bytes,
                )
        }),
    ensures
        ({
            let plane_bytes = header.height * (header.width * header.depth.bytes());
            image_data_at(r, header) == (
                PsdOutcome::<Option<Seq<Seq<u8>>>>::Ok(Some(planes)),
                r.past(2 + planes.len() * plane_bytes),
            )
        }),
{
    let row_bytes = header.width * header.depth.bytes();
    let plane_bytes = header.height * row_bytes;
    assert(0 <= plane_bytes) by (nonlinear_arith)
        requires
            plane_bytes == header.height * row_bytes,
            row_bytes == header.width * header.depth.bytes(),
            0 <= header.height,
            0 <= header.width,
            0 <= header.depth.bytes(),
    ;
    assert(0 <= planes.len() * plane_bytes) by (nonlinear_arith)
        requires
            0 <= plane_bytes,
    ;
    law_numbers_are_read_from_their_bytes(r.data, r.pos, 0, false);
    lemma_raw_read(r.past(2), planes, plane_bytes, planes.len() as int);
    assert(planes.take(planes.len() as int) =~= planes);
}

/// Which planes of a merged image are the red, green, blue and alpha of
/// the one layer of a flattened file.
#[derive(Debug, Clone, Copy, PartialEq, Eq, Structural)]
pub struct BackgroundPlanes {
    pub red: usize,
    pub green: usize,
    pub blue: usize,
    pub alpha: Option<usize>,
}

/// Which planes make the background of a flattened file. The plane past
/// the colours is transparency only when the layer count said so.
pub open spec fn background_of(header: Header, merged_alpha: bool) -> BackgroundPlanes {
    match header.mode {
        ColorMode::Rgb => BackgroundPlanes {
            red: 0,
            green: 1,
            blue: 2,
            alpha: if merged_alpha && header.channels > 3 {
                Some(3usize)
            } else {
                None
            },
        },
        ColorMode::Grayscale => BackgroundPlanes {
            red: 0,
            green: 0,
            blue: 0,
            alpha: if merged_alpha && header.channels > 1 {
                Some(1usize)
            } else {
                None
            },
        },
    }
}

/// Which planes make the background of a flattened file.
pub fn background_planes(header: &Header, merged_alpha: bool) -> (r: BackgroundPlanes)
    ensures
        r == background_of(*header, merged_alpha),
{
    let base: u16 = header.base_channels();
    let alpha: Option<usize> = if merged_alpha && header.channels > base {
        Some(base as usize)
    } else {
        None
    };
    match header.mode {
        ColorMode::Rgb => BackgroundPlanes { red: 0, green: 1, blue: 2, alpha },
        ColorMode::Grayscale => BackgroundPlanes { red: 0, green: 0, blue: 0, alpha },
    }
}

/// The background of a flattened file has the colours of its first planes,
/// three of them or the one grey for all three, and its transparency in the
/// next plane: where the file says that it has one and there is a plane.
pub proof fn law_backgrounds_take_the_first_planes(header: Header, merged_alpha: bool)
    ensures
        ({
            let b = background_of(header, merged_alpha);
            let colours: int = match header.mode {
                ColorMode::Rgb => 3,
                ColorMode::Grayscale => 1,
            };
            &&& header.mode is Rgb ==> (b.red, b.green, b.blue) == (0usize, 1usize, 2usize)
            &&& header.mode is Grayscale ==> (b.red, b.green, b.blue) == (0usize, 0usize, 0usize)
            &&& b.alpha is Some <==> merged_alpha && header.channels > colours
            &&& b.alpha is Some ==> b.alpha->0 == colours
        }),
{
}

} // verus!
