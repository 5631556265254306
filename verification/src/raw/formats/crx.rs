//! Canon's CRX codec: the shapes and sizes of the coded image inside a
//! CR3.
//!
//! A CRX image is a grid of *tiles*. Each tile holds one *plane* per
//! colour-filter position, and each plane holds one *subband* per wavelet
//! band. The shapes come from the `CMP1` box ([`ImageHeader`]) and from a
//! header of small tag/size records in front of the sample data
//! ([`parse_tiles`]).

use crate::bytes::{
    be16, be32, fits, holds_number, law_numbers_are_read_from_their_bytes, read_be16, read_be32,
};
use crate::raw::{corrupt, outcome, Error, Fault, Outcome, Result};
use crate::text::{decimal, push_decimal, push_wide};
use std::ops::Range;
use vstd::prelude::*;
use vstd::slice::slice_subrange;

verus! {

/// The `CMP1` box: what shape the coded image is.
#[derive(Debug, Clone, Copy, PartialEq, Eq)]
pub struct ImageHeader {
    /// The record dialect of the header in front of the sample.
    pub version: u8,
    /// The whole coded frame, which is also the raw sensor frame.
    pub width: usize,
    pub height: usize,
    /// One tile of it. Tiles divide the frame left to right, top to
    /// bottom; the last tile in a row or column is whatever is left.
    pub tile_width: usize,
    pub tile_height: usize,
    /// Bits per sensor sample.
    pub bits: u32,
    /// Planes per tile.
    pub planes: usize,
    /// Which 2x2 phase the frame starts on.
    pub cfa_layout: u8,
    /// Wavelet levels: 0 for lossless frames.
    pub levels: u32,
    /// Whether the wavelet runs across tile columns / rows.
    pub tile_cols_linked: bool,
    pub tile_rows_linked: bool,
    /// Bytes of tag/size records in front of the sample data.
    pub mdat_header_size: usize,
}

/// `a / b`, rounded up.
pub open spec fn ceil_div(a: int, b: int) -> int {
    if a % b == 0 {
        a / b
    } else {
        a / b + 1
    }
}

/// What a `CMP1` payload says.
pub open spec fn image_header(p: Seq<u8>) -> Outcome<ImageHeader> {
    if p.len() < 32 {
        Err(Fault::Corrupt("CMP1 is "@ + decimal(p.len() as int) + " bytes"@))
    } else {
        let width = be32(p, 8);
        let height = be32(p, 12);
        let tile_width = be32(p, 16);
        let tile_height = be32(p, 20);
        let bits = p[24];
        if width == 0 || height == 0 || tile_width == 0 || tile_height == 0 {
            Err(Fault::Corrupt("CMP1 with a zero dimension"@))
        } else if width > 0x2_0000 || height > 0x2_0000 {
            Err(Fault::Corrupt("CMP1 frame "@ + decimal(width) + "x"@ + decimal(height)))
        } else if !(1 <= bits <= 16) {
            Err(Fault::Corrupt("CMP1 says "@ + decimal(bits as int) + " bits a sample"@))
        } else {
            Ok(
                ImageHeader {
                    version: p[4],
                    width: width as usize,
                    height: height as usize,
                    tile_width: tile_width as usize,
                    tile_height: tile_height as usize,
                    bits: bits as u32,
                    planes: (p[25] >> 4) as usize,
                    cfa_layout: p[25] & 0xf,
                    levels: (p[26] & 0xf) as u32,
                    tile_cols_linked: p[27] & 0x80 != 0,
                    tile_rows_linked: p[27] & 0x40 != 0,
                    mdat_header_size: be32(p, 28) as usize,
                },
            )
        }
    }
}

/// What the bytes of a `CMP1` payload hold, and which of them are refused:
/// those without pixels or tiles, those over 131072 on a side, and those
/// whose samples have no bits or more than sixteen.
pub proof fn law_a_frame_header_is_read_from_its_bytes(p: Seq<u8>, width: int, height: int)
    requires
        p.len() >= 32,
        0 <= width < 0x1_0000_0000,
        0 <= height < 0x1_0000_0000,
        holds_number(p, 8, width, 4, false),
        holds_number(p, 12, height, 4, false),
    ensures
        image_header(p) is Ok <==> 1 <= width <= 131072 && 1 <= height <= 131072 && (exists|i: int|
            16 <= i < 20 && #[trigger] p[i] != 0) && (exists|i: int|
            20 <= i < 24 && #[trigger] p[i] != 0) && 1 <= p[24] <= 16,
        image_header(p) matches Ok(header) ==> {
            &&& header.version == p[4]
            &&& header.width == width
            &&& header.height == height
            &&& header.bits == p[24]
            &&& 16 * header.planes + header.cfa_layout == p[25]
            &&& header.cfa_layout < 16
            &&& header.levels == p[26] % 16
            &&& header.tile_cols_linked <==> p[27] >= 128
            &&& header.tile_rows_linked <==> p[27] % 128 >= 64
        },
        forall|n: int|
            image_header(p) is Ok && 0 <= n < 0x1_0000_0000 && #[trigger] holds_number(
                p,
                16,
                n,
                4,
                false,
            ) ==> image_header(p)->Ok_0.tile_width == n,
        forall|n: int|
            image_header(p) is Ok && 0 <= n < 0x1_0000_0000 && #[trigger] holds_number(
                p,
                20,
                n,
                4,
                false,
            ) ==> image_header(p)->Ok_0.tile_height == n,
        forall|n: int|
            image_header(p) is Ok && 0 <= n < 0x1_0000_0000 && #[trigger] holds_number(
                p,
                28,
                n,
                4,
                false,
            ) ==> image_header(p)->Ok_0.mdat_header_size == n,
{
    law_numbers_are_read_from_their_bytes(p, 8, width, false);
    law_numbers_are_read_from_their_bytes(p, 12, height, false);
    let (shape, wavelet, flags) = (p[25], p[26], p[27]);
    assert(16 * (shape >> 4) + (shape & 0xf) == shape && shape & 0xf < 16) by (bit_vector);
    assert(wavelet & 0xf == wavelet % 16) by (bit_vector);
    assert((flags & 0x80 != 0 <==> flags >= 128) && (flags & 0x40 != 0 <==> flags % 128 >= 64))
        by (bit_vector);
    assert forall|n: int, at: int|
        (at == 16 || at == 20 || at == 28) && 0 <= n < 0x1_0000_0000 && #[trigger] holds_number(
            p,
            at,
            n,
            4,
            false,
        ) implies be32(p, at) == n by {
        law_numbers_are_read_from_their_bytes(p, at, n, false);
    }
    if be32(p, 16) != 0 {
        assert(p[16] != 0 || p[17] != 0 || p[18] != 0 || p[19] != 0);
    }
    if be32(p, 20) != 0 {
        assert(p[20] != 0 || p[21] != 0 || p[22] != 0 || p[23] != 0);
    }
}

impl ImageHeader {
    /// Tiles have pixels, and the bands of a plane can be counted.
    pub open spec fn well_formed(&self) -> bool {
        &&& self.tile_width > 0
        &&& self.tile_height > 0
        &&& 3 * self.levels + 1 <= usize::MAX
    }

    /// Tiles across.
    pub open spec fn columns(&self) -> int {
        ceil_div(self.width as int, self.tile_width as int)
    }

    /// Tiles down.
    pub open spec fn rows(&self) -> int {
        ceil_div(self.height as int, self.tile_height as int)
    }

    /// Parses the payload of a `CMP1` box. Byte 4 is the record dialect,
    /// and byte 24 onwards is a run of small fields, one or two to the
    /// byte. Everything wider than a byte is big-endian.
    pub fn parse(payload: &[u8]) -> (r: Result<ImageHeader>)
        ensures
            outcome(r) == image_header(payload@),
            r matches Ok(header) ==> header.well_formed(),
    {
        if payload.len() < 32 {
            let mut text = "CMP1 is ".to_string();
            push_decimal(&mut text, payload.len() as u64);
            text.append(" bytes");
            return Err(Error::Corrupt(text));
        }
        let width: usize = read_be32(payload, 8) as usize;
        let height: usize = read_be32(payload, 12) as usize;
        let tile_width: usize = read_be32(payload, 16) as usize;
        let tile_height: usize = read_be32(payload, 20) as usize;
        let bits: u32 = payload[24] as u32;
        let shape: u8 = payload[25];
        let wavelet: u8 = payload[26];
        let flags: u8 = payload[27];
        if width == 0 || height == 0 || tile_width == 0 || tile_height == 0 {
            return Err(corrupt("CMP1 with a zero dimension"));
        }
        if width > 0x2_0000 || height > 0x2_0000 {
            let mut text = "CMP1 frame ".to_string();
            push_decimal(&mut text, width as u64);
            text.append("x");
            push_decimal(&mut text, height as u64);
            return Err(Error::Corrupt(text));
        }
        if bits < 1 || bits > 16 {
            let mut text = "CMP1 says ".to_string();
            push_decimal(&mut text, bits as u64);
            text.append(" bits a sample");
            return Err(Error::Corrupt(text));
        }
        assert(wavelet & 0xf <= 15) by (bit_vector);
        Ok(
            ImageHeader {
                version: payload[4],
                width,
                height,
                tile_width,
                tile_height,
                bits,
                planes: (shape >> 4) as usize,
                cfa_layout: shape & 0xf,
                levels: (wavelet & 0xf) as u32,
                tile_cols_linked: flags & 0x80 != 0,
                tile_rows_linked: flags & 0x40 != 0,
                mdat_header_size: read_be32(payload, 28) as usize,
            },
        )
    }

    /// Tiles across and down.
    pub fn tile_grid(&self) -> (grid: (usize, usize))
        requires
            self.tile_width > 0,
            self.tile_height > 0,
        ensures
            grid.0 == self.columns(),
            grid.1 == self.rows(),
    {
        (div_up(self.width, self.tile_width), div_up(self.height, self.tile_height))
    }

    /// Bands in one plane: one LL band, then three per level.
    pub fn bands(&self) -> (bands: usize)
        requires
            3 * self.levels + 1 <= usize::MAX,
        ensures
            bands == 3 * self.levels + 1,
    {
        3 * self.levels as usize + 1
    }
}

/// `a / b`, rounded up.
pub fn div_up(a: usize, b: usize) -> (r: usize)
    requires
        b > 0,
    ensures
        r == ceil_div(a as int, b as int),
{
    let whole: usize = a / b;
    let left: usize = a % b;
    if left == 0 {
        whole
    } else {
        proof {
            assert(b > 1) by {
                if b == 1 {
                    assert(left == 0);
                }
            }
            assert(whole < usize::MAX) by (nonlinear_arith)
                requires
                    whole == a / b,
                    b > 1,
                    a <= usize::MAX,
            ;
        }
        whole + 1
    }
}

/// One subband's slice of a plane's data.
#[derive(Debug, PartialEq, Eq)]
pub struct Band {
    /// Where the band's bits are, inside the whole sample.
    pub data: Range<usize>,
    /// Index within the plane, 0 for LL.
    pub index: usize,
    /// The twelve bits under the band counter in the record's flags, the
    /// quantiser of a lossy frame.
    pub q_step: u32,
    /// The whole flags word as written.
    pub flags: u32,
}

/// One Bayer sub-plane of a tile.
#[derive(Debug, PartialEq, Eq)]
pub struct Plane {
    pub data: Range<usize>,
    pub index: usize,
    /// Bit 27 of the flags.
    pub extra_flag: bool,
    /// The whole flags word as written.
    pub flags: u32,
    pub bands: Vec<Band>,
}

/// One tile of the frame.
#[derive(Debug, PartialEq, Eq)]
pub struct Tile {
    pub data: Range<usize>,
    /// Position in the tile grid.
    pub col: usize,
    pub row: usize,
    /// Pixels of the frame this tile covers.
    pub x: usize,
    pub y: usize,
    pub width: usize,
    pub height: usize,
    /// Dialect 2 only: the quantiser table that precedes the plane data
    /// inside the tile, in bytes.
    pub qp_table_size: usize,
    pub planes: Vec<Plane>,
}

/// A [`Plane`] as a mathematical value.
#[verifier::ext_equal]
pub struct PlaneModel {
    pub data: Range<usize>,
    pub index: usize,
    pub extra_flag: bool,
    pub flags: u32,
    pub bands: Seq<Band>,
}

/// A [`Tile`] as a mathematical value.
#[verifier::ext_equal]
pub struct TileModel {
    pub data: Range<usize>,
    pub col: usize,
    pub row: usize,
    pub x: usize,
    pub y: usize,
    pub width: usize,
    pub height: usize,
    pub qp_table_size: usize,
    pub planes: Seq<PlaneModel>,
}

impl View for Plane {
    type V = PlaneModel;

    open spec fn view(&self) -> PlaneModel {
        PlaneModel {
            data: self.data,
            index: self.index,
            extra_flag: self.extra_flag,
            flags: self.flags,
            bands: self.bands@,
        }
    }
}

impl View for Tile {
    type V = TileModel;

    open spec fn view(&self) -> TileModel {
        TileModel {
            data: self.data,
            col: self.col,
            row: self.row,
            x: self.x,
            y: self.y,
            width: self.width,
            height: self.height,
            qp_table_size: self.qp_table_size,
            planes: self.planes@.map_values(|plane: Plane| plane@),
        }
    }
}

impl Clone for Band {
    fn clone(&self) -> (band: Band)
        ensures
            band == *self,
    {
        Band {
            data: Range { start: self.data.start, end: self.data.end },
            index: self.index,
            q_step: self.q_step,
            flags: self.flags,
        }
    }
}

impl Clone for Plane {
    fn clone(&self) -> (plane: Plane)
        ensures
            plane@ == self@,
    {
        let mut bands: Vec<Band> = Vec::new();
        let mut i: usize = 0;
        while i < self.bands.len()
            invariant
                i <= self.bands@.len(),
                bands@ == self.bands@.take(i as int),
            decreases self.bands@.len() - i,
        {
            bands.push(self.bands[i].clone());
            i = i + 1;
            assert(bands@ =~= self.bands@.take(i as int));
        }
        assert(bands@ =~= self.bands@);
        Plane {
            data: Range { start: self.data.start, end: self.data.end },
            index: self.index,
            extra_flag: self.extra_flag,
            flags: self.flags,
            bands,
        }
    }
}

impl Clone for Tile {
    fn clone(&self) -> (tile: Tile)
        ensures
            tile@ == self@,
    {
        let mut planes: Vec<Plane> = Vec::new();
        let mut i: usize = 0;
        while i < self.planes.len()
            invariant
                i <= self.planes@.len(),
                planes@.len() == i,
                forall|j: int| 0 <= j < i ==> (#[trigger] planes@[j])@ == self.planes@[j]@,
            decreases self.planes@.len() - i,
        {
            planes.push(self.planes[i].clone());
            i = i + 1;
        }
        let tile = Tile {
            data: Range { start: self.data.start, end: self.data.end },
            col: self.col,
            row: self.row,
            x: self.x,
            y: self.y,
            width: self.width,
            height: self.height,
            qp_table_size: self.qp_table_size,
            planes,
        };
        assert(tile@.planes =~= self@.planes);
        tile
    }
}

/// Tiles as mathematical values.
pub open spec fn tile_models(tiles: Seq<Tile>) -> Seq<TileModel> {
    tiles.map_values(|tile: Tile| tile@)
}

/// A record in the header: a tag and its payload.
pub struct RecordModel {
    pub tag: int,
    pub payload: Seq<u8>,
}

/// The records from byte `at` of a header on; `None` when one of them
/// runs past it. A tail too short for a record's tag and length is not
/// one.
pub open spec fn records_from(header: Seq<u8>, at: int) -> Option<Seq<RecordModel>>
    decreases header.len() - at,
{
    if at < 0 || at + 4 > header.len() {
        Some(Seq::empty())
    } else {
        let end = at + 4 + be16(header, at + 2);
        if end > header.len() {
            None
        } else {
            let record = RecordModel {
                tag: be16(header, at),
                payload: header.subrange(at + 4, end),
            };
            match records_from(header, end) {
                Some(rest) => Some(seq![record] + rest),
                None => None,
            }
        }
    }
}

struct Record<'a> {
    tag: u16,
    payload: &'a [u8],
}

spec fn record_models(records: Seq<Record>) -> Seq<RecordModel> {
    records.map_values(
        |record: Record| RecordModel { tag: record.tag as int, payload: record.payload@ },
    )
}

fn records(header: &[u8]) -> (r: Result<Vec<Record<'_>>>)
    ensures
        match r {
            Ok(list) => records_from(header@, 0) == Some(record_models(list@)),
            Err(e) => records_from(header@, 0) is None && e@ == Fault::Corrupt(
                "CRX header record runs past the header"@,
            ),
        },
{
    let mut out: Vec<Record> = Vec::new();
    let mut at: usize = 0;
    assert(record_models(out@) =~= Seq::empty());
    assert(records_from(header@, 0) matches Some(rest) ==> Seq::<RecordModel>::empty() + rest
        =~= rest);
    while fits(header, at, 4)
        invariant
            at <= header@.len(),
            match records_from(header@, at as int) {
                Some(rest) => records_from(header@, 0) == Some(record_models(out@) + rest),
                None => records_from(header@, 0) is None,
            },
        decreases header@.len() - at,
    {
        assert(header@.len() == header.len());
        let tag: u16 = read_be16(header, at);
        let len: usize = read_be16(header, at + 2) as usize;
        if len > header.len() - at - 4 {
            return Err(corrupt("CRX header record runs past the header"));
        }
        let end: usize = at + 4 + len;
        let payload = slice_subrange(header, at + 4, end);
        let ghost before = record_models(out@);
        out.push(Record { tag, payload });
        proof {
            let model = RecordModel { tag: tag as int, payload: payload@ };
            assert(record_models(out@) =~= before.push(model));
            if let Some(rest) = records_from(header@, end as int) {
                assert(before + (seq![model] + rest) =~= before.push(model) + rest);
            }
        }
        at = end;
    }
    proof {
        assert(record_models(out@) + Seq::empty() =~= record_models(out@));
    }
    Ok(out)
}

/// The big-endian number at `at` of a record's payload.
pub open spec fn field(payload: Seq<u8>, at: int) -> Outcome<int> {
    if at + 4 <= payload.len() {
        Ok(be32(payload, at))
    } else {
        Err(Fault::Corrupt("short CRX header record"@))
    }
}

fn field_at(payload: &[u8], at: usize) -> (r: Result<u32>)
    ensures
        match r {
            Ok(value) => field(payload@, at as int) == Outcome::<int>::Ok(value as int),
            Err(e) => field(payload@, at as int) == Outcome::<int>::Err(e@),
        },
{
    if fits(payload, at, 4) {
        Ok(read_be32(payload, at))
    } else {
        Err(corrupt("short CRX header record"))
    }
}

/// The tree read so far, and where the next node of each kind starts:
/// tiles follow the header, planes follow the previous plane inside their
/// tile, bands the previous band inside their plane.
#[verifier::ext_equal]
pub struct Tree {
    pub tiles: Seq<TileModel>,
    pub tile_at: int,
    pub plane_at: int,
    pub band_at: int,
}

/// A range of bytes, as the tree stores it.
pub open spec fn span(start: int, end: int) -> Range<usize> {
    Range { start: start as usize, end: end as usize }
}

pub open spec fn smaller(a: int, b: int) -> int {
    if a <= b {
        a
    } else {
        b
    }
}

/// The tree after a tile record.
pub open spec fn with_tile(
    header: ImageHeader,
    sample_len: int,
    tree: Tree,
    payload: Seq<u8>,
) -> Outcome<Tree> {
    match field(payload, 0) {
        Err(e) => Err(e),
        Ok(size) => match if header.version >= 2 {
            field(payload, 8)
        } else {
            Ok(0)
        } {
            Err(e) => Err(e),
            Ok(table) => {
                let index = tree.tiles.len() as int;
                let end = tree.tile_at + size;
                if index >= header.columns() * header.rows() {
                    Err(Fault::Corrupt("more CRX tiles than the grid holds"@))
                } else if end > sample_len {
                    Err(Fault::Corrupt("CRX tile runs past the sample"@))
                } else {
                    let col = index % header.columns();
                    let row = index / header.columns();
                    let x = col * header.tile_width;
                    let y = row * header.tile_height;
                    Ok(
                        Tree {
                            tiles: tree.tiles.push(
                                TileModel {
                                    data: span(tree.tile_at, end),
                                    col: col as usize,
                                    row: row as usize,
                                    x: x as usize,
                                    y: y as usize,
                                    width: smaller(
                                        header.tile_width as int,
                                        header.width - x,
                                    ) as usize,
                                    height: smaller(
                                        header.tile_height as int,
                                        header.height - y,
                                    ) as usize,
                                    qp_table_size: table as usize,
                                    planes: Seq::empty(),
                                },
                            ),
                            tile_at: end,
                            plane_at: tree.tile_at + smaller(table, size),
                            band_at: tree.band_at,
                        },
                    )
                }
            },
        },
    }
}

/// The tree after a plane record.
pub open spec fn with_plane(tree: Tree, payload: Seq<u8>) -> Outcome<Tree> {
    match field(payload, 0) {
        Err(e) => Err(e),
        Ok(size) => match field(payload, 4) {
            Err(e) => Err(e),
            Ok(flags) => {
                let end = tree.plane_at + size;
                if tree.tiles.len() == 0 {
                    Err(Fault::Corrupt("CRX plane before any tile"@))
                } else if end > tree.tiles.last().data.end {
                    Err(Fault::Corrupt("CRX plane runs past its tile"@))
                } else {
                    let tile = tree.tiles.last();
                    let plane = PlaneModel {
                        data: span(tree.plane_at, end),
                        index: tile.planes.len() as usize,
                        extra_flag: (flags as u32) & 0x0800_0000 != 0,
                        flags: flags as u32,
                        bands: Seq::empty(),
                    };
                    Ok(
                        Tree {
                            tiles: tree.tiles.drop_last().push(
                                TileModel { planes: tile.planes.push(plane), ..tile },
                            ),
                            tile_at: tree.tile_at,
                            plane_at: end,
                            band_at: tree.plane_at,
                        },
                    )
                }
            },
        },
    }
}

/// The tree after a band record.
pub open spec fn with_band(tree: Tree, payload: Seq<u8>) -> Outcome<Tree> {
    match field(payload, 0) {
        Err(e) => Err(e),
        Ok(size) => match field(payload, 4) {
            Err(e) => Err(e),
            Ok(flags) => {
                let end = tree.band_at + size;
                if tree.tiles.len() == 0 || tree.tiles.last().planes.len() == 0 {
                    Err(Fault::Corrupt("CRX band before any plane"@))
                } else if end > tree.tiles.last().planes.last().data.end {
                    Err(Fault::Corrupt("CRX band runs past its plane"@))
                } else {
                    let tile = tree.tiles.last();
                    let plane = tile.planes.last();
                    let band = Band {
                        data: span(tree.band_at, end),
                        index: plane.bands.len() as usize,
                        q_step: ((flags as u32) >> 16) & 0xfff,
                        flags: flags as u32,
                    };
                    Ok(
                        Tree {
                            tiles: tree.tiles.drop_last().push(
                                TileModel {
                                    planes: tile.planes.drop_last().push(
                                        PlaneModel { bands: plane.bands.push(band), ..plane },
                                    ),
                                    ..tile
                                },
                            ),
                            tile_at: tree.tile_at,
                            plane_at: tree.plane_at,
                            band_at: end,
                        },
                    )
                }
            },
        },
    }
}

/// The tags of the tile, plane and band records of a dialect.
pub open spec fn dialect_tags(version: u8) -> (int, int, int) {
    if version == 1 {
        (0xff01, 0xff02, 0xff03)
    } else {
        (0xff11, 0xff12, 0xff13)
    }
}

/// The tree after one record. A record that is no node of the tree
/// changes nothing, so a body that adds one still decodes.
#[verifier::opaque]
pub open spec fn with_record(
    header: ImageHeader,
    sample_len: int,
    tree: Tree,
    record: RecordModel,
) -> Outcome<Tree> {
    let (tile_tag, plane_tag, band_tag) = dialect_tags(header.version);
    if record.tag == tile_tag {
        with_tile(header, sample_len, tree, record.payload)
    } else if record.tag == plane_tag {
        with_plane(tree, record.payload)
    } else if record.tag == band_tag {
        with_band(tree, record.payload)
    } else {
        Ok(tree)
    }
}

/// The tree after the first `n` records, or the first fault among them.
pub open spec fn tree_after(
    header: ImageHeader,
    sample_len: int,
    records: Seq<RecordModel>,
    n: nat,
) -> Outcome<Tree>
    decreases n,
{
    if n == 0 {
        Ok(
            Tree {
                tiles: Seq::empty(),
                tile_at: header.mdat_header_size as int,
                plane_at: 0,
                band_at: 0,
            },
        )
    } else {
        match tree_after(header, sample_len, records, (n - 1) as nat) {
            Err(e) => Err(e),
            Ok(tree) => with_record(header, sample_len, tree, records[n - 1]),
        }
    }
}

/// The first of a tile's first `n` planes with the wrong number of bands.
pub open spec fn plane_fault(header: ImageHeader, planes: Seq<PlaneModel>, n: nat) -> Option<Fault>
    decreases n,
{
    if n == 0 {
        None
    } else {
        match plane_fault(header, planes, (n - 1) as nat) {
            Some(fault) => Some(fault),
            None => if planes[n - 1].bands.len() != 3 * header.levels + 1 {
                Some(
                    Fault::Corrupt(
                        "CRX plane has "@ + decimal(planes[n - 1].bands.len() as int) + " bands, "@
                            + decimal(header.levels as int) + " levels wants "@ + decimal(
                            3 * header.levels + 1,
                        ),
                    ),
                )
            } else {
                None
            },
        }
    }
}

/// The first fault in the shape of the first `n` tiles.
pub open spec fn shape_fault(header: ImageHeader, tiles: Seq<TileModel>, n: nat) -> Option<Fault>
    decreases n,
{
    if n == 0 {
        None
    } else {
        match shape_fault(header, tiles, (n - 1) as nat) {
            Some(fault) => Some(fault),
            None => {
                let planes = tiles[n - 1].planes;
                if planes.len() != header.planes {
                    Some(
                        Fault::Corrupt(
                            "CRX tile has "@ + decimal(planes.len() as int) + " planes, CMP1 says "@
                                + decimal(header.planes as int),
                        ),
                    )
                } else {
                    plane_fault(header, planes, planes.len())
                }
            },
        }
    }
}

/// What the records in front of a sample say of it.
pub open spec fn tile_tree(header: ImageHeader, sample: Seq<u8>) -> Outcome<Seq<TileModel>> {
    let size = header.mdat_header_size as int;
    if size > sample.len() {
        Err(
            Fault::Corrupt(
                "CRX header of "@ + decimal(size) + " bytes in a "@ + decimal(sample.len() as int)
                    + "-byte sample"@,
            ),
        )
    } else if header.version != 1 && header.version != 2 {
        Err(Fault::Unsupported("CRX header version "@ + decimal(header.version as int)))
    } else {
        match records_from(sample.take(size), 0) {
            None => Err(Fault::Corrupt("CRX header record runs past the header"@)),
            Some(records) => match tree_after(
                header,
                sample.len() as int,
                records,
                records.len(),
            ) {
                Err(e) => Err(e),
                Ok(tree) => if tree.tiles.len() != header.columns() * header.rows() {
                    Err(
                        Fault::Corrupt(
                            "CRX header has "@ + decimal(tree.tiles.len() as int)
                                + " tiles, the grid wants "@ + decimal(
                                header.columns() * header.rows(),
                            ),
                        ),
                    )
                } else {
                    match shape_fault(header, tree.tiles, tree.tiles.len()) {
                        Some(fault) => Err(fault),
                        None => Ok(tree.tiles),
                    }
                },
            },
        }
    }
}

/// The state that [`parse_tiles`] carries from record to record.
struct Builder {
    tiles: Vec<Tile>,
    tile_at: usize,
    plane_at: usize,
    band_at: usize,
}

impl Builder {
    spec fn tree(&self) -> Tree {
        Tree {
            tiles: tile_models(self.tiles@),
            tile_at: self.tile_at as int,
            plane_at: self.plane_at as int,
            band_at: self.band_at as int,
        }
    }

    fn tile(&mut self, header: &ImageHeader, sample_len: usize, payload: &[u8]) -> (r: Result<()>)
        requires
            header.tile_width > 0,
            header.tile_height > 0,
        ensures
            match r {
                Ok(_) => with_tile(*header, sample_len as int, old(self).tree(), payload@)
                    == Outcome::<Tree>::Ok(final(self).tree()),
                Err(e) => with_tile(*header, sample_len as int, old(self).tree(), payload@)
                    == Outcome::<Tree>::Err(e@),
            },
    {
        let size: u32 = match field_at(payload, 0) {
            Ok(size) => size,
            Err(e) => return Err(e),
        };
        let table: u32 = if header.version >= 2 {
            match field_at(payload, 8) {
                Ok(table) => table,
                Err(e) => return Err(e),
            }
        } else {
            0
        };
        let (cols, rows) = header.tile_grid();
        let index: usize = self.tiles.len();
        proof {
            assert(cols * rows <= u128::MAX) by (nonlinear_arith)
                requires
                    0 <= cols <= u64::MAX,
                    0 <= rows <= u64::MAX,
            ;
        }
        if index as u128 >= cols as u128 * rows as u128 {
            return Err(corrupt("more CRX tiles than the grid holds"));
        }
        proof {
            lemma_grid_position(*header, index as int);
        }
        let col: usize = index % cols;
        let row: usize = index / cols;
        let x: usize = col * header.tile_width;
        let y: usize = row * header.tile_height;
        let end: usize = match self.tile_at.checked_add(size as usize) {
            Some(end) if end <= sample_len => end,
            _ => return Err(corrupt("CRX tile runs past the sample")),
        };
        let across: usize = header.width - x;
        let down: usize = header.height - y;
        let ghost before = self.tree();
        let tile = Tile {
            data: Range { start: self.tile_at, end },
            col,
            row,
            x,
            y,
            width: if header.tile_width <= across {
                header.tile_width
            } else {
                across
            },
            height: if header.tile_height <= down {
                header.tile_height
            } else {
                down
            },
            qp_table_size: table as usize,
            planes: Vec::new(),
        };
        assert(tile@.planes =~= Seq::empty());
        self.plane_at = self.tile_at + (if table <= size {
            table
        } else {
            size
        }) as usize;
        self.tile_at = end;
        self.tiles.push(tile);
        assert(self.tree().tiles =~= before.tiles.push(tile@));
        Ok(())
    }

    fn plane(&mut self, payload: &[u8]) -> (r: Result<()>)
        ensures
            match r {
                Ok(_) => with_plane(old(self).tree(), payload@) == Outcome::<Tree>::Ok(
                    final(self).tree(),
                ),
                Err(e) => with_plane(old(self).tree(), payload@) == Outcome::<Tree>::Err(e@),
            },
    {
        let size: u32 = match field_at(payload, 0) {
            Ok(size) => size,
            Err(e) => return Err(e),
        };
        let flags: u32 = match field_at(payload, 4) {
            Ok(flags) => flags,
            Err(e) => return Err(e),
        };
        let ghost before = self.tree();
        let mut tile = match self.tiles.pop() {
            Some(tile) => tile,
            None => return Err(corrupt("CRX plane before any tile")),
        };
        assert(tile@ == before.tiles.last());
        let ghost last = tile@;
        let end: usize = match self.plane_at.checked_add(size as usize) {
            Some(end) if end <= tile.data.end => end,
            _ => return Err(corrupt("CRX plane runs past its tile")),
        };
        let plane = Plane {
            data: Range { start: self.plane_at, end },
            index: tile.planes.len(),
            extra_flag: flags & 0x0800_0000 != 0,
            flags,
            bands: Vec::new(),
        };
        assert(plane@.bands =~= Seq::empty());
        tile.planes.push(plane);
        assert(tile@ =~= (TileModel { planes: last.planes.push(plane@), ..last }));
        self.tiles.push(tile);
        self.band_at = self.plane_at;
        self.plane_at = end;
        assert(self.tree().tiles =~= before.tiles.drop_last().push(tile@));
        Ok(())
    }

    fn band(&mut self, payload: &[u8]) -> (r: Result<()>)
        ensures
            match r {
                Ok(_) => with_band(old(self).tree(), payload@) == Outcome::<Tree>::Ok(
                    final(self).tree(),
                ),
                Err(e) => with_band(old(self).tree(), payload@) == Outcome::<Tree>::Err(e@),
            },
    {
        let size: u32 = match field_at(payload, 0) {
            Ok(size) => size,
            Err(e) => return Err(e),
        };
        let flags: u32 = match field_at(payload, 4) {
            Ok(flags) => flags,
            Err(e) => return Err(e),
        };
        let ghost before = self.tree();
        let mut tile = match self.tiles.pop() {
            Some(tile) => tile,
            None => return Err(corrupt("CRX band before any plane")),
        };
        assert(tile@ == before.tiles.last());
        let ghost last = tile@;
        let mut plane = match tile.planes.pop() {
            Some(plane) => plane,
            None => return Err(corrupt("CRX band before any plane")),
        };
        assert(plane@ == last.planes.last());
        let ghost inner = plane@;
        let end: usize = match self.band_at.checked_add(size as usize) {
            Some(end) if end <= plane.data.end => end,
            _ => return Err(corrupt("CRX band runs past its plane")),
        };
        let band = Band {
            data: Range { start: self.band_at, end },
            index: plane.bands.len(),
            q_step: (flags >> 16) & 0xfff,
            flags,
        };
        plane.bands.push(band);
        assert(plane@ =~= (PlaneModel { bands: inner.bands.push(band), ..inner }));
        tile.planes.push(plane);
        assert(tile@ =~= (TileModel { planes: last.planes.drop_last().push(plane@), ..last }));
        self.tiles.push(tile);
        self.band_at = end;
        assert(self.tree().tiles =~= before.tiles.drop_last().push(tile@));
        Ok(())
    }
}

/// The position of tile `index` lies in the frame.
proof fn lemma_grid_position(header: ImageHeader, index: int)
    requires
        header.tile_width > 0,
        header.tile_height > 0,
        0 <= index < header.columns() * header.rows(),
    ensures
        header.columns() > 0,
        0 <= index % header.columns() < header.columns(),
        0 <= index / header.columns() < header.rows(),
        0 <= (index % header.columns()) * header.tile_width < header.width,
        0 <= (index / header.columns()) * header.tile_height < header.height,
{
    let (cols, rows) = (header.columns(), header.rows());
    assert(cols >= 0 && rows >= 0) by {
        vstd::arithmetic::div_mod::lemma_div_pos_is_pos(
            header.width as int,
            header.tile_width as int,
        );
        vstd::arithmetic::div_mod::lemma_div_pos_is_pos(
            header.height as int,
            header.tile_height as int,
        );
    }
    assert(cols > 0) by (nonlinear_arith)
        requires
            0 <= index < cols * rows,
            cols >= 0,
    ;
    crate::grid::lemma_place_of(cols, rows, index);
    lemma_before_end(header.width as int, header.tile_width as int, index % cols);
    lemma_before_end(header.height as int, header.tile_height as int, index / cols);
}

proof fn lemma_before_end(a: int, b: int, k: int)
    requires
        0 <= a,
        0 < b,
        0 <= k < ceil_div(a, b),
    ensures
        0 <= k * b < a,
{
    vstd::arithmetic::div_mod::lemma_fundamental_div_mod(a, b);
    let q = a / b;
    let r = a % b;
    assert(0 <= r < b) by {
        vstd::arithmetic::div_mod::lemma_mod_bound(a, b);
    }
    assert(0 <= k * b) by (nonlinear_arith)
        requires
            0 <= k,
            0 < b,
    ;
    if k < q {
        assert(k * b < b * q) by (nonlinear_arith)
            requires
                k + 1 <= q,
                0 < b,
        ;
    } else {
        assert(k == q && r > 0);
        assert(k * b == b * q) by (nonlinear_arith)
            requires
                k == q,
        ;
    }
}

/// Reads the tag/size records in front of a sample and turns them into
/// the tile / plane / band tree, with each node's byte range inside
/// `sample` filled in.
///
/// The records come in two dialects, each with its own tags for a tile, a
/// plane and a band. Every node opens with its size and, but for a tile, a
/// flags word; in the second dialect a tile also says how much of it is a
/// quantiser table before the planes start.
pub fn parse_tiles(header: &ImageHeader, sample: &[u8]) -> (r: Result<Vec<Tile>>)
    requires
        header.well_formed(),
    ensures
        match r {
            Ok(tiles) => tile_tree(*header, sample@) == Outcome::<Seq<TileModel>>::Ok(
                tile_models(tiles@),
            ),
            Err(e) => tile_tree(*header, sample@) == Outcome::<Seq<TileModel>>::Err(e@),
        },
{
    if header.mdat_header_size > sample.len() {
        let mut text = "CRX header of ".to_string();
        push_decimal(&mut text, header.mdat_header_size as u64);
        text.append(" bytes in a ");
        push_decimal(&mut text, sample.len() as u64);
        text.append("-byte sample");
        return Err(Error::Corrupt(text));
    }
    let (tile_tag, plane_tag, band_tag): (u16, u16, u16) = match header.version {
        1 => (0xff01, 0xff02, 0xff03),
        2 => (0xff11, 0xff12, 0xff13),
        other => {
            let mut text = "CRX header version ".to_string();
            push_decimal(&mut text, other as u64);
            return Err(Error::Unsupported(text));
        },
    };
    let head = slice_subrange(sample, 0, header.mdat_header_size);
    assert(head@ =~= sample@.take(header.mdat_header_size as int));
    let list = match records(head) {
        Ok(list) => list,
        Err(e) => return Err(e),
    };
    let ghost models = record_models(list@);
    let mut builder = Builder {
        tiles: Vec::new(),
        tile_at: header.mdat_header_size,
        plane_at: 0,
        band_at: 0,
    };
    assert(builder.tree().tiles =~= Seq::empty());
    let mut i: usize = 0;
    while i < list.len()
        invariant
            i <= list@.len(),
            models == record_models(list@),
            models.len() == list@.len(),
            header.well_formed(),
            (tile_tag as int, plane_tag as int, band_tag as int) == dialect_tags(header.version),
            header.version == 1 || header.version == 2,
            header.mdat_header_size <= sample@.len(),
            records_from(sample@.take(header.mdat_header_size as int), 0) == Some(models),
            tree_after(*header, sample@.len() as int, models, i as nat) == Outcome::<Tree>::Ok(
                builder.tree(),
            ),
        decreases list@.len() - i,
    {
        let record = &list[i];
        reveal(with_record);
        assert(models[i as int].tag == record.tag && models[i as int].payload == record.payload@);
        let step = if record.tag == tile_tag {
            builder.tile(header, sample.len(), record.payload)
        } else if record.tag == plane_tag {
            builder.plane(record.payload)
        } else if record.tag == band_tag {
            builder.band(record.payload)
        } else {
            Ok(())
        };
        if let Err(e) = step {
            proof {
                lemma_fault_stays(
                    *header,
                    sample@.len() as int,
                    models,
                    (i + 1) as nat,
                    models.len(),
                );
            }
            return Err(e);
        }
        i = i + 1;
    }
    let ghost tree = builder.tree();
    let tiles = builder.tiles;
    let (cols, rows) = header.tile_grid();
    proof {
        assert(cols * rows <= u128::MAX) by (nonlinear_arith)
            requires
                0 <= cols <= u64::MAX,
                0 <= rows <= u64::MAX,
        ;
    }
    let wanted: u128 = cols as u128 * rows as u128;
    if tiles.len() as u128 != wanted {
        let mut text = "CRX header has ".to_string();
        push_decimal(&mut text, tiles.len() as u64);
        text.append(" tiles, the grid wants ");
        push_wide(&mut text, wanted);
        return Err(Error::Corrupt(text));
    }
    if let Err(e) = check_shape(header, &tiles) {
        return Err(e);
    }
    Ok(tiles)
}

proof fn lemma_fault_stays(
    header: ImageHeader,
    sample_len: int,
    records: Seq<RecordModel>,
    a: nat,
    b: nat,
)
    requires
        a <= b,
        tree_after(header, sample_len, records, a) is Err,
    ensures
        tree_after(header, sample_len, records, b) == tree_after(header, sample_len, records, a),
    decreases b - a,
{
    if a < b {
        lemma_fault_stays(header, sample_len, records, a, (b - 1) as nat);
    }
}

fn check_shape(header: &ImageHeader, tiles: &Vec<Tile>) -> (r: Result<()>)
    requires
        header.well_formed(),
    ensures
        match r {
            Ok(_) => shape_fault(*header, tile_models(tiles@), tiles@.len()) is None,
            Err(e) => shape_fault(*header, tile_models(tiles@), tiles@.len()) == Some(e@),
        },
{
    let ghost models = tile_models(tiles@);
    let mut i: usize = 0;
    while i < tiles.len()
        invariant
            i <= tiles@.len(),
            models == tile_models(tiles@),
            header.well_formed(),
            shape_fault(*header, models, i as nat) is None,
        decreases tiles@.len() - i,
    {
        let tile = &tiles[i];
        assert(models[i as int] == tile@);
        let ghost planes = tile@.planes;
        if tile.planes.len() != header.planes {
            let mut text = "CRX tile has ".to_string();
            push_decimal(&mut text, tile.planes.len() as u64);
            text.append(" planes, CMP1 says ");
            push_decimal(&mut text, header.planes as u64);
            proof {
                lemma_shape_fault_stays(*header, models, (i + 1) as nat, models.len());
            }
            return Err(Error::Corrupt(text));
        }
        let mut j: usize = 0;
        while j < tile.planes.len()
            invariant
                j <= tile.planes@.len(),
                i < tiles@.len(),
                models == tile_models(tiles@),
                models[i as int] == tile@,
                planes == tile@.planes,
                planes.len() == header.planes,
                header.well_formed(),
                shape_fault(*header, models, i as nat) is None,
                plane_fault(*header, planes, j as nat) is None,
            decreases tile.planes@.len() - j,
        {
            let plane = &tile.planes[j];
            assert(planes[j as int] == plane@);
            if plane.bands.len() != header.bands() {
                let mut text = "CRX plane has ".to_string();
                push_decimal(&mut text, plane.bands.len() as u64);
                text.append(" bands, ");
                push_decimal(&mut text, header.levels as u64);
                text.append(" levels wants ");
                push_decimal(&mut text, header.bands() as u64);
                proof {
                    lemma_plane_fault_stays(*header, planes, (j + 1) as nat, planes.len());
                    lemma_shape_fault_stays(*header, models, (i + 1) as nat, models.len());
                }
                return Err(Error::Corrupt(text));
            }
            j = j + 1;
        }
        i = i + 1;
    }
    Ok(())
}

proof fn lemma_plane_fault_stays(header: ImageHeader, planes: Seq<PlaneModel>, a: nat, b: nat)
    requires
        a <= b,
        plane_fault(header, planes, a) is Some,
    ensures
        plane_fault(header, planes, b) == plane_fault(header, planes, a),
    decreases b - a,
{
    if a < b {
        lemma_plane_fault_stays(header, planes, a, (b - 1) as nat);
    }
}

proof fn lemma_shape_fault_stays(header: ImageHeader, tiles: Seq<TileModel>, a: nat, b: nat)
    requires
        a <= b,
        shape_fault(header, tiles, a) is Some,
    ensures
        shape_fault(header, tiles, b) == shape_fault(header, tiles, a),
    decreases b - a,
{
    if a < b {
        lemma_shape_fault_stays(header, tiles, a, (b - 1) as nat);
    }
}

/// Band `k` of a plane starts where the one before it ends, the first at
/// the plane's start, and stays inside the plane.
pub open spec fn band_follows(plane: PlaneModel, k: int) -> bool {
    &&& plane.bands[k].index == k
    &&& plane.bands[k].data.start == if k == 0 {
        plane.data.start
    } else {
        plane.bands[k - 1].data.end
    }
    &&& plane.bands[k].data.start <= plane.bands[k].data.end <= plane.data.end
}

/// The bands of a plane follow each other inside it.
pub open spec fn bands_fit(plane: PlaneModel) -> bool {
    forall|k: int| 0 <= k < plane.bands.len() ==> #[trigger] band_follows(plane, k)
}

/// Where a tile's first plane starts: after its quantiser table.
pub open spec fn planes_start(tile: TileModel) -> int {
    tile.data.start + smaller(tile.qp_table_size as int, tile.data.end - tile.data.start)
}

/// Plane `j` of a tile starts where the one before it ends, the first
/// after the tile's table, and stays inside the tile; its bands fit.
pub open spec fn plane_follows(tile: TileModel, j: int) -> bool {
    &&& tile.planes[j].index == j
    &&& tile.planes[j].data.start == if j == 0 {
        planes_start(tile)
    } else {
        tile.planes[j - 1].data.end as int
    }
    &&& tile.planes[j].data.start <= tile.planes[j].data.end <= tile.data.end
    &&& bands_fit(tile.planes[j])
}

/// The planes of a tile follow each other inside it, after its table, and
/// so do the bands of each.
pub open spec fn planes_fit(tile: TileModel) -> bool {
    forall|j: int| 0 <= j < tile.planes.len() ==> #[trigger] plane_follows(tile, j)
}

/// Tile `i` starts where the one before it ends, the first at `start`, and
/// ends by `end`; its planes fit.
pub open spec fn tile_follows(tiles: Seq<TileModel>, i: int, start: int, end: int) -> bool {
    &&& tiles[i].data.start == if i == 0 {
        start
    } else {
        tiles[i - 1].data.end as int
    }
    &&& tiles[i].data.start <= tiles[i].data.end <= end
    &&& planes_fit(tiles[i])
}

/// The tiles follow each other from `start` to at most `end`, and each
/// one's planes and bands fit.
pub open spec fn tiles_fit(tiles: Seq<TileModel>, start: int, end: int) -> bool {
    forall|i: int| 0 <= i < tiles.len() ==> #[trigger] tile_follows(tiles, i, start, end)
}

/// A record that is taken adds one node that is as long as the record's
/// first number says, at the end of the tiles, of the last tile's planes or
/// of the last plane's bands. The second dialect gives a tile's table in
/// its third number. The second number of a plane or a band is its flags:
/// bit 27 of a plane's is told apart, and twelve bits from bit 16 on are a
/// band's quantiser step.
pub proof fn law_records_say_how_long_their_nodes_are(
    header: ImageHeader,
    sample_len: int,
    tree: Tree,
    record: RecordModel,
)
    requires
        header.well_formed(),
        sample_len <= usize::MAX,
        0 <= tree.tile_at,
        0 <= tree.plane_at,
        0 <= tree.band_at,
        with_record(header, sample_len, tree, record) is Ok,
    ensures
        ({
            let next = with_record(header, sample_len, tree, record)->Ok_0;
            let size = be32(record.payload, 0);
            let flags = be32(record.payload, 4);
            let base: int = if header.version == 1 {
                0xff00
            } else {
                0xff10
            };
            &&& record.tag == base + 1 ==> {
                let tile = next.tiles.last();
                &&& next.tiles.len() == tree.tiles.len() + 1
                &&& tile.data.end - tile.data.start == size
                &&& tile.qp_table_size == if header.version >= 2 {
                    be32(record.payload, 8)
                } else {
                    0
                }
                &&& tile.planes.len() == 0
            }
            &&& record.tag == base + 2 ==> {
                let (before, tile) = (tree.tiles.last(), next.tiles.last());
                let plane = tile.planes.last();
                &&& next.tiles.len() == tree.tiles.len()
                &&& tile.planes.len() == before.planes.len() + 1
                &&& plane.data.end - plane.data.start == size
                &&& plane.flags == flags
                &&& plane.extra_flag <==> flags / 0x800_0000 % 2 == 1
                &&& plane.bands.len() == 0
            }
            &&& record.tag == base + 3 ==> {
                let (before, plane) = (
                    tree.tiles.last().planes.last(),
                    next.tiles.last().planes.last(),
                );
                let band = plane.bands.last();
                &&& next.tiles.len() == tree.tiles.len()
                &&& plane.bands.len() == before.bands.len() + 1
                &&& band.data.end - band.data.start == size
                &&& band.flags == flags
                &&& band.q_step == flags / 0x1_0000 % 0x1000
            }
        }),
{
    reveal(with_record);
    let flags = be32(record.payload, 4) as u32;
    assert(flags & 0x0800_0000 != 0 <==> flags / 0x800_0000 % 2 == 1) by (bit_vector);
    assert((flags >> 16) & 0xfff == flags / 0x1_0000 % 0x1000) by (bit_vector);
}

/// Tile `i` of the tree covers the pixels of cell `i` of the grid.
pub open spec fn tiles_cover(header: ImageHeader, tiles: Seq<TileModel>) -> bool {
    forall|i: int| #![trigger tiles[i]]
        0 <= i < tiles.len() ==> {
            &&& tiles[i].col == i % header.columns()
            &&& tiles[i].row == i / header.columns()
            &&& tiles[i].x == tiles[i].col * header.tile_width
            &&& tiles[i].y == tiles[i].row * header.tile_height
            &&& tiles[i].width == smaller(header.tile_width as int, header.width - tiles[i].x)
            &&& tiles[i].height == smaller(header.tile_height as int, header.height - tiles[i].y)
        }
}

spec fn tree_fits(header: ImageHeader, sample_len: int, tree: Tree) -> bool {
    let start = header.mdat_header_size as int;
    &&& start <= sample_len
    &&& tiles_fit(tree.tiles, start, sample_len)
    &&& tiles_cover(header, tree.tiles)
    &&& 0 <= tree.plane_at
    &&& 0 <= tree.band_at
    &&& tree.tile_at == if tree.tiles.len() == 0 {
        start
    } else {
        tree.tiles.last().data.end as int
    }
    &&& tree.tiles.len() > 0 ==> {
        let tile = tree.tiles.last();
        &&& tree.plane_at == if tile.planes.len() == 0 {
            planes_start(tile)
        } else {
            tile.planes.last().data.end as int
        }
        &&& tile.planes.len() > 0 ==> {
            let plane = tile.planes.last();
            tree.band_at == if plane.bands.len() == 0 {
                plane.data.start
            } else {
                plane.bands.last().data.end
            }
        }
    }
}

/// Whether a tree has at most `n` tiles, and its last tile and that one's
/// last plane at most `n` nodes each.
spec fn tree_counts(tree: Tree, n: nat) -> bool {
    &&& tree.tiles.len() <= n
    &&& tree.tiles.len() > 0 ==> tree.tiles.last().planes.len() <= n && (
    tree.tiles.last().planes.len() > 0 ==> tree.tiles.last().planes.last().bands.len() <= n)
}

proof fn lemma_tree_fits(header: ImageHeader, sample_len: int, records: Seq<RecordModel>, n: nat)
    requires
        header.tile_width > 0,
        header.tile_height > 0,
        header.mdat_header_size <= sample_len <= usize::MAX,
        n <= records.len() <= usize::MAX,
    ensures
        tree_after(header, sample_len, records, n) matches Ok(tree) ==> tree_fits(
            header,
            sample_len,
            tree,
        ) && tree_counts(tree, n),
    decreases n,
{
    if n > 0 {
        lemma_tree_fits(header, sample_len, records, (n - 1) as nat);
        if let Ok(tree) = tree_after(header, sample_len, records, (n - 1) as nat) {
            if let Ok(next) = with_record(header, sample_len, tree, records[n - 1]) {
                lemma_record_fits(header, sample_len, tree, records[n - 1], n);
            }
        }
    }
}

proof fn lemma_record_fits(
    header: ImageHeader,
    sample_len: int,
    tree: Tree,
    record: RecordModel,
    n: nat,
)
    requires
        header.tile_width > 0,
        header.tile_height > 0,
        0 < n <= usize::MAX,
        sample_len <= usize::MAX,
        tree_fits(header, sample_len, tree),
        tree_counts(tree, (n - 1) as nat),
        with_record(header, sample_len, tree, record) is Ok,
    ensures
        tree_fits(header, sample_len, with_record(header, sample_len, tree, record)->Ok_0),
        tree_counts(with_record(header, sample_len, tree, record)->Ok_0, n),
{
    reveal(with_record);
    let (tile_tag, plane_tag, band_tag) = dialect_tags(header.version);
    if record.tag == tile_tag {
        lemma_tile_fits(header, sample_len, tree, record.payload, n);
    } else if record.tag == plane_tag {
        lemma_plane_fits(header, sample_len, tree, record.payload, n);
    } else if record.tag == band_tag {
        lemma_band_fits(header, sample_len, tree, record.payload, n);
    }
}

/// A list of tiles with a last one added or changed fits if the others do
/// and that one does.
proof fn lemma_tiles_fit(before: Seq<TileModel>, after: Seq<TileModel>, start: int, end: int)
    requires
        0 < after.len() <= before.len() + 1,
        forall|i: int| 0 <= i < after.len() - 1 ==> #[trigger] after[i] == before[i],
        tiles_fit(before, start, end),
        tile_follows(after, after.len() - 1, start, end),
    ensures
        tiles_fit(after, start, end),
{
    assert forall|i: int| 0 <= i < after.len() implies #[trigger] tile_follows(
        after,
        i,
        start,
        end,
    ) by {
        if i < after.len() - 1 {
            assert(tile_follows(before, i, start, end));
            assert(after[i] == before[i]);
            if i > 0 {
                assert(after[i - 1] == before[i - 1]);
            }
        }
    }
}

/// The same of where the tiles are in the frame.
proof fn lemma_tiles_cover(header: ImageHeader, before: Seq<TileModel>, after: Seq<TileModel>)
    requires
        0 < after.len(),
        before.len() <= after.len() <= before.len() + 1,
        forall|i: int| 0 <= i < after.len() - 1 ==> #[trigger] after[i] == before[i],
        tiles_cover(header, before),
        after.len() == before.len() ==> after.last() == (TileModel {
            planes: after.last().planes,
            ..before.last()
        }),
        after.len() > before.len() ==> ({
            let tile = after.last();
            &&& tile.col == before.len() as int % header.columns()
            &&& tile.row == before.len() as int / header.columns()
            &&& tile.x == tile.col * header.tile_width
            &&& tile.y == tile.row * header.tile_height
            &&& tile.width == smaller(header.tile_width as int, header.width - tile.x)
            &&& tile.height == smaller(header.tile_height as int, header.height - tile.y)
        }),
    ensures
        tiles_cover(header, after),
{
    assert forall|i: int| #![trigger after[i]] 0 <= i < after.len() implies {
        &&& after[i].col == i % header.columns()
        &&& after[i].row == i / header.columns()
        &&& after[i].x == after[i].col * header.tile_width
        &&& after[i].y == after[i].row * header.tile_height
        &&& after[i].width == smaller(header.tile_width as int, header.width - after[i].x)
        &&& after[i].height == smaller(header.tile_height as int, header.height - after[i].y)
    } by {
        if i < before.len() {
            let old_tile = before[i];
            assert(i < after.len() - 1 ==> after[i] == old_tile);
        }
    }
}

proof fn lemma_tile_fits(
    header: ImageHeader,
    sample_len: int,
    tree: Tree,
    payload: Seq<u8>,
    n: nat,
)
    requires
        header.tile_width > 0,
        header.tile_height > 0,
        0 < n <= usize::MAX,
        sample_len <= usize::MAX,
        tree_fits(header, sample_len, tree),
        tree_counts(tree, (n - 1) as nat),
        with_tile(header, sample_len, tree, payload) is Ok,
    ensures
        tree_fits(header, sample_len, with_tile(header, sample_len, tree, payload)->Ok_0),
        tree_counts(with_tile(header, sample_len, tree, payload)->Ok_0, n),
{
    let next = with_tile(header, sample_len, tree, payload)->Ok_0;
    let start = header.mdat_header_size as int;
    let index = tree.tiles.len() as int;
    lemma_grid_position(header, index);
    assert(header.columns() <= usize::MAX && header.rows() <= usize::MAX) by {
        lemma_ceil_div_small(header.width as int, header.tile_width as int);
        lemma_ceil_div_small(header.height as int, header.tile_height as int);
    }
    assert(planes_fit(next.tiles.last()));
    if index > 0 {
        assert(tile_follows(tree.tiles, index - 1, start, sample_len));
        assert(next.tiles[index - 1] == tree.tiles[index - 1]);
    }
    assert(tile_follows(next.tiles, index, start, sample_len));
    lemma_tiles_fit(tree.tiles, next.tiles, start, sample_len);
    lemma_tiles_cover(header, tree.tiles, next.tiles);
}

/// A last tile whose planes are changed still follows the others.
proof fn lemma_last_tile_follows(
    tiles: Seq<TileModel>,
    next: Seq<TileModel>,
    start: int,
    end: int,
)
    requires
        tiles.len() > 0,
        next == tiles.drop_last().push(
            (TileModel { planes: next.last().planes, ..tiles.last() }),
        ),
        tiles_fit(tiles, start, end),
        planes_fit(next.last()),
    ensures
        tiles_fit(next, start, end),
{
    let last = tiles.len() - 1;
    assert(tile_follows(tiles, last, start, end));
    if last > 0 {
        assert(next[last - 1] == tiles[last - 1]);
    }
    assert(tile_follows(next, last, start, end));
    lemma_tiles_fit(tiles, next, start, end);
}

proof fn lemma_plane_fits(
    header: ImageHeader,
    sample_len: int,
    tree: Tree,
    payload: Seq<u8>,
    n: nat,
)
    requires
        0 < n <= usize::MAX,
        sample_len <= usize::MAX,
        tree_fits(header, sample_len, tree),
        tree_counts(tree, (n - 1) as nat),
        with_plane(tree, payload) is Ok,
    ensures
        tree_fits(header, sample_len, with_plane(tree, payload)->Ok_0),
        tree_counts(with_plane(tree, payload)->Ok_0, n),
{
    let next = with_plane(tree, payload)->Ok_0;
    let start = header.mdat_header_size as int;
    let (tile, grown) = (tree.tiles.last(), next.tiles.last());
    assert(tile_follows(tree.tiles, tree.tiles.len() - 1, start, sample_len));
    assert(bands_fit(grown.planes.last()));
    assert(planes_fit(grown)) by {
        assert forall|j: int| 0 <= j < grown.planes.len() implies #[trigger] plane_follows(
            grown,
            j,
        ) by {
            if j < tile.planes.len() {
                assert(plane_follows(tile, j));
                assert(grown.planes[j] == tile.planes[j]);
            }
            if j > 0 {
                assert(plane_follows(tile, j - 1));
                assert(grown.planes[j - 1] == tile.planes[j - 1]);
            }
        }
    }
    lemma_last_tile_follows(tree.tiles, next.tiles, start, sample_len);
    lemma_tiles_cover(header, tree.tiles, next.tiles);
}

proof fn lemma_band_fits(
    header: ImageHeader,
    sample_len: int,
    tree: Tree,
    payload: Seq<u8>,
    n: nat,
)
    requires
        0 < n <= usize::MAX,
        sample_len <= usize::MAX,
        tree_fits(header, sample_len, tree),
        tree_counts(tree, (n - 1) as nat),
        with_band(tree, payload) is Ok,
    ensures
        tree_fits(header, sample_len, with_band(tree, payload)->Ok_0),
        tree_counts(with_band(tree, payload)->Ok_0, n),
{
    let next = with_band(tree, payload)->Ok_0;
    let start = header.mdat_header_size as int;
    let (tile, grown) = (tree.tiles.last(), next.tiles.last());
    let top = tile.planes.len() - 1;
    let (plane, longer) = (tile.planes[top], grown.planes[top]);
    assert(tile_follows(tree.tiles, tree.tiles.len() - 1, start, sample_len));
    assert(plane_follows(tile, top));
    assert(bands_fit(longer)) by {
        assert forall|k: int| 0 <= k < longer.bands.len() implies #[trigger] band_follows(
            longer,
            k,
        ) by {
            if k < plane.bands.len() {
                assert(band_follows(plane, k));
                assert(longer.bands[k] == plane.bands[k]);
            }
            if k > 0 {
                assert(band_follows(plane, k - 1));
                assert(longer.bands[k - 1] == plane.bands[k - 1]);
            }
        }
    }
    assert(planes_fit(grown)) by {
        assert forall|j: int| 0 <= j < grown.planes.len() implies #[trigger] plane_follows(
            grown,
            j,
        ) by {
            assert(plane_follows(tile, j));
            if j < top {
                assert(grown.planes[j] == tile.planes[j]);
            }
            if j > 0 {
                assert(grown.planes[j - 1] == tile.planes[j - 1]);
            }
        }
    }
    lemma_last_tile_follows(tree.tiles, next.tiles, start, sample_len);
    lemma_tiles_cover(header, tree.tiles, next.tiles);
}

proof fn lemma_ceil_div_small(a: int, b: int)
    requires
        0 <= a,
        0 < b,
    ensures
        0 <= ceil_div(a, b) <= a,
{
    vstd::arithmetic::div_mod::lemma_fundamental_div_mod(a, b);
    vstd::arithmetic::div_mod::lemma_mod_bound(a, b);
    vstd::arithmetic::div_mod::lemma_div_pos_is_pos(a, b);
    let q = a / b;
    assert(q <= b * q) by (nonlinear_arith)
        requires
            0 <= q,
            0 < b,
    ;
}

proof fn lemma_records_short(header: Seq<u8>, at: int)
    requires
        0 <= at <= header.len(),
    ensures
        records_from(header, at) matches Some(records) ==> records.len() <= header.len() - at,
    decreases header.len() - at,
{
    if at + 4 <= header.len() {
        let end = at + 4 + be16(header, at + 2);
        if end <= header.len() {
            lemma_records_short(header, end);
        }
    }
}

/// In a tree that was read, the tiles follow each other from the end of
/// the header and stay inside the sample; the planes of a tile follow each
/// other after its quantiser table and stay inside it; the bands of a
/// plane follow each other from its start and stay inside it. There is one
/// tile for every cell of the grid, with the planes and bands that the
/// header asks for.
pub proof fn law_tree_nests(header: ImageHeader, sample: Seq<u8>)
    requires
        header.well_formed(),
        sample.len() <= usize::MAX,
        tile_tree(header, sample) is Ok,
    ensures
        ({
            let tiles = tile_tree(header, sample)->Ok_0;
            &&& tiles_fit(tiles, header.mdat_header_size as int, sample.len() as int)
            &&& tiles_cover(header, tiles)
            &&& tiles.len() == header.columns() * header.rows()
            &&& forall|i: int|
                0 <= i < tiles.len() ==> (#[trigger] tiles[i]).planes.len() == header.planes
            &&& forall|i: int, j: int|
                0 <= i < tiles.len() && 0 <= j < header.planes
                    ==> (#[trigger] tiles[i].planes[j]).bands.len() == 3 * header.levels + 1
        }),
{
    let head = sample.take(header.mdat_header_size as int);
    let records = records_from(head, 0)->Some_0;
    lemma_records_short(head, 0);
    lemma_tree_fits(header, sample.len() as int, records, records.len());
    let tiles = tile_tree(header, sample)->Ok_0;
    lemma_shape(header, tiles, tiles.len());
}

proof fn lemma_shape(header: ImageHeader, tiles: Seq<TileModel>, n: nat)
    requires
        n <= tiles.len(),
        shape_fault(header, tiles, n) is None,
    ensures
        forall|i: int| 0 <= i < n ==> (#[trigger] tiles[i]).planes.len() == header.planes,
        forall|i: int, j: int|
            0 <= i < n && 0 <= j < header.planes ==> (#[trigger] tiles[i].planes[j]).bands.len()
                == 3 * header.levels + 1,
    decreases n,
{
    if n > 0 {
        lemma_shape(header, tiles, (n - 1) as nat);
        lemma_plane_shape(header, tiles[n - 1].planes, tiles[n - 1].planes.len());
    }
}

proof fn lemma_plane_shape(header: ImageHeader, planes: Seq<PlaneModel>, n: nat)
    requires
        n <= planes.len(),
        plane_fault(header, planes, n) is None,
    ensures
        forall|j: int| 0 <= j < n ==> (#[trigger] planes[j]).bands.len() == 3 * header.levels + 1,
    decreases n,
{
    if n > 0 {
        lemma_plane_shape(header, planes, (n - 1) as nat);
    }
}

/// Whether a tile covers a pixel of the frame.
pub open spec fn covers(tile: TileModel, px: int, py: int) -> bool {
    tile.x <= px < tile.x + tile.width && tile.y <= py < tile.y + tile.height
}

/// The tiles of a tree that was read divide the frame: every pixel lies in
/// exactly one of them, the one in the grid cell that holds it.
pub proof fn law_tiles_divide_the_frame(
    header: ImageHeader,
    sample: Seq<u8>,
    px: int,
    py: int,
    i: int,
)
    requires
        header.well_formed(),
        sample.len() <= usize::MAX,
        tile_tree(header, sample) is Ok,
        0 <= px < header.width,
        0 <= py < header.height,
        0 <= i < tile_tree(header, sample)->Ok_0.len(),
    ensures
        covers(tile_tree(header, sample)->Ok_0[i], px, py) <==> i == (py
            / header.tile_height as int) * header.columns() + px / header.tile_width as int,
{
    law_tree_nests(header, sample);
    let tiles = tile_tree(header, sample)->Ok_0;
    let tile = tiles[i];
    let (tw, th) = (header.tile_width as int, header.tile_height as int);
    let cols = header.columns();
    lemma_grid_position(header, i);
    crate::grid::lemma_place_of(cols, header.rows(), i);
    lemma_cell(header.width as int, tw, px, tile.col as int);
    lemma_cell(header.height as int, th, py, tile.row as int);
    if i == (py / th) * cols + px / tw {
        lemma_cell_in_grid(header.width as int, tw, px);
        crate::grid::lemma_place_inverse(cols, py / th, px / tw);
    }
}

proof fn lemma_cell_in_grid(a: int, b: int, p: int)
    requires
        0 <= p < a,
        0 < b,
    ensures
        0 <= p / b < ceil_div(a, b),
{
    vstd::arithmetic::div_mod::lemma_div_pos_is_pos(p, b);
    vstd::arithmetic::div_mod::lemma_div_is_ordered(p, a, b);
    vstd::arithmetic::div_mod::lemma_fundamental_div_mod(a, b);
    vstd::arithmetic::div_mod::lemma_fundamental_div_mod(p, b);
    vstd::arithmetic::div_mod::lemma_mod_bound(p, b);
    vstd::arithmetic::div_mod::lemma_mod_bound(a, b);
    if a % b == 0 && p / b == a / b {
        assert(false);
    }
}

proof fn lemma_cell(a: int, b: int, p: int, k: int)
    requires
        0 <= p < a,
        0 < b,
        0 <= k,
    ensures
        (k * b <= p < k * b + smaller(b, a - k * b)) <==> k == p / b,
{
    vstd::arithmetic::div_mod::lemma_fundamental_div_mod(p, b);
    vstd::arithmetic::div_mod::lemma_mod_bound(p, b);
    let q = p / b;
    assert(b * q == q * b) by (nonlinear_arith);
    if k < q {
        assert(k * b + b <= q * b) by (nonlinear_arith)
            requires
                k + 1 <= q,
                0 < b,
        ;
    } else if k > q {
        assert(q * b + b <= k * b) by (nonlinear_arith)
            requires
                q + 1 <= k,
                0 < b,
        ;
    }
}

/// Whether the records of a header can be read up to `at`, from `from` on,
/// so that `at` is before one of them or behind the last.
pub open spec fn between_records(header: Seq<u8>, from: int, at: int) -> bool
    decreases header.len() - from,
{
    if from == at {
        0 <= at <= header.len()
    } else if from < 0 || from + 4 > header.len() || from + 4 + be16(header, from + 2)
        > header.len() {
        false
    } else {
        between_records(header, from + 4 + be16(header, from + 2), at)
    }
}

/// Whether some bytes are one record.
pub open spec fn is_record(bytes: Seq<u8>) -> bool {
    bytes.len() >= 4 && bytes.len() == 4 + be16(bytes, 2)
}

/// Bytes with others put in at `at`.
pub open spec fn with_inserted(bytes: Seq<u8>, at: int, more: Seq<u8>) -> Seq<u8> {
    bytes.take(at) + more + bytes.skip(at)
}

/// A range moved up.
pub open spec fn moved_range(data: Range<usize>, by: int) -> Range<usize> {
    span(data.start + by, data.end + by)
}

/// A plane whose data is moved up, with that of its bands.
pub open spec fn moved_plane(plane: PlaneModel, by: int) -> PlaneModel {
    PlaneModel {
        data: moved_range(plane.data, by),
        bands: Seq::new(
            plane.bands.len(),
            |i: int| Band { data: moved_range(plane.bands[i].data, by), ..plane.bands[i] },
        ),
        ..plane
    }
}

/// A tile whose data is moved up, with that of its planes.
pub open spec fn moved_tile(tile: TileModel, by: int) -> TileModel {
    TileModel {
        data: moved_range(tile.data, by),
        planes: Seq::new(tile.planes.len(), |i: int| moved_plane(tile.planes[i], by)),
        ..tile
    }
}

/// Tiles whose data is moved up.
pub open spec fn moved_tiles(tiles: Seq<TileModel>, by: int) -> Seq<TileModel> {
    Seq::new(tiles.len(), |i: int| moved_tile(tiles[i], by))
}

proof fn lemma_records_after(header: Seq<u8>, more: Seq<u8>, at: int, from: int)
    requires
        0 <= at <= from <= header.len(),
    ensures
        records_from(with_inserted(header, at, more), from + more.len()) == records_from(
            header,
            from,
        ),
    decreases header.len() - from,
{
    let longer = with_inserted(header, at, more);
    let by = more.len() as int;
    assert(forall|i: int| at <= i < header.len() ==> longer[i + by] == #[trigger] header[i]);
    if from + 4 <= header.len() {
        assert(header[from + 2] == longer[from + by + 2]);
        assert(header[from + 3] == longer[from + by + 3]);
        assert(header[from] == longer[from + by]);
        assert(header[from + 1] == longer[from + by + 1]);
        let end = from + 4 + be16(header, from + 2);
        if end <= header.len() {
            assert(longer.subrange(from + by + 4, end + by) =~= header.subrange(from + 4, end));
            lemma_records_after(header, more, at, end);
        }
    }
}

/// Which record the inserted one comes before.
proof fn lemma_records_with(header: Seq<u8>, more: Seq<u8>, at: int, from: int) -> (place: int)
    requires
        0 <= from <= at,
        between_records(header, from, at),
        is_record(more),
        records_from(header, from) is Some,
    ensures
        0 <= place <= records_from(header, from)->0.len(),
        at <= header.len(),
        records_from(with_inserted(header, at, more), from) == Some(
            records_from(header, from)->0.insert(
                place,
                RecordModel { tag: be16(more, 0), payload: more.skip(4) },
            ),
        ),
    decreases header.len() - from,
{
    let longer = with_inserted(header, at, more);
    let by = more.len() as int;
    let rest = records_from(header, from)->0;
    let record = RecordModel { tag: be16(more, 0), payload: more.skip(4) };
    if from == at {
        assert(longer[at] == more[0] && longer[at + 1] == more[1]);
        assert(longer[at + 2] == more[2] && longer[at + 3] == more[3]);
        assert(longer.subrange(at + 4, at + by) =~= more.skip(4));
        lemma_records_after(header, more, at, at);
        assert(seq![record] + rest =~= rest.insert(0, record));
        0
    } else {
        let end = from + 4 + be16(header, from + 2);
        lemma_between_grows(header, end, at);
        assert(longer[from] == header[from] && longer[from + 1] == header[from + 1]);
        assert(longer[from + 2] == header[from + 2] && longer[from + 3] == header[from + 3]);
        assert(longer.subrange(from + 4, end) =~= header.subrange(from + 4, end));
        let first = RecordModel {
            tag: be16(header, from),
            payload: header.subrange(from + 4, end),
        };
        let later = records_from(header, end)->0;
        let place = lemma_records_with(header, more, at, end);
        assert(rest == seq![first] + later);
        assert(seq![first] + later.insert(place, record) =~= rest.insert(place + 1, record));
        place + 1
    }
}

proof fn lemma_between_grows(header: Seq<u8>, from: int, at: int)
    requires
        between_records(header, from, at),
    ensures
        from <= at <= header.len(),
    decreases header.len() - from,
{
    if from != at {
        lemma_between_grows(header, from + 4 + be16(header, from + 2), at);
    }
}

/// Whether a tree is another with its data moved up. The places of the
/// next plane and the next band count only once there is a tile and a
/// plane to hold them.
#[verifier::opaque]
spec fn tree_moved(tree: Tree, other: Tree, by: int) -> bool {
    &&& other.tiles == moved_tiles(tree.tiles, by)
    &&& other.tile_at == tree.tile_at + by
    &&& tree.tiles.len() > 0 ==> other.plane_at == tree.plane_at + by
    &&& tree.tiles.len() > 0 && tree.tiles.last().planes.len() > 0 ==> other.band_at
        == tree.band_at + by
}

/// What of a tree's places it takes to move it up.
spec fn tree_bounded(tree: Tree, sample_len: int) -> bool {
    &&& 0 <= tree.tile_at
    &&& 0 <= tree.plane_at
    &&& 0 <= tree.band_at
    &&& tree.tiles.len() > 0 ==> tree.tiles.last().data.end <= sample_len && (
    tree.tiles.last().planes.len() > 0 ==> tree.tiles.last().planes.last().data.end <= sample_len)
}

proof fn lemma_tile_moves(
    header: ImageHeader,
    longer: ImageHeader,
    sample_len: int,
    tree: Tree,
    other: Tree,
    payload: Seq<u8>,
    by: int,
)
    requires
        by >= 0,
        sample_len + by <= usize::MAX,
        longer == (ImageHeader { mdat_header_size: longer.mdat_header_size, ..header }),
        tree_bounded(tree, sample_len),
        tree_moved(tree, other, by),
        with_tile(header, sample_len, tree, payload) is Ok,
    ensures
        with_tile(longer, sample_len + by, other, payload) is Ok,
        tree_moved(
            with_tile(header, sample_len, tree, payload)->Ok_0,
            with_tile(longer, sample_len + by, other, payload)->Ok_0,
            by,
        ),
{
    reveal(tree_moved);
    let next = with_tile(header, sample_len, tree, payload)->Ok_0;
    let moved = with_tile(longer, sample_len + by, other, payload)->Ok_0;
    assert(longer.columns() == header.columns() && longer.rows() == header.rows());
    assert(moved.tiles.last() =~= moved_tile(next.tiles.last(), by));
    assert(moved.tiles =~= moved_tiles(next.tiles, by));
}

proof fn lemma_plane_moves(
    sample_len: int,
    tree: Tree,
    other: Tree,
    payload: Seq<u8>,
    by: int,
)
    requires
        by >= 0,
        sample_len + by <= usize::MAX,
        tree_bounded(tree, sample_len),
        tree_moved(tree, other, by),
        with_plane(tree, payload) is Ok,
    ensures
        with_plane(other, payload) is Ok,
        tree_moved(with_plane(tree, payload)->Ok_0, with_plane(other, payload)->Ok_0, by),
{
    reveal(tree_moved);
    let next = with_plane(tree, payload)->Ok_0;
    let tile = tree.tiles.last();
    assert(other.tiles.last() == moved_tile(tile, by));
    let moved = with_plane(other, payload)->Ok_0;
    let plane = next.tiles.last().planes.last();
    assert(moved.tiles.last().planes.last() =~= moved_plane(plane, by));
    assert(moved.tiles.last() =~= moved_tile(next.tiles.last(), by));
    assert(moved.tiles =~= moved_tiles(next.tiles, by));
}

proof fn lemma_band_moves(
    sample_len: int,
    tree: Tree,
    other: Tree,
    payload: Seq<u8>,
    by: int,
)
    requires
        by >= 0,
        sample_len + by <= usize::MAX,
        tree_bounded(tree, sample_len),
        tree_moved(tree, other, by),
        with_band(tree, payload) is Ok,
    ensures
        with_band(other, payload) is Ok,
        tree_moved(with_band(tree, payload)->Ok_0, with_band(other, payload)->Ok_0, by),
{
    reveal(tree_moved);
    let next = with_band(tree, payload)->Ok_0;
    let tile = tree.tiles.last();
    let plane = tile.planes.last();
    assert(other.tiles.last() == moved_tile(tile, by));
    assert(other.tiles.last().planes.last() == moved_plane(plane, by));
    let moved = with_band(other, payload)->Ok_0;
    let grown = next.tiles.last().planes.last();
    assert(moved.tiles.last().planes.last() =~= moved_plane(grown, by));
    assert(moved.tiles.last() =~= moved_tile(next.tiles.last(), by));
    assert(moved.tiles =~= moved_tiles(next.tiles, by));
}

/// One record more on both sides.
proof fn lemma_step_moves(
    header: ImageHeader,
    longer: ImageHeader,
    sample_len: int,
    records: Seq<RecordModel>,
    more: Seq<RecordModel>,
    k: nat,
    j: nat,
    by: int,
)
    requires
        header.well_formed(),
        by >= 0,
        sample_len + by <= usize::MAX,
        longer == (ImageHeader { mdat_header_size: longer.mdat_header_size, ..header }),
        header.mdat_header_size <= sample_len,
        k < records.len() <= usize::MAX,
        records[k as int] == more[j as int],
        tree_after(header, sample_len, records, k + 1) is Ok,
        tree_after(longer, sample_len + by, more, j) is Ok,
        tree_moved(
            tree_after(header, sample_len, records, k)->Ok_0,
            tree_after(longer, sample_len + by, more, j)->Ok_0,
            by,
        ),
    ensures
        tree_after(longer, sample_len + by, more, j + 1) is Ok,
        tree_moved(
            tree_after(header, sample_len, records, k + 1)->Ok_0,
            tree_after(longer, sample_len + by, more, j + 1)->Ok_0,
            by,
        ),
{
    lemma_tree_fits(header, sample_len, records, k);
    lemma_record_moves(
        header,
        longer,
        sample_len,
        tree_after(header, sample_len, records, k)->Ok_0,
        tree_after(longer, sample_len + by, more, j)->Ok_0,
        records[k as int],
        by,
    );
}

/// A record that is no node changes nothing.
proof fn lemma_step_skips(
    header: ImageHeader,
    sample_len: int,
    records: Seq<RecordModel>,
    k: nat,
)
    requires
        records[k as int].tag != dialect_tags(header.version).0,
        records[k as int].tag != dialect_tags(header.version).1,
        records[k as int].tag != dialect_tags(header.version).2,
        tree_after(header, sample_len, records, k) is Ok,
    ensures
        tree_after(header, sample_len, records, k + 1) == tree_after(
            header,
            sample_len,
            records,
            k,
        ),
{
    reveal(with_record);
}

/// Records up to the inserted one give a moved tree, and so do those
/// behind it.
proof fn lemma_tree_moves(
    header: ImageHeader,
    longer: ImageHeader,
    sample_len: int,
    records: Seq<RecordModel>,
    place: int,
    extra: RecordModel,
    n: nat,
    by: int,
)
    requires
        header.well_formed(),
        by >= 0,
        sample_len + by <= usize::MAX,
        longer == (ImageHeader { mdat_header_size: longer.mdat_header_size, ..header }),
        longer.mdat_header_size == header.mdat_header_size + by,
        header.mdat_header_size <= sample_len,
        0 <= place <= records.len() <= usize::MAX,
        n <= records.len(),
        extra.tag != dialect_tags(header.version).0,
        extra.tag != dialect_tags(header.version).1,
        extra.tag != dialect_tags(header.version).2,
        tree_after(header, sample_len, records, n) is Ok,
    ensures
        ({
            let more = records.insert(place, extra);
            let m = if n < place {
                n
            } else {
                n + 1
            };
            let moved = tree_after(longer, sample_len + by, more, m);
            &&& moved is Ok
            &&& tree_moved(tree_after(header, sample_len, records, n)->Ok_0, moved->Ok_0, by)
        }),
    decreases n,
{
    let more = records.insert(place, extra);
    assert(more[place] == extra);
    if n == 0 {
        let tree = tree_after(header, sample_len, records, 0)->Ok_0;
        let start = tree_after(longer, sample_len + by, more, 0)->Ok_0;
        assert(tree_moved(tree, start, by)) by {
            reveal(tree_moved);
            assert(moved_tiles(tree.tiles, by) =~= Seq::empty());
        }
    } else {
        let k = (n - 1) as nat;
        // The tree in front of this record, where the inserted one is
        // already read or still to come.
        let j = if k < place {
            k
        } else {
            k + 1
        };
        lemma_tree_moves(header, longer, sample_len, records, place, extra, k, by);
        assert(more[j as int] == records[k as int]);
        lemma_step_moves(header, longer, sample_len, records, more, k, j, by);
    }
    if n == place {
        lemma_step_skips(longer, sample_len + by, more, n);
    }
}

proof fn lemma_record_moves(
    header: ImageHeader,
    longer: ImageHeader,
    sample_len: int,
    tree: Tree,
    other: Tree,
    record: RecordModel,
    by: int,
)
    requires
        by >= 0,
        sample_len + by <= usize::MAX,
        longer == (ImageHeader { mdat_header_size: longer.mdat_header_size, ..header }),
        tree_fits(header, sample_len, tree),
        tree_moved(tree, other, by),
        with_record(header, sample_len, tree, record) is Ok,
    ensures
        with_record(longer, sample_len + by, other, record) is Ok,
        tree_moved(
            with_record(header, sample_len, tree, record)->Ok_0,
            with_record(longer, sample_len + by, other, record)->Ok_0,
            by,
        ),
{
    assert(tree_bounded(tree, sample_len)) by {
        if tree.tiles.len() > 0 {
            let tile = tree.tiles.last();
            let start = header.mdat_header_size as int;
            assert(tile_follows(tree.tiles, tree.tiles.len() - 1, start, sample_len));
            if tile.planes.len() > 0 {
                assert(plane_follows(tile, tile.planes.len() - 1));
            }
        }
    }
    reveal(with_record);
    let (tile_tag, plane_tag, band_tag) = dialect_tags(header.version);
    if record.tag == tile_tag {
        lemma_tile_moves(header, longer, sample_len, tree, other, record.payload, by);
    } else if record.tag == plane_tag {
        lemma_plane_moves(sample_len, tree, other, record.payload, by);
    } else if record.tag == band_tag {
        lemma_band_moves(sample_len, tree, other, record.payload, by);
    }
}

proof fn lemma_planes_keep_shape(
    header: ImageHeader,
    longer: ImageHeader,
    planes: Seq<PlaneModel>,
    others: Seq<PlaneModel>,
    by: int,
    n: nat,
)
    requires
        longer.levels == header.levels,
        n <= planes.len(),
        others == Seq::new(planes.len(), |i: int| moved_plane(planes[i], by)),
        plane_fault(header, planes, n) is None,
    ensures
        plane_fault(longer, others, n) is None,
    decreases n,
{
    if n > 0 {
        lemma_planes_keep_shape(header, longer, planes, others, by, (n - 1) as nat);
    }
}

proof fn lemma_tiles_keep_shape(
    header: ImageHeader,
    longer: ImageHeader,
    tiles: Seq<TileModel>,
    by: int,
    n: nat,
)
    requires
        longer.levels == header.levels,
        longer.planes == header.planes,
        n <= tiles.len(),
        shape_fault(header, tiles, n) is None,
    ensures
        shape_fault(longer, moved_tiles(tiles, by), n) is None,
    decreases n,
{
    if n > 0 {
        lemma_tiles_keep_shape(header, longer, tiles, by, (n - 1) as nat);
        let (planes, others) = (tiles[n - 1].planes, moved_tiles(tiles, by)[n - 1].planes);
        lemma_planes_keep_shape(header, longer, planes, others, by, planes.len());
    }
}

/// A record that is no node of the tree changes nothing but where the data
/// is: put in before any record of a header that was read, or behind the
/// last, and counted in the header's size, it gives the same tree with
/// every range moved up by its length.
pub proof fn law_an_unknown_record_only_moves_the_data(
    header: ImageHeader,
    sample: Seq<u8>,
    at: int,
    record: Seq<u8>,
)
    requires
        header.well_formed(),
        sample.len() + record.len() <= usize::MAX,
        tile_tree(header, sample) is Ok,
        0 <= at,
        between_records(sample.take(header.mdat_header_size as int), 0, at),
        is_record(record),
        be16(record, 0) != dialect_tags(header.version).0,
        be16(record, 0) != dialect_tags(header.version).1,
        be16(record, 0) != dialect_tags(header.version).2,
    ensures
        tile_tree(
            (ImageHeader {
                mdat_header_size: (header.mdat_header_size + record.len()) as usize,
                ..header
            }),
            with_inserted(sample, at, record),
        ) == Outcome::<Seq<TileModel>>::Ok(
            moved_tiles(tile_tree(header, sample)->Ok_0, record.len() as int),
        ),
{
    let by = record.len() as int;
    let size = header.mdat_header_size as int;
    let longer = ImageHeader { mdat_header_size: (size + by) as usize, ..header };
    let head = sample.take(size);
    let whole = with_inserted(sample, at, record);
    lemma_between_grows(head, 0, at);
    assert(whole.len() == sample.len() + by);
    assert(whole.take(size + by) =~= with_inserted(head, at, record));
    let records = records_from(head, 0)->0;
    let extra = RecordModel { tag: be16(record, 0), payload: record.skip(4) };
    let place = lemma_records_with(head, record, at, 0);
    lemma_records_short(head, 0);
    lemma_tree_moves(
        header,
        longer,
        sample.len() as int,
        records,
        place,
        extra,
        records.len(),
        by,
    );
    let tiles = tile_tree(header, sample)->Ok_0;
    reveal(tree_moved);
    assert(longer.columns() == header.columns() && longer.rows() == header.rows());
    lemma_tiles_keep_shape(header, longer, tiles, by, tiles.len());
}

/// The bands in the first `n` planes.
pub open spec fn plane_bands(planes: Seq<PlaneModel>, n: nat) -> int
    decreases n,
{
    if n == 0 {
        0
    } else {
        plane_bands(planes, (n - 1) as nat) + planes[n - 1].bands.len()
    }
}

/// The bands in the first `n` tiles.
pub open spec fn tile_bands(tiles: Seq<TileModel>, n: nat) -> int
    decreases n,
{
    if n == 0 {
        0
    } else {
        tile_bands(tiles, (n - 1) as nat) + plane_bands(tiles[n - 1].planes, tiles[n
            - 1].planes.len())
    }
}

/// Why a sample cannot be decoded: a header that does not describe itself
/// is corrupt, anything else meets the entropy coder, which is not read.
pub open spec fn decode_fault(header: ImageHeader, sample: Seq<u8>) -> Fault {
    match tile_tree(header, sample) {
        Err(fault) => fault,
        Ok(tiles) => Fault::Unsupported(
            "the CRX entropy coder (v"@ + decimal(header.version as int) + ", "@ + decimal(
                header.levels as int,
            ) + " wavelet levels, "@ + decimal(tiles.len() as int) + " tile(s), "@ + decimal(
                tile_bands(tiles, tiles.len()),
            ) + " bands): the container and every header are read, the coefficients are not"@,
        ),
    }
}

proof fn lemma_plane_bands_same(a: Seq<PlaneModel>, b: Seq<PlaneModel>, n: nat)
    requires
        n <= a.len(),
        n <= b.len(),
        forall|j: int| 0 <= j < n ==> a[j] == b[j],
    ensures
        plane_bands(a, n) == plane_bands(b, n),
    decreases n,
{
    if n > 0 {
        lemma_plane_bands_same(a, b, (n - 1) as nat);
    }
}

proof fn lemma_tile_bands_same(a: Seq<TileModel>, b: Seq<TileModel>, n: nat)
    requires
        n <= a.len(),
        n <= b.len(),
        forall|i: int| 0 <= i < n ==> a[i] == b[i],
    ensures
        tile_bands(a, n) == tile_bands(b, n),
    decreases n,
{
    if n > 0 {
        lemma_tile_bands_same(a, b, (n - 1) as nat);
    }
}

proof fn lemma_plane_bands_grow(planes: Seq<PlaneModel>, a: nat, b: nat)
    requires
        a <= b,
    ensures
        0 <= plane_bands(planes, a) <= plane_bands(planes, b),
    decreases b,
{
    if a < b {
        lemma_plane_bands_grow(planes, a, (b - 1) as nat);
    } else if b > 0 {
        lemma_plane_bands_grow(planes, (a - 1) as nat, (b - 1) as nat);
    }
}

proof fn lemma_tile_bands_grow(tiles: Seq<TileModel>, a: nat, b: nat)
    requires
        a <= b,
    ensures
        0 <= tile_bands(tiles, a) <= tile_bands(tiles, b),
    decreases b,
{
    if a < b {
        lemma_tile_bands_grow(tiles, a, (b - 1) as nat);
        lemma_plane_bands_grow(tiles[b - 1].planes, 0, tiles[b - 1].planes.len());
    } else if b > 0 {
        lemma_tile_bands_grow(tiles, (a - 1) as nat, (b - 1) as nat);
        lemma_plane_bands_grow(tiles[b - 1].planes, 0, tiles[b - 1].planes.len());
    }
}

/// Every band has a record of its own.
proof fn lemma_bands_have_records(
    header: ImageHeader,
    sample_len: int,
    records: Seq<RecordModel>,
    n: nat,
)
    requires
        n <= records.len(),
    ensures
        tree_after(header, sample_len, records, n) matches Ok(tree) ==> tile_bands(
            tree.tiles,
            tree.tiles.len(),
        ) <= n,
    decreases n,
{
    reveal(with_record);
    if n > 0 {
        lemma_bands_have_records(header, sample_len, records, (n - 1) as nat);
        if let Ok(tree) = tree_after(header, sample_len, records, (n - 1) as nat) {
            if let Ok(next) = with_record(header, sample_len, tree, records[n - 1]) {
                let (old_tiles, tiles) = (tree.tiles, next.tiles);
                let (tile_tag, plane_tag, band_tag) = dialect_tags(header.version);
                if tiles.len() > 0 {
                    let k = (tiles.len() - 1) as nat;
                    lemma_tile_bands_same(tiles, old_tiles, k);
                    let planes = tiles.last().planes;
                    if old_tiles.len() > 0 && planes.len() > 0 {
                        let old_planes = old_tiles.last().planes;
                        let m = (planes.len() - 1) as nat;
                        lemma_plane_bands_same(planes, old_planes, m);
                    }
                }
            }
        }
    }
}

/// Decodes one CRX sample into the full frame, row by row. The tree is
/// read even though the coefficients are out of reach, so that a file
/// whose header does not describe itself is reported as the corruption it
/// is rather than as an unsupported variant.
pub fn decode(header: &ImageHeader, sample: &[u8]) -> (r: Result<Vec<u16>>)
    requires
        header.well_formed(),
    ensures
        r matches Err(e) && e@ == decode_fault(*header, sample@),
{
    let tiles = match parse_tiles(header, sample) {
        Ok(tiles) => tiles,
        Err(e) => return Err(e),
    };
    let ghost models = tile_models(tiles@);
    proof {
        assert(sample@.len() == sample.len());
        let head = sample@.take(header.mdat_header_size as int);
        let list = records_from(head, 0)->Some_0;
        lemma_records_short(head, 0);
        lemma_bands_have_records(*header, sample@.len() as int, list, list.len());
    }
    let mut bands: usize = 0;
    let mut i: usize = 0;
    while i < tiles.len()
        invariant
            i <= tiles@.len(),
            models == tile_models(tiles@),
            tile_bands(models, models.len()) <= usize::MAX,
            bands == tile_bands(models, i as nat),
        decreases tiles@.len() - i,
    {
        let tile = &tiles[i];
        assert(models[i as int] == tile@);
        let ghost planes = models[i as int].planes;
        let ghost start = bands;
        proof {
            lemma_tile_bands_grow(models, (i + 1) as nat, models.len());
        }
        let mut j: usize = 0;
        while j < tile.planes.len()
            invariant
                j <= tile.planes@.len(),
                planes == tile@.planes,
                start + plane_bands(planes, planes.len()) <= usize::MAX,
                bands == start + plane_bands(planes, j as nat),
            decreases tile.planes@.len() - j,
        {
            assert(planes[j as int] == tile.planes@[j as int]@);
            proof {
                lemma_plane_bands_grow(planes, (j + 1) as nat, planes.len());
            }
            bands = bands + tile.planes[j].bands.len();
            j = j + 1;
        }
        i = i + 1;
    }
    let mut text = "the CRX entropy coder (v".to_string();
    push_decimal(&mut text, header.version as u64);
    text.append(", ");
    push_decimal(&mut text, header.levels as u64);
    text.append(" wavelet levels, ");
    push_decimal(&mut text, tiles.len() as u64);
    text.append(" tile(s), ");
    push_decimal(&mut text, bands as u64);
    text.append(
        " bands): the container and every header are read, the coefficients are not",
    );
    Err(Error::Unsupported(text))
}

} // verus!
