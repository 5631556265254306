use schist::color::{ColorMode, Depth};
use schist::geom::IntRect;
use schist::psd::cursor::Cursor;
use schist::psd::header::parse_header;
use schist::psd::image_data::{background_planes, parse_image_data};
use schist::psd::is_psd;
use schist::psd::pixels::{fill_mask_tiles, fill_tiles, ColorPlanes};
use schist::psd::reader::{read_psd, LayerSection};
use schist::psd::resources::{kept_resources, parse_image_resources, COLOR_MODE_DATA_SENTINEL_ID};
use schist::psd::rle::pack_row;
use schist::psd::PsdError;
use schist::tile::{TileCoord, TileGrid};

#[test]
fn is_psd_signature_check() {
    assert!(is_psd(b"8BPS\x00\x01rest"));
    assert!(is_psd(b"8BPS")); // exactly the magic is enough for a probe
    assert!(!is_psd(b"8BP"));
    assert!(!is_psd(b"9BPS\x00\x01"));
    assert!(!is_psd(b""));
}

fn header(version: u16, channels: u16, width: u32, height: u32, bits: u16, mode: u16) -> Vec<u8> {
    let mut out = b"8BPS".to_vec();
    out.extend_from_slice(&version.to_be_bytes());
    out.extend_from_slice(&[0; 6]);
    out.extend_from_slice(&channels.to_be_bytes());
    out.extend_from_slice(&height.to_be_bytes());
    out.extend_from_slice(&width.to_be_bytes());
    out.extend_from_slice(&bits.to_be_bytes());
    out.extend_from_slice(&mode.to_be_bytes());
    out
}

fn block(id: u16, name: &[u8], data: &[u8]) -> Vec<u8> {
    let mut out = b"8BIM".to_vec();
    out.extend_from_slice(&id.to_be_bytes());
    out.push(name.len() as u8);
    out.extend_from_slice(name);
    if name.len() % 2 == 0 {
        out.push(0);
    }
    out.extend_from_slice(&(data.len() as u32).to_be_bytes());
    out.extend_from_slice(data);
    if data.len() % 2 == 1 {
        out.push(0);
    }
    out
}

fn why(e: PsdError) -> String {
    e.message()
}

#[test]
fn the_cursor_reads_big_endian_numbers() {
    let bytes = [1, 2, 3, 0xff, 0xfe, 0, 0, 1, 0, 0xff, 0xff, 0xff, 0xfd, 0, 0, 0, 0, 0, 0, 1, 2];
    let mut cur = Cursor::new(&bytes);
    assert_eq!(cur.u8().unwrap(), 1);
    assert_eq!(cur.u16().unwrap(), 0x0203);
    assert_eq!(cur.i16().unwrap(), -2);
    assert_eq!(cur.u32().unwrap(), 256);
    assert_eq!(cur.i32().unwrap(), -3);
    assert_eq!(cur.u64().unwrap(), 258);
    assert!(cur.is_empty());
    assert!(matches!(cur.u8(), Err(PsdError::Truncated { .. })));
}

#[test]
fn a_cursor_over_a_part_counts_from_its_start() {
    let bytes = [1, 2, 3, 4, 5];
    let mut cur = Cursor::new(&bytes);
    cur.skip(1).unwrap();
    let mut part = cur.sub(2).unwrap();
    assert_eq!(part.remaining(), 2);
    assert_eq!(part.take(2).unwrap(), [2, 3]);
    assert!(part.is_empty());
    assert_eq!(cur.remaining(), 2);
    match cur.take(5) {
        Err(PsdError::Truncated { offset, needed }) => assert_eq!((offset, needed), (3, 3)),
        other => panic!("{other:?}"),
    }
    assert_eq!(cur.checked_len(2).unwrap(), 2);
    assert!(cur.checked_len(3).is_err());
}

#[test]
fn lengths_widen_in_large_documents() {
    let bytes = [0, 0, 0, 5, 0, 0, 0, 7];
    assert_eq!(Cursor::new(&bytes).len_psb(false).unwrap(), 5);
    assert_eq!(Cursor::new(&bytes).len_psb(true).unwrap(), 0x5_0000_0007);
    assert_eq!(Cursor::new(&bytes[2..]).len_rle_row(false).unwrap(), 5);
    assert_eq!(Cursor::new(&bytes).len_rle_row(true).unwrap(), 5);
    assert_eq!(Cursor::new(b"8BIMx").sig4().unwrap(), *b"8BIM");
}

#[test]
fn a_header_says_what_the_document_is() {
    let bytes = header(1, 3, 640, 480, 8, 3);
    let h = parse_header(&mut Cursor::new(&bytes)).unwrap();
    assert!(!h.psb);
    assert_eq!((h.channels, h.width, h.height), (3, 640, 480));
    assert_eq!((h.depth, h.mode), (Depth::Eight, ColorMode::Rgb));
    assert_eq!(h.base_channels(), 3);
    let bytes = header(2, 1, 200_000, 1, 16, 1);
    let h = parse_header(&mut Cursor::new(&bytes)).unwrap();
    assert!(h.psb);
    assert_eq!((h.depth, h.mode), (Depth::Sixteen, ColorMode::Grayscale));
}

#[test]
fn headers_out_of_range_are_refused_by_name() {
    let refused = |bytes: &[u8]| why(parse_header(&mut Cursor::new(bytes)).unwrap_err());
    assert_eq!(
        refused(b"9BPS"),
        "not a PSD/PSB file: missing 8BPS signature"
    );
    assert_eq!(
        refused(&header(3, 3, 1, 1, 8, 3)),
        "corrupt PSD data: unknown PSD version 3"
    );
    assert_eq!(
        refused(&header(1, 0, 1, 1, 8, 3)),
        "corrupt PSD data: channel count 0 out of range 1..=56"
    );
    assert_eq!(
        refused(&header(1, 57, 1, 1, 8, 3)),
        "corrupt PSD data: channel count 57 out of range 1..=56"
    );
    assert_eq!(
        refused(&header(1, 3, 30_001, 9, 8, 3)),
        "corrupt PSD data: dimensions 30001x9 out of range 1..=30000"
    );
    assert!(parse_header(&mut Cursor::new(&header(2, 3, 300_000, 9, 8, 3))).is_ok());
    assert!(matches!(
        parse_header(&mut Cursor::new(&header(1, 3, 1, 1, 1, 3))),
        Err(PsdError::Unsupported(_))
    ));
    assert!(matches!(
        parse_header(&mut Cursor::new(&header(1, 3, 1, 1, 8, 99))),
        Err(PsdError::Corrupt(_)) | Err(PsdError::Unsupported(_))
    ));
    let whole = header(1, 3, 1, 1, 8, 3);
    for n in 4..whole.len() {
        assert!(matches!(
            parse_header(&mut Cursor::new(&whole[..n])),
            Err(PsdError::Truncated { .. })
        ));
    }
}

#[test]
fn only_rgb_and_grayscale_are_read() {
    // A 1x1 8-bit CMYK header, byte for byte.
    let cmyk = [
        56, 66, 80, 83, 0, 1, 0, 0, 0, 0, 0, 0, 0, 4, 0, 0, 0, 1, 0, 0, 0, 1, 0, 8, 0, 4,
    ];
    assert!(matches!(
        parse_header(&mut Cursor::new(&cmyk)),
        Err(PsdError::Unsupported(_))
    ));
    let modes = [
        (0, "Bitmap"),
        (2, "Indexed"),
        (4, "CMYK"),
        (7, "Multichannel"),
        (8, "Duotone"),
        (9, "Lab"),
    ];
    for (number, name) in modes {
        let e = parse_header(&mut Cursor::new(&header(1, 4, 1, 1, 8, number))).unwrap_err();
        assert_eq!(
            why(e),
            format!(
                "unsupported PSD feature: {name} color mode is not supported yet \
                 (only RGB and Grayscale)"
            )
        );
    }
    assert_eq!(
        why(parse_header(&mut Cursor::new(&header(1, 4, 1, 1, 8, 5))).unwrap_err()),
        "corrupt PSD data: unknown color mode 5"
    );
    for (number, mode) in [(1, ColorMode::Grayscale), (3, ColorMode::Rgb)] {
        let h = parse_header(&mut Cursor::new(&header(1, 4, 1, 1, 8, number))).unwrap();
        assert_eq!(h.mode, mode);
    }
}

#[test]
fn resources_are_kept_and_two_are_interpreted() {
    let mut section = block(0x03ED, b"", &[0, 72, 0x80, 0, 0, 1]);
    section.extend(block(0x040F, b"icc", &[9, 8, 7]));
    section.extend(block(1000, b"ab", &[]));
    let mut bytes = (section.len() as u32).to_be_bytes().to_vec();
    bytes.extend_from_slice(&section);
    bytes.push(0xEE);
    let mut cur = Cursor::new(&bytes);
    let r = parse_image_resources(&mut cur).unwrap();
    assert_eq!(cur.remaining(), 1);
    assert_eq!(r.resolution, Some((72 << 16) | 0x8000));
    assert_eq!(r.icc_profile, Some(vec![9, 8, 7]));
    assert_eq!(r.preserved.len(), 3);
    assert_eq!(r.preserved[1].id, 0x040F);
    // The name keeps its length byte and its padding.
    assert_eq!(r.preserved[1].name, vec![3, b'i', b'c', b'c']);
    assert_eq!(r.preserved[2].name, vec![2, b'a', b'b', 0]);
    // Each block holds the bytes of the section as they stand.
    let written: Vec<u8> = r
        .preserved
        .iter()
        .flat_map(|p| {
            let mut out = b"8BIM".to_vec();
            out.extend_from_slice(&p.id.to_be_bytes());
            out.extend_from_slice(&p.name);
            out.extend_from_slice(&(p.data.len() as u32).to_be_bytes());
            out.extend_from_slice(&p.data);
            if p.data.len() % 2 == 1 {
                out.push(0);
            }
            out
        })
        .collect();
    assert_eq!(written, section);
}

#[test]
fn a_foreign_resource_signature_is_corrupt() {
    let mut bytes = 4u32.to_be_bytes().to_vec();
    bytes.extend_from_slice(&[1, 2, 3, 4]);
    let e = parse_image_resources(&mut Cursor::new(&bytes)).unwrap_err();
    assert_eq!(
        why(e),
        "corrupt PSD data: image resource signature [1, 2, 3, 4] is not 8BIM"
    );
}

#[test]
fn colour_mode_data_is_kept_first() {
    let kept = kept_resources(vec![1, 2], Vec::new());
    assert_eq!(kept.len(), 1);
    assert_eq!(kept[0].id, COLOR_MODE_DATA_SENTINEL_ID);
    assert_eq!(kept[0].name, b"colormodedata");
    assert_eq!(kept[0].data, vec![1, 2]);
    assert!(kept_resources(Vec::new(), Vec::new()).is_empty());
}

#[test]
fn merged_images_are_planar() {
    let bytes = header(1, 2, 2, 1, 8, 1);
    let h = parse_header(&mut Cursor::new(&bytes)).unwrap();
    let mut cur = Cursor::new(&[0, 0, 1, 2, 3, 4]);
    let planes = parse_image_data(&mut cur, &h).unwrap().unwrap().planes;
    assert_eq!(planes, vec![vec![1, 2], vec![3, 4]]);
    // The same, packed: both rows' counts first.
    let mut cur = Cursor::new(&[0, 1, 0, 3, 0, 2, 1, 1, 2, 0xFF, 7]);
    let planes = parse_image_data(&mut cur, &h).unwrap().unwrap().planes;
    assert_eq!(planes, vec![vec![1, 2], vec![7, 7]]);
    assert!(parse_image_data(&mut Cursor::new(&[]), &h).unwrap().is_none());
    assert_eq!(
        why(parse_image_data(&mut Cursor::new(&[0, 2]), &h).unwrap_err()),
        "unsupported PSD feature: zip-compressed merged image data (method 2)"
    );
    assert_eq!(
        why(parse_image_data(&mut Cursor::new(&[0, 9]), &h).unwrap_err()),
        "corrupt PSD data: unknown image data compression 9"
    );
    assert!(matches!(
        parse_image_data(&mut Cursor::new(&[0, 0, 1]), &h),
        Err(PsdError::Truncated { .. })
    ));
}

#[test]
fn backgrounds_know_their_planes() {
    let rgb = parse_header(&mut Cursor::new(&header(1, 4, 1, 1, 8, 3))).unwrap();
    let planes = background_planes(&rgb, true);
    assert_eq!((planes.red, planes.green, planes.blue), (0, 1, 2));
    assert_eq!(planes.alpha, Some(3));
    assert_eq!(background_planes(&rgb, false).alpha, None);
    let gray = parse_header(&mut Cursor::new(&header(1, 1, 1, 1, 8, 1))).unwrap();
    let planes = background_planes(&gray, true);
    assert_eq!((planes.red, planes.blue, planes.alpha), (0, 0, None));
}

fn flat_file() -> Vec<u8> {
    let mut bytes = header(1, 3, 1, 2, 8, 3);
    bytes.extend_from_slice(&[0, 0, 0, 0]); // no colour mode data
    let section = block(0x03ED, b"", &[0, 72, 0, 0]);
    bytes.extend_from_slice(&(section.len() as u32).to_be_bytes());
    bytes.extend_from_slice(&section);
    bytes.extend_from_slice(&[0, 0, 0, 0]); // an empty layer section
    bytes.extend_from_slice(&[0, 0, 1, 2, 3, 4, 5, 6]);
    bytes
}

#[test]
fn a_flat_file_has_a_background() {
    let bytes = flat_file();
    let layers = LayerSection { any: false, merged_alpha: false, size: 4 };
    let file = read_psd(&bytes, Ok(layers)).unwrap();
    assert_eq!((file.header.width, file.header.height), (1, 2));
    assert_eq!(file.resolution, Some(72 << 16));
    assert_eq!(file.resources.len(), 1);
    assert_eq!(
        file.background.unwrap().planes,
        vec![vec![1, 2], vec![3, 4], vec![5, 6]]
    );
    assert_eq!(file.planes.unwrap().blue, 2);
}

#[test]
fn a_layered_file_needs_no_background() {
    let bytes = flat_file();
    let layers = LayerSection { any: true, merged_alpha: false, size: 4 };
    let file = read_psd(&bytes, Ok(layers)).unwrap();
    assert!(file.background.is_none() && file.planes.is_none());
    let bad = PsdError::Corrupt("layers".to_string());
    assert!(matches!(read_psd(&bytes, Err(bad)), Err(PsdError::Corrupt(_))));
    for n in 0..40 {
        assert!(read_psd(&bytes[..n], Ok(LayerSection { any: true, merged_alpha: false, size: 4 })).is_err());
    }
}

#[test]
fn planes_fill_the_tiles_they_cover() {
    let mut tiles: TileGrid<Vec<[u8; 4]>> = TileGrid::new();
    let planes = ColorPlanes { r: Some(vec![1, 2, 3, 4]), g: None, b: Some(vec![9; 4]), a: None };
    assert!(!planes.is_empty());
    assert_eq!(planes.pixel(1, 0, 255), [2, 0, 9, 255]);
    // Two pixels either side of the border between two tiles, two rows.
    fill_tiles(&mut tiles, IntRect::new(255, 10, 257, 12), &planes, 0, 255);
    let left = tiles.get(TileCoord::containing(255, 10)).unwrap();
    let right = tiles.get(TileCoord::containing(256, 10)).unwrap();
    assert_eq!(left[10 * 256 + 255], [1, 0, 9, 255]);
    assert_eq!(left[11 * 256 + 255], [3, 0, 9, 255]);
    assert_eq!(right[10 * 256], [2, 0, 9, 255]);
    assert_eq!(right[11 * 256], [4, 0, 9, 255]);
    assert_eq!(left[0], [0, 0, 0, 0]);
    assert_eq!(left.len(), 65536);
    assert!(tiles.get(TileCoord::containing(0, 300)).is_none());
}

#[test]
fn tiles_that_do_not_show_are_taken_away() {
    let mut tiles: TileGrid<Vec<[u16; 4]>> = TileGrid::new();
    let mut alpha = vec![0u16; 600];
    alpha[599] = 1;
    let planes = ColorPlanes { r: Some(vec![5; 600]), g: None, b: None, a: Some(alpha) };
    fill_tiles(&mut tiles, IntRect::new(0, 0, 600, 1), &planes, 0, 65535);
    assert!(tiles.get(TileCoord { tx: 0, ty: 0 }).is_none());
    assert!(tiles.get(TileCoord { tx: 1, ty: 0 }).is_none());
    assert_eq!(tiles.get(TileCoord { tx: 2, ty: 0 }).unwrap()[87], [5, 0, 0, 1]);
}

#[test]
fn no_planes_fill_nothing() {
    let mut tiles: TileGrid<Vec<[u8; 4]>> = TileGrid::new();
    let planes: ColorPlanes<u8> = ColorPlanes { r: None, g: None, b: None, a: None };
    assert!(planes.is_empty());
    fill_tiles(&mut tiles, IntRect::new(0, 0, 2, 2), &planes, 0, 255);
    assert!(tiles.get(TileCoord::containing(0, 0)).is_none());
}

#[test]
fn masks_fill_by_rows() {
    let mut tiles: TileGrid<Vec<u8>> = TileGrid::new();
    fill_mask_tiles(&mut tiles, IntRect::new(-1, -1, 1, 1), &[1, 2, 3, 4]);
    assert_eq!(tiles.get(TileCoord::containing(-1, -1)).unwrap()[65535], 1);
    assert_eq!(tiles.get(TileCoord::containing(0, -1)).unwrap()[255 * 256], 2);
    assert_eq!(tiles.get(TileCoord::containing(-1, 0)).unwrap()[255], 3);
    assert_eq!(tiles.get(TileCoord::containing(0, 0)).unwrap()[0], 4);
}

#[test]
fn a_packed_merged_image_is_read_back() {
    for version in [1, 2] {
        let h = parse_header(&mut Cursor::new(&header(version, 3, 5, 2, 16, 3))).unwrap();
        let planes: Vec<Vec<u8>> = vec![
            vec![0; 20],
            (0..20).collect(),
            vec![1, 1, 1, 1, 2, 3, 3, 3, 4, 4, 9, 8, 7, 6, 5, 5, 5, 5, 5, 5],
        ];
        let rows: Vec<Vec<u8>> = planes.iter().flat_map(|p| p.chunks(10)).map(pack_row).collect();
        let mut src = vec![0, 1];
        for row in &rows {
            if h.psb {
                src.extend_from_slice(&(row.len() as u32).to_be_bytes());
            } else {
                src.extend_from_slice(&(row.len() as u16).to_be_bytes());
            }
        }
        src.extend_from_slice(&rows.concat());
        let mut cur = Cursor::new(&src);
        let read = parse_image_data(&mut cur, &h).unwrap().unwrap();
        assert_eq!(read.planes, planes);
        assert!(cur.is_empty());
    }
}

#[test]
fn a_large_document_header_is_a_plain_one_that_may_be_larger() {
    let read = |bytes: &[u8]| parse_header(&mut Cursor::new(bytes));
    let plain = read(&header(1, 4, 30_000, 7, 16, 3)).unwrap();
    let large = read(&header(2, 4, 30_000, 7, 16, 3)).unwrap();
    assert!(!plain.psb && large.psb);
    assert_eq!((plain.channels, plain.width, plain.height), (4, 30_000, 7));
    assert_eq!((large.channels, large.width, large.height), (4, 30_000, 7));
    assert_eq!((plain.depth, plain.mode), (large.depth, large.mode));
    assert!(read(&header(1, 4, 30_001, 7, 16, 3)).is_err());
    assert_eq!(read(&header(2, 4, 300_000, 7, 16, 3)).unwrap().width, 300_000);
    for bad in [(57, 8, 3), (1, 9, 3), (1, 8, 4)] {
        let (channels, bits, mode) = bad;
        assert_eq!(
            why(read(&header(1, channels, 1, 1, bits, mode)).unwrap_err()),
            why(read(&header(2, channels, 1, 1, bits, mode)).unwrap_err())
        );
    }
}
