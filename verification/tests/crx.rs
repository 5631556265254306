use schist::raw::formats::crx::{parse_tiles, ImageHeader};
use schist::raw::Error;

/// A CMP1 payload shaped like the ones real files carry.
fn cmp1(version: u8, w: u32, h: u32, tw: u32, th: u32, levels: u8, hdr: u32) -> Vec<u8> {
    let mut p = vec![0u8; 52];
    p[0..2].copy_from_slice(&0xff00u16.to_be_bytes());
    p[2..4].copy_from_slice(&0x0030u16.to_be_bytes());
    p[4] = version;
    p[8..12].copy_from_slice(&w.to_be_bytes());
    p[12..16].copy_from_slice(&h.to_be_bytes());
    p[16..20].copy_from_slice(&tw.to_be_bytes());
    p[20..24].copy_from_slice(&th.to_be_bytes());
    p[24] = 14;
    p[25] = 0x40;
    p[26] = levels;
    p[28..32].copy_from_slice(&hdr.to_be_bytes());
    p
}

fn record(tag: u16, payload: &[u8]) -> Vec<u8> {
    let mut out = tag.to_be_bytes().to_vec();
    out.extend_from_slice(&(payload.len() as u16).to_be_bytes());
    out.extend_from_slice(payload);
    out
}

fn sizes(size: u32, flags: u32) -> Vec<u8> {
    let mut out = size.to_be_bytes().to_vec();
    out.extend_from_slice(&flags.to_be_bytes());
    out
}

#[test]
fn image_header_fields() {
    let header = ImageHeader::parse(&cmp1(1, 6888, 4546, 3444, 4546, 0, 216)).unwrap();
    assert_eq!(header.version, 1);
    assert_eq!((header.width, header.height), (6888, 4546));
    assert_eq!(header.tile_grid(), (2, 1));
    assert_eq!(header.bits, 14);
    assert_eq!(header.planes, 4);
    assert_eq!(header.bands(), 1);
    let lossy = ImageHeader::parse(&cmp1(1, 6888, 4546, 3444, 4546, 3, 1080)).unwrap();
    assert_eq!(lossy.bands(), 10);
}

#[test]
fn a_short_or_impossible_cmp1_is_corrupt() {
    assert!(ImageHeader::parse(&[0u8; 8]).is_err());
    assert!(ImageHeader::parse(&cmp1(1, 0, 4546, 3444, 4546, 0, 216)).is_err());
    let mut deep = cmp1(1, 100, 100, 100, 100, 0, 16);
    deep[24] = 0;
    assert!(ImageHeader::parse(&deep).is_err());
}

#[test]
fn tiles_planes_and_bands_tile_their_parents() {
    // Two tiles of four planes, one band each: the shape of a
    // lossless EOS R frame, in miniature.
    let mut hdr = Vec::new();
    for tile in 0..2u32 {
        hdr.extend(record(0xff01, &sizes(40, tile << 16)));
        for plane in 0..4u32 {
            hdr.extend(record(0xff02, &sizes(10, 0x0800_0000 | (plane << 28))));
            hdr.extend(record(0xff03, &sizes(10, 0x0020_0000)));
        }
    }
    let header = ImageHeader::parse(&cmp1(1, 8, 4, 4, 4, 0, hdr.len() as u32)).unwrap();
    let mut sample = hdr.clone();
    sample.extend(std::iter::repeat_n(0u8, 80));
    let tiles = parse_tiles(&header, &sample).unwrap();
    assert_eq!(tiles.len(), 2);
    assert_eq!(tiles[0].data, hdr.len()..hdr.len() + 40);
    assert_eq!(tiles[1].data, hdr.len() + 40..hdr.len() + 80);
    assert_eq!(tiles[1].col, 1);
    assert_eq!(tiles[0].planes[1].data, hdr.len() + 10..hdr.len() + 20);
    assert!(tiles[0].planes[0].extra_flag);
    assert_eq!(tiles[0].planes[0].bands[0].q_step, 32);
    assert_eq!(
        tiles[0].planes[3].bands[0].data,
        hdr.len() + 30..hdr.len() + 40
    );
}

#[test]
fn a_header_that_does_not_add_up_is_rejected() {
    let header = ImageHeader::parse(&cmp1(1, 8, 4, 4, 4, 0, 12)).unwrap();
    // One tile record for a two-tile grid.
    let hdr = record(0xff01, &sizes(8, 0));
    let mut sample = hdr.clone();
    sample.extend([0u8; 8]);
    assert!(parse_tiles(&header, &sample).is_err());
    // A tile bigger than the sample.
    let hdr = record(0xff01, &sizes(1 << 20, 0));
    let mut sample = hdr.clone();
    sample.extend([0u8; 8]);
    assert!(parse_tiles(&header, &sample).is_err());
    // A header longer than the sample it describes.
    let header = ImageHeader::parse(&cmp1(1, 8, 4, 8, 4, 0, 1 << 20)).unwrap();
    assert!(parse_tiles(&header, &[0u8; 32]).is_err());
}

#[test]
fn an_unknown_record_dialect_is_unsupported() {
    let header = ImageHeader::parse(&cmp1(7, 8, 4, 8, 4, 0, 0)).unwrap();
    assert!(matches!(
        parse_tiles(&header, &[0u8; 8]),
        Err(Error::Unsupported(_))
    ));
}

#[test]
fn a_record_of_another_kind_only_moves_the_data() {
    let mut records = Vec::new();
    for tile in 0..2u32 {
        records.push(record(0xff01, &sizes(40, tile << 16)));
        for plane in 0..4u32 {
            records.push(record(0xff02, &sizes(10, plane << 28)));
            records.push(record(0xff03, &sizes(10, 0x0020_0000)));
        }
    }
    let data = [0u8; 80];
    let plain = records.concat();
    let header = ImageHeader::parse(&cmp1(1, 8, 4, 4, 4, 0, plain.len() as u32)).unwrap();
    let tiles = parse_tiles(&header, &[&plain[..], &data].concat()).unwrap();
    // Neither the tags of the other dialect nor any other are known here.
    for extra in [record(0x1234, &[1, 2, 3]), record(0xff12, &[]), record(0, &[9; 300])] {
        for place in 0..=records.len() {
            let mut more = records.clone();
            more.insert(place, extra.clone());
            let longer = more.concat();
            let header = ImageHeader { mdat_header_size: longer.len(), ..header };
            let found = parse_tiles(&header, &[&longer[..], &data].concat()).unwrap();
            let by = extra.len();
            let mut moved = tiles.clone();
            for tile in &mut moved {
                tile.data = tile.data.start + by..tile.data.end + by;
                for plane in &mut tile.planes {
                    plane.data = plane.data.start + by..plane.data.end + by;
                    for band in &mut plane.bands {
                        band.data = band.data.start + by..band.data.end + by;
                    }
                }
            }
            assert_eq!(found, moved);
            assert_ne!(found, tiles);
        }
    }
}
