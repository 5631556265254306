use schist::raw::formats::rw2::{
    decode, decode_packed_blocks, decode_v6, decode_words, preview, Group, PanaBits, BLOCK, GROUP,
    JPEG_FROM_RAW, PANASONIC_BITS, PANASONIC_CFA, PANASONIC_COMPRESSION, RAW_DATA_OFFSET, RAW_FORMAT,
    SENSOR_BOTTOM, SENSOR_HEIGHT, SENSOR_LEFT, SENSOR_RIGHT, SENSOR_TOP, SENSOR_WIDTH, SPLIT,
};
use schist::raw::image::{Cfa, Orientation};
use schist::raw::Error;

/// A minimal RW2: the `IIU\0` signature and an IFD0 of Panasonic
/// tags, with `data` at the end as the sensor stream.
fn build(entries: &[(u16, u16, u32)], data: &[u8]) -> Vec<u8> {
    let mut entries = entries.to_vec();
    let ifd_at = 8usize;
    let data_at = ifd_at + 2 + (entries.len() + 1) * 12 + 4;
    entries.push((RAW_DATA_OFFSET, 4, data_at as u32));
    entries.sort_by_key(|e| e.0);
    let mut out = Vec::new();
    out.extend_from_slice(b"IIU\0");
    out.extend_from_slice(&(ifd_at as u32).to_le_bytes());
    out.extend_from_slice(&(entries.len() as u16).to_le_bytes());
    for (tag, kind, value) in &entries {
        out.extend_from_slice(&tag.to_le_bytes());
        out.extend_from_slice(&kind.to_le_bytes());
        out.extend_from_slice(&1u32.to_le_bytes());
        out.extend_from_slice(&value.to_le_bytes());
    }
    out.extend_from_slice(&0u32.to_le_bytes());
    assert_eq!(out.len(), data_at);
    out.extend_from_slice(data);
    out
}

fn sensor(width: u32, height: u32, format: Option<u32>, bits: u32) -> Vec<(u16, u16, u32)> {
    let mut out = vec![
        (SENSOR_WIDTH, 3, width),
        (SENSOR_HEIGHT, 3, height),
        (SENSOR_TOP, 3, 0),
        (SENSOR_LEFT, 3, 0),
        (SENSOR_BOTTOM, 3, height),
        (SENSOR_RIGHT, 3, width),
        (PANASONIC_CFA, 3, 1),
        (PANASONIC_BITS, 3, bits),
        (
            PANASONIC_COMPRESSION,
            3,
            if format.is_some() { 34316 } else { 34826 },
        ),
    ];
    if let Some(format) = format {
        out.push((RAW_FORMAT, 3, format));
    }
    out
}

#[test]
fn the_oldest_layout_is_top_aligned_words() {
    let data = [0x00, 0x12, 0x00, 0x34, 0xf0, 0xff, 0x00, 0x00];
    let file = build(&sensor(4, 1, None, 12), &data);
    let raw = decode(&file).expect("decodes");
    assert_eq!(raw.data, &[0x120, 0x340, 0xfff, 0]);
    assert_eq!(raw.cfa, Cfa::rggb());
}

/// The shuffled reader. The cursor starts at the top of the
/// buffer and runs down, and the byte it lands on goes through
/// `^ 0x3FF0`, so the first byte out is buffer index 15 — which,
/// because a block's tail is loaded ahead of its head, is file
/// byte `BLOCK - SPLIT + 15`. The second byte out is index 14, and
/// so on down each group of sixteen.
#[test]
fn the_reader_walks_a_shuffled_block() {
    let mut data = vec![0u8; BLOCK * 2];
    data[BLOCK - SPLIT + 15] = 0xA5;
    data[BLOCK - SPLIT + 14] = 0x5A;
    // The first byte of the file lands at buffer index SPLIT,
    // which the cursor reaches much later.
    data[0] = 0x11;
    let mut bits = PanaBits::new(&data);
    assert_eq!(bits.get(8), 0xA5);
    assert_eq!(bits.get(8), 0x5A);
    for _ in 2..16 {
        assert_eq!(bits.get(8), 0);
    }
    // Sixteen bytes in, the cursor jumps to the next group of
    // sixteen rather than continuing straight down.
    assert_eq!(bits.get(8), 0);
}

/// A group is always sixteen bytes: 14 pixels x 8 bits, 4 shift
/// codes x 2 bits, and one 4-bit tail for each column parity.
#[test]
fn a_group_costs_exactly_sixteen_bytes() {
    let data = vec![0u8; BLOCK * 2];
    let mut bits = PanaBits::new(&data);
    let mut group = Group::default();
    let start = bits.vbits;
    for i in 0..GROUP {
        group.pixel(&mut bits, i);
    }
    // The cursor runs down, so a spent group shows as a fall of
    // 128 bits (modulo the buffer).
    assert_eq!((start.wrapping_sub(bits.vbits)) & 0x1FFFF, 128);
}

#[test]
fn an_unknown_codec_says_which() {
    let file = build(&sensor(14, 1, Some(9), 14), &[0; 64]);
    let error = decode(&file).expect_err("unsupported");
    assert!(error.message().contains("RawFormat 9"), "{}", error.message());
}

/// The 14-bit group codec, hand-built: the two leaders sit at the
/// top of the block and read out whole, and a group whose step
/// code is at its widest ignores the predictor entirely.
#[test]
fn the_group_codec_reads_leaders_whole_and_restarts_at_the_widest_step() {
    let mut word: u128 = 0;
    word |= (1000u128 + 15) << 114; // pixel 0
    word |= (2000u128 + 15) << 100; // pixel 1
    // Group 0: step code 0, three differences of exactly zero.
    for j in 0..3 {
        word |= 512u128 << (88 - j * 10);
    }
    // Group 1: step code 3 (a shift of four), so its three pixels
    // are the ten-bit fields scaled up, predictor discarded.
    word |= 3u128 << 66;
    for j in 0..3 {
        word |= 100u128 << (56 - j * 10);
    }
    let data = word.to_le_bytes();
    let out = decode_v6(&data, 11, 1);
    assert_eq!(&out[..2], &[1000, 2000]);
    // Zero differences carry the leaders forward, parity by parity.
    assert_eq!(&out[2..5], &[1000, 2000, 1000]);
    assert_eq!(&out[5..8], &[100 * 16 - 15; 3]);
}

#[test]
fn hostile_input_never_panics() {
    assert!(decode(&[]).is_err());
    assert!(decode(b"IIU\0").is_err());
    let file = build(&sensor(14, 4, Some(4), 12), &[0x5a; 128]);
    assert!(decode(&file).is_ok());
    for cut in 0..file.len() {
        let _ = decode(&file[..cut]);
        let _ = preview(&file[..cut]);
    }
}

#[test]
fn words_are_shifted_down_to_their_bits() {
    assert_eq!(decode_words(&[0xf0, 0xff, 0x34, 0x12], 2, 1, 12), vec![0xfff, 0x123]);
    assert_eq!(decode_words(&[0x34], 1, 1, 16), vec![0]);
}

#[test]
fn packed_blocks_hold_ten_twelve_bit_samples() {
    // Samples run up from the lowest bits of a block of sixteen bytes.
    let mut block = vec![0u8; 16];
    block[0] = 0x21;
    block[1] = 0x63;
    block[2] = 0x54;
    let out = decode_packed_blocks(&block, 10, 1, 12);
    assert_eq!(out.len(), 10);
    assert_eq!(&out[..3], &[0x321, 0x546, 0]);
}

#[test]
fn a_block_restarts_the_shuffled_stream() {
    // Every block of fourteen pixels is predicted afresh, so a stream of
    // two equal blocks gives two equal runs.
    let mut data = vec![0u8; BLOCK * 2];
    for i in 0..BLOCK {
        data[i] = (i * 7 % 251) as u8;
        data[BLOCK + i] = data[i];
    }
    let file = build(&sensor(14336, 2, Some(4), 12), &data);
    let raw = decode(&file).expect("decodes");
    assert_eq!(raw.data[..14336], raw.data[14336..]);
}

#[test]
fn a_frame_without_columns_is_corrupt() {
    let file = build(&sensor(0, 4, Some(4), 12), &[0; 16]);
    assert!(matches!(decode(&file), Err(Error::Corrupt(_))));
}

/// A JPEG of nothing but the segment that says how the camera was held.
fn turned_jpeg(orientation: u16) -> Vec<u8> {
    let mut exif = b"Exif\0\0II*\0\x08\0\0\0\x01\0".to_vec();
    exif.extend_from_slice(&0x0112u16.to_le_bytes());
    exif.extend_from_slice(&3u16.to_le_bytes());
    exif.extend_from_slice(&1u32.to_le_bytes());
    exif.extend_from_slice(&(orientation as u32).to_le_bytes());
    exif.extend_from_slice(&0u32.to_le_bytes());
    let mut out = vec![0xFF, 0xD8, 0xFF, 0xE1];
    out.extend_from_slice(&(exif.len() as u16 + 2).to_be_bytes());
    out.extend_from_slice(&exif);
    out
}

#[test]
fn an_inline_jpeg_that_is_cut_off_still_gives_its_shooting_data() {
    let jpeg = turned_jpeg(6);
    let mut data = vec![0x00, 0x12, 0x00, 0x34, 0xf0, 0xff, 0x00, 0x00];
    data.extend_from_slice(&jpeg);
    let mut entries = sensor(4, 1, None, 12);
    entries.push((JPEG_FROM_RAW, 7, 0));
    let mut file = build(&entries, &data);
    // The field's count and place, which are its last eight bytes.
    let at = (file.len() - jpeg.len()) as u32;
    let slot = (0..entries.len() + 1)
        .map(|i| 10 + 12 * i)
        .find(|slot| file[*slot..*slot + 2] == JPEG_FROM_RAW.to_le_bytes())
        .unwrap();
    file[slot + 8..slot + 12].copy_from_slice(&at.to_le_bytes());
    for (count, whole) in [(jpeg.len(), true), (jpeg.len() + 1000, false)] {
        file[slot + 4..slot + 8].copy_from_slice(&(count as u32).to_le_bytes());
        let raw = decode(&file).expect("decodes");
        assert_eq!(raw.orientation, Orientation::Rotate90CW);
        assert_eq!(preview(&file).unwrap(), if whole { Some(jpeg.clone()) } else { None });
    }
    // One that begins behind the end has none.
    file[slot + 8..slot + 12].copy_from_slice(&0x10_0000u32.to_le_bytes());
    assert_eq!(decode(&file).expect("decodes").orientation, Orientation::Normal);
}
