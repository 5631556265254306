use schist::raw::formats::iiq::{
    camera_names, decode, decode_row, decompress, preview, unpack, Directory, BASE, ESCAPE, FORMAT, LENGTHS,
    MODEL_FIRMWARE, RAW_DATA, RAW_HEIGHT, RAW_WIDTH, ROW_OFFSETS,
};
use schist::raw::Error;

/// A Phase One structure around one directory, for the tests that
/// do not need a whole file.
fn build(entries: &[(u32, u32, u32)], trailer: &[u8]) -> Vec<u8> {
    let mut out = b"II*\0".to_vec();
    out.extend_from_slice(&0u32.to_le_bytes()); // no IFD0
    out.extend_from_slice(b"IIIICwaR");
    let directory = 4096u32;
    out.extend_from_slice(&directory.to_le_bytes());
    out.resize(BASE + directory as usize, 0);
    out.extend_from_slice(&(entries.len() as u32).to_le_bytes());
    out.extend_from_slice(&0u32.to_le_bytes());
    for (tag, length, value) in entries {
        out.extend_from_slice(&tag.to_le_bytes());
        out.extend_from_slice(&4u32.to_le_bytes());
        out.extend_from_slice(&length.to_le_bytes());
        out.extend_from_slice(&value.to_le_bytes());
    }
    out.extend_from_slice(trailer);
    out
}

fn text(characters: Option<Vec<char>>) -> Option<String> {
    characters.map(|c| c.into_iter().collect())
}

#[test]
fn offsets_are_relative_to_the_signature() {
    // The blob's value field is 0, which is byte 8 of the file:
    // the signature itself. Reading it from byte 0 would give
    // "II*\0".
    let bytes = build(&[(MODEL_FIRMWARE, 8, 0)], &[]);
    assert_eq!(
        text(Directory::parse(&bytes).unwrap().text(MODEL_FIRMWARE)).as_deref(),
        Some("IIIICwaR")
    );
}

#[test]
fn short_values_live_in_the_entry() {
    let bytes = build(&[(RAW_WIDTH, 4, 4134), (FORMAT, 4, 3)], &[]);
    let dir = Directory::parse(&bytes).unwrap();
    assert_eq!(dir.number(RAW_WIDTH), Some(4134));
    assert_eq!(dir.number(FORMAT), Some(3));
    assert_eq!(dir.blob(RAW_WIDTH), None);
}

/// Writes bits MSB-first into 32-bit little-endian words.
#[derive(Default)]
struct Writer {
    words: Vec<u32>,
    acc: u64,
    bits: u32,
}

impl Writer {
    fn put(&mut self, value: u32, len: u32) {
        self.acc = (self.acc << len) | (value & ((1u64 << len) - 1) as u32) as u64;
        self.bits += len;
        while self.bits >= 32 {
            self.words.push((self.acc >> (self.bits - 32)) as u32);
            self.bits -= 32;
        }
    }
    /// The unary selector for a length, or a bare 1 for "keep".
    fn selector(&mut self, length: Option<u32>) {
        match length {
            None => self.put(1, 1),
            Some(length) => {
                let index = LENGTHS.iter().position(|l| *l == length).expect("a length");
                let zeros = index as u32 / 2 + 1;
                // Five zeros need no terminating one: the run is
                // already as long as the code allows.
                if zeros < 5 {
                    self.put(1, zeros + 1);
                } else {
                    self.put(0, zeros);
                }
                self.put(index as u32 % 2, 1);
            }
        }
    }
    fn finish(mut self) -> Vec<u8> {
        if self.bits > 0 {
            self.put(0, 32 - self.bits);
        }
        self.words.iter().flat_map(|w| w.to_le_bytes()).collect()
    }
}

#[test]
fn a_group_of_eight_carries_two_selectors() {
    let mut writer = Writer::default();
    // Even columns escape to whole samples, odd columns use
    // six-bit differences from zero.
    writer.selector(Some(ESCAPE));
    writer.selector(Some(6));
    for i in 0..4 {
        writer.put(1000 + i, 16);
        // 6-bit differences of +1: value 1 - 1 + 32 = 32.
        writer.put(32, 6);
    }
    let bytes = writer.finish();
    let mut out = vec![0u16; 8];
    decode_row(&bytes, &mut out);
    assert_eq!(
        out,
        vec![
            1000 << 2,
            1 << 2,
            1001 << 2,
            2 << 2,
            1002 << 2,
            3 << 2,
            1003 << 2,
            4 << 2
        ]
    );
}

#[test]
fn a_leading_one_keeps_the_length_in_force() {
    let mut writer = Writer::default();
    writer.selector(Some(5));
    writer.selector(Some(5));
    for _ in 0..8 {
        // 5 bits: value 16 is the difference 16 + 1 - 16 = +1.
        writer.put(16, 5);
    }
    writer.selector(None);
    writer.selector(None);
    for _ in 0..8 {
        writer.put(16, 5);
    }
    let bytes = writer.finish();
    let mut out = vec![0u16; 16];
    decode_row(&bytes, &mut out);
    // Each parity climbs by one a step, right through the second
    // group's "keep" selectors.
    let want: Vec<u16> = (0..16).map(|i| ((i / 2 + 1) << 2) as u16).collect();
    assert_eq!(out, want);
}

#[test]
fn the_tail_past_the_last_whole_group_is_absolute() {
    let mut writer = Writer::default();
    writer.selector(Some(5));
    writer.selector(Some(5));
    for _ in 0..8 {
        writer.put(16, 5);
    }
    // Ten columns: the last two have no group header and are
    // whole samples.
    writer.put(4000, 16);
    writer.put(4001, 16);
    let bytes = writer.finish();
    let mut out = vec![0u16; 10];
    decode_row(&bytes, &mut out);
    assert_eq!(&out[8..], &[4000 << 2, 4001 << 2]);
}

#[test]
fn a_short_row_table_is_corrupt() {
    assert!(matches!(
        decompress(&[0; 64], &[0; 4], 8, 4),
        Err(Error::Corrupt(_))
    ));
}

#[test]
fn rows_pointing_outside_the_data_stay_black() {
    // Two rows, the second addressed past the end.
    let mut offsets = Vec::new();
    offsets.extend_from_slice(&0u32.to_le_bytes());
    offsets.extend_from_slice(&u32::MAX.to_le_bytes());
    let out = decompress(&[0; 64], &offsets, 8, 2).unwrap();
    assert_eq!(&out[8..], &[0; 8]);
}

#[test]
fn garbage_is_not_a_phase_one() {
    assert!(decode(&[0u8; 64]).is_err());
    assert!(decode(b"II*\0\x08\0\0\0IIIICwaR").is_err());
    for cut in 0..200 {
        let bytes = build(&[(RAW_WIDTH, 4, 8), (RAW_HEIGHT, 4, 8)], &[]);
        let _ = decode(&bytes[..cut.min(bytes.len())]);
    }
}

#[test]
fn lossless_samples_stop_at_saturation() {
    let mut writer = Writer::default();
    writer.selector(Some(ESCAPE));
    writer.selector(Some(ESCAPE));
    for value in [0xFFFF, 0x3FFF, 0x4000, 0, 1, 2, 3, 4] {
        writer.put(value, 16);
    }
    let bytes = writer.finish();
    let mut out = vec![0u16; 8];
    decode_row(&bytes, &mut out);
    assert_eq!(out, vec![65532, 65532, 65532, 0, 4, 8, 12, 16]);
}

#[test]
fn rows_are_independent() {
    // One stream for both rows gives the same row twice.
    let mut writer = Writer::default();
    writer.selector(Some(ESCAPE));
    writer.selector(Some(ESCAPE));
    for value in 1..9 {
        writer.put(value, 16);
    }
    let bytes = writer.finish();
    let out = decompress(&bytes, &[0; 8], 8, 2).unwrap();
    assert_eq!(out[..8], out[8..]);
    assert_eq!(out[0], 4);
}

#[test]
fn a_raster_is_little_endian_words() {
    assert_eq!(unpack(&[1, 0, 2, 1, 9], 2, 1).unwrap(), vec![1, 258]);
    assert!(matches!(unpack(&[1, 0, 2], 2, 1), Err(Error::Corrupt(_))));
}

#[test]
fn blobs_and_floats_are_found_from_the_base() {
    let bytes = build(&[(0x0107, 12, 0), (MODEL_FIRMWARE, 4, 7)], &[]);
    let dir = Directory::parse(&bytes).unwrap();
    assert_eq!(dir.blob(0x0107).unwrap().len(), 12);
    let floats = dir.floats(0x0107, 3).unwrap();
    assert_eq!(floats[0], u32::from_le_bytes(*b"IIII"));
    assert_eq!(dir.floats(0x0107, 4), None);
    assert!(dir.entry(0x9999).is_none());
}

#[test]
fn a_lossless_file_decodes() {
    let mut writer = Writer::default();
    writer.selector(Some(ESCAPE));
    writer.selector(Some(ESCAPE));
    for value in 1..9 {
        writer.put(value, 16);
    }
    let row = writer.finish();
    // The trailer follows six entries, at this distance from the base.
    let at = 4096 + 8 + 6 * 16;
    let mut trailer = row.clone();
    trailer.extend_from_slice(&[0; 8]);
    let bytes = build(
        &[
            (RAW_WIDTH, 4, 8),
            (RAW_HEIGHT, 4, 2),
            (FORMAT, 4, 3),
            (RAW_DATA, row.len() as u32, at),
            (ROW_OFFSETS, 8, at + row.len() as u32),
            (MODEL_FIRMWARE, 8, 0),
        ],
        &trailer,
    );
    match decode(&bytes) {
        Ok(raw) => {
            assert_eq!((raw.width, raw.height), (8, 2));
            assert_eq!(raw.data[7], 32);
            assert_eq!(raw.data[8..], raw.data[..8]);
            assert_eq!((raw.make.as_str(), raw.model.as_str()), ("Phase One", "IIIICwaR"));
            assert_eq!(camera_names(&bytes).unwrap(), (raw.make, raw.model));
        }
        Err(e) => panic!("{}", e.message()),
    }
    assert_eq!(preview(&bytes).unwrap_or(None), None);
}

#[test]
fn texts_that_are_not_utf8_are_mended() {
    // The trailer follows one entry, at this distance from the base.
    let at = 4096 + 8 + 16;
    let bytes = build(&[(MODEL_FIRMWARE, 6, at)], b"P\xff45+\0");
    let dir = Directory::parse(&bytes).unwrap();
    assert_eq!(text(dir.text(MODEL_FIRMWARE)).as_deref(), Some("P\u{FFFD}45+"));
}

#[test]
fn a_row_is_read_by_its_own_table_entry_alone() {
    let data: Vec<u8> = (0..64u32).map(|i| (i * 37 + 11) as u8).collect();
    let table = |starts: &[u32]| -> Vec<u8> {
        starts.iter().flat_map(|s| s.to_le_bytes()).collect()
    };
    let one = decompress(&data, &table(&[0, 16, 32]), 8, 3).unwrap();
    let other = decompress(&data, &table(&[40, 16, 1000]), 8, 3).unwrap();
    assert_eq!(one[8..16], other[8..16]);
    assert_ne!(one[..8], other[..8]);
    assert_eq!(other[16..], [0; 8]);
    let mut row = [0u16; 8];
    decode_row(&data[16..], &mut row);
    assert_eq!(one[8..16], row);
}
