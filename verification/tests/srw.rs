use schist::raw::bits::BitPumpMsb;
use schist::raw::formats::srw::{
    by_position, cfa_override, decode, decompress_v1, decompress_v2, packed, plain, preview,
    V2Huffman, BLACK_LEVELS, ENCRYPTION_KEY, V2_BITS, V2_CODE, WB_LEVELS,
};
use schist::raw::frame::{Gain, Ratio};
use schist::raw::image::Cfa;

#[test]
fn the_v2_code_tiles_its_window() {
    // A prefix code is complete exactly when its lengths' weights
    // sum to one; anything else and some bit pattern decodes to
    // nothing, or two codes overlap.
    let total: u32 = V2_CODE
        .iter()
        .map(|(length, _)| 1u32 << (V2_BITS - *length as u32))
        .sum();
    assert_eq!(total, 1 << V2_BITS);
    // Every symbol 0..=13 appears exactly once: they are difference
    // lengths, and a missing one could not be encoded.
    let mut symbols: Vec<u8> = V2_CODE.iter().map(|(_, symbol)| *symbol).collect();
    symbols.sort_unstable();
    assert_eq!(symbols, (0..14).collect::<Vec<u8>>());
}

#[test]
fn the_v2_code_decodes_its_own_symbols() {
    let huffman = V2Huffman::new();
    // Symbol 6 has the two-bit code 01 and takes six value bits.
    // JPEG's categories put the positive half at the top: 0b111111
    // is 63, the largest a six-bit difference reaches.
    let mut pump = BitPumpMsb::new(&[0b01_111111, 0b00_000000]);
    assert_eq!(huffman.diff(&mut pump), 63);
    // The bottom half is negative: 0b011111 is one below the
    // halfway mark, so -32.
    let mut pump = BitPumpMsb::new(&[0b01_011111, 0b00_000000]);
    assert_eq!(huffman.diff(&mut pump), -32);
    // Symbol 5 has code 10 and takes five bits; 0b00000 is the
    // bottom of the negative half, -31.
    let mut pump = BitPumpMsb::new(&[0b1000_0000]);
    assert_eq!(huffman.diff(&mut pump), -31);
    // Symbol 0 (code 110100) is a difference of zero and reads no
    // value bits at all.
    let mut pump = BitPumpMsb::new(&[0b1101_0011, 0b0100_0000]);
    assert_eq!(huffman.diff(&mut pump), 0);
    assert_eq!(huffman.diff(&mut pump), 0);
}

#[test]
fn v2_differences_run_along_rows() {
    // Six pixels of two rows, every difference zero except the
    // four seeds. Symbol 3 is the code 1100 with three value bits,
    // whose positive half is 4..=7; symbol 0, the code 110100, is
    // a difference of zero and reads nothing after it.
    fn seed(bits: &mut BitWriter, value: u32) {
        bits.put(0b1100, 4);
        bits.put(value, 3);
    }
    let mut bits = BitWriter::default();
    for row in [[4, 5], [6, 7]] {
        seed(&mut bits, row[0]);
        seed(&mut bits, row[1]);
        for _ in 0..4 {
            bits.put(0b110100, 6);
        }
    }
    let out = decompress_v2(&bits.finish(), 6, 2);
    assert_eq!(out, vec![4, 5, 4, 5, 4, 5, 6, 7, 6, 7, 6, 7]);
}

#[test]
fn packed_reads_both_bit_orders() {
    // 0x012 and 0x345 packed twelve bits at a time.
    let msb = packed(&[0x01, 0x23, 0x45], 2, 1, 12, true);
    assert_eq!(msb, vec![0x012, 0x345]);
    // The same two samples the other way up: 0x012 first means the
    // low nibble of byte 1 carries the top of the sample.
    let lsb = packed(&[0x12, 0x50, 0x34], 2, 1, 12, false);
    assert_eq!(lsb, vec![0x012, 0x345]);
}

#[test]
fn plain_words_are_little_endian() {
    assert_eq!(plain(&[0x34, 0x12, 0x78, 0x56], 2), vec![0x1234, 0x5678]);
    // A short strip leaves the rest of the frame black.
    assert_eq!(plain(&[0x34], 2), vec![0, 0]);
}

#[test]
fn truncated_streams_do_not_panic() {
    for len in [0usize, 1, 3, 7, 16, 64] {
        assert_eq!(decompress_v2(&vec![0xa5; len], 32, 4).len(), 128);
        let pointers = vec![0u32; 4];
        assert_eq!(decompress_v1(&vec![0x5a; len], &pointers, 32, 4).len(), 128);
        assert_eq!(packed(&vec![0xff; len], 32, 4, 12, true).len(), 128);
    }
    // Row pointers past the end of the strip must not read wildly.
    let pointers = vec![u32::MAX; 4];
    assert_eq!(decompress_v1(&[0; 64], &pointers, 32, 4).len(), 128);
}

#[test]
fn by_position_follows_the_filter_array() {
    let values = [1.0, 2.0, 3.0, 4.0];
    assert_eq!(by_position(&Cfa::rggb(), values), [1.0, 2.0, 3.0, 4.0]);
    assert_eq!(by_position(&Cfa::grbg(), values), [2.0, 1.0, 4.0, 3.0]);
    assert_eq!(by_position(&Cfa::gbrg(), values), [2.0, 4.0, 1.0, 3.0]);
}

#[test]
fn only_known_bodies_override_their_array() {
    assert_eq!(cfa_override(" nx300 "), Some(Cfa::grbg()));
    assert_eq!(cfa_override("NX mini"), Some(Cfa::rggb()));
    assert_eq!(cfa_override("NX1"), None);
    assert!(cfa_override("").is_none());
}

/// A little-endian file of one directory.
fn tiff(entries: &[(u16, u16, u32)], trailer: &[u8]) -> Vec<u8> {
    let mut out = b"II*\0\x08\0\0\0".to_vec();
    out.extend_from_slice(&(entries.len() as u16).to_le_bytes());
    for (tag, kind, value) in entries {
        out.extend_from_slice(&tag.to_le_bytes());
        out.extend_from_slice(&kind.to_le_bytes());
        out.extend_from_slice(&1u32.to_le_bytes());
        out.extend_from_slice(&value.to_le_bytes());
    }
    out.extend_from_slice(&0u32.to_le_bytes());
    out.extend_from_slice(trailer);
    out
}

#[test]
fn a_plain_file_decodes() {
    let entries: Vec<(u16, u16, u32)> = vec![
        (0x0100, 4, 2),
        (0x0101, 4, 2),
        (0x0102, 3, 16),
        (0x0103, 3, 32769),
        (0x0106, 3, 32803),
        (0x0111, 4, 8 + 2 + 7 * 12 + 4),
        (0x0117, 4, 8),
    ];
    let bytes = tiff(&entries, &[1, 0, 2, 0, 3, 0, 4, 0]);
    match decode(&bytes, "NX100") {
        Ok(raw) => {
            assert_eq!((raw.width, raw.height), (2, 2));
            assert_eq!(raw.data, vec![1, 2, 3, 4]);
        }
        Err(e) => panic!("{}", e.message()),
    }
    assert_eq!(preview(&bytes).unwrap(), None);
    for cut in 0..bytes.len() {
        let _ = decode(&bytes[..cut], "");
    }
}

#[derive(Default)]
struct BitWriter {
    out: Vec<u8>,
    cache: u32,
    bits: u32,
}

impl BitWriter {
    fn put(&mut self, value: u32, bits: u32) {
        self.cache = (self.cache << bits) | (value & ((1 << bits) - 1));
        self.bits += bits;
        while self.bits >= 8 {
            self.bits -= 8;
            self.out.push((self.cache >> self.bits) as u8);
        }
    }
    fn finish(mut self) -> Vec<u8> {
        if self.bits > 0 {
            self.out.push((self.cache << (8 - self.bits)) as u8);
        }
        self.out
    }
}

#[test]
fn levels_may_be_written_as_fractions() {
    let numbers = |values: &[u32]| -> Vec<u8> {
        values.iter().flat_map(|v| v.to_le_bytes()).collect()
    };
    let slot = |out: &mut Vec<u8>, tag: u16, kind: u16, count: u32, value: u32| {
        out.extend_from_slice(&tag.to_le_bytes());
        out.extend_from_slice(&kind.to_le_bytes());
        out.extend_from_slice(&count.to_le_bytes());
        out.extend_from_slice(&value.to_le_bytes());
    };
    // The maker's directory, whose offsets count from its own start.
    let mut maker = 3u16.to_le_bytes().to_vec();
    slot(&mut maker, ENCRYPTION_KEY, 4, 4, 42);
    slot(&mut maker, WB_LEVELS, 5, 4, 58);
    slot(&mut maker, BLACK_LEVELS, 5, 4, 90);
    maker.extend_from_slice(&0u32.to_le_bytes());
    maker.extend_from_slice(&numbers(&[1, 2, 3, 4]));
    maker.extend_from_slice(&numbers(&[9, 2, 6, 1, 7, 1, 10, 1]));
    maker.extend_from_slice(&numbers(&[7, 2, 5, 2, 9, 2, 17, 4]));
    let entries: Vec<(u16, u16, u32)> = vec![
        (0x0100, 4, 2),
        (0x0101, 4, 2),
        (0x0102, 3, 16),
        (0x0103, 3, 32769),
        (0x0106, 3, 32803),
        (0x0111, 4, 110),
        (0x0117, 4, 8),
        (0x927C, 7, 118),
    ];
    let mut bytes = tiff(&entries, &[1, 0, 2, 0, 3, 0, 4, 0]);
    let count = 10 + 7 * 12 + 4;
    bytes[count..count + 4].copy_from_slice(&(maker.len() as u32).to_le_bytes());
    bytes.extend_from_slice(&maker);
    let raw = decode(&bytes, "").unwrap();
    assert_eq!(raw.cfa, Cfa::grbg());
    let part = |num: i64, den: u64| Ratio { num, den };
    assert_eq!(raw.black_levels, [part(1, 2), part(5, 2), part(1, 4), part(3, 2)]);
    assert_eq!(
        raw.wb_coeffs,
        [
            Gain::Quotient { over: part(7, 2), under: part(4, 1) },
            Gain::unit(),
            Gain::Exact(part(6, 4)),
            Gain::Exact(part(4, 4)),
        ]
    );
}
