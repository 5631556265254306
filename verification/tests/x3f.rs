use schist::raw::bits::BitPumpMsb;
use schist::raw::formats::cr2::Stream;
use schist::raw::formats::x3f::{
    decode, decode_layer, decode_true, difference, directory, find_sensor_image,
    is_displayable_jpeg, metadata, parse_true, preview, properties, texts, Huff, Image, Numbers,
    HUFFMAN, HUFFMAN_OLD, PLAIN, QUATTRO,
};
use schist::raw::frame::Ratio;
use schist::raw::image::Cfa;
use schist::raw::{camera_names, Aids, Error};

fn no_numbers() -> Numbers {
    Numbers {
        iso: None,
        shutter: None,
        exptime: None,
        aperture: None,
        flength: None,
        rotation: None,
    }
}

/// A file with one image section and one property list.
fn build(image_kind: u32, format: u32, columns: u32, rows: u32, data: &[u8]) -> Vec<u8> {
    let mut out = b"FOVb".to_vec();
    out.extend_from_slice(&0x0003_0000u32.to_le_bytes());
    out.resize(104, 0);
    let image_at = out.len();
    out.extend_from_slice(b"SECi");
    for word in [0x0002_0000u32, image_kind, format, columns, rows, 0] {
        out.extend_from_slice(&word.to_le_bytes());
    }
    out.extend_from_slice(data);
    let image_len = out.len() - image_at;

    let property_at = out.len();
    let entries: [(&str, &str); 2] = [("CAMMODEL", "SIGMA DP2 Merrill"), ("ISO", "400")];
    out.extend_from_slice(b"SECp");
    out.extend_from_slice(&0x0002_0000u32.to_le_bytes());
    out.extend_from_slice(&(entries.len() as u32).to_le_bytes());
    out.extend_from_slice(&0u32.to_le_bytes());
    out.extend_from_slice(&0u32.to_le_bytes());
    out.extend_from_slice(&0u32.to_le_bytes());
    let mut pool: Vec<u16> = Vec::new();
    let mut offsets = Vec::new();
    for (name, value) in entries {
        let name_at = pool.len();
        pool.extend(name.encode_utf16());
        pool.push(0);
        let value_at = pool.len();
        pool.extend(value.encode_utf16());
        pool.push(0);
        offsets.push((name_at as u32, value_at as u32));
    }
    for (name, value) in &offsets {
        out.extend_from_slice(&name.to_le_bytes());
        out.extend_from_slice(&value.to_le_bytes());
    }
    for unit in &pool {
        out.extend_from_slice(&unit.to_le_bytes());
    }
    let property_len = out.len() - property_at;

    let directory_at = out.len();
    out.extend_from_slice(b"SECd");
    out.extend_from_slice(&0x0002_0000u32.to_le_bytes());
    out.extend_from_slice(&2u32.to_le_bytes());
    for (offset, length, kind) in [
        (image_at, image_len, b"IMA2"),
        (property_at, property_len, b"PROP"),
    ] {
        out.extend_from_slice(&(offset as u32).to_le_bytes());
        out.extend_from_slice(&(length as u32).to_le_bytes());
        out.extend_from_slice(kind);
    }
    out.extend_from_slice(&(directory_at as u32).to_le_bytes());
    out
}

#[test]
fn a_plain_frame_is_three_samples_a_pixel() {
    let pixels: Vec<u16> = (0..2 * 2 * 3).map(|i| 1000 + i as u16).collect();
    let data: Vec<u8> = pixels.iter().flat_map(|v| v.to_le_bytes()).collect();
    let file = build(1, PLAIN, 2, 2, &data);
    assert_eq!(texts(&file).unwrap().iso.as_deref(), Some("400"));
    let numbers = Numbers { iso: Some(Ratio::whole(400)), ..no_numbers() };
    let raw = decode(&file, numbers).unwrap();
    raw.validate().unwrap();
    assert_eq!((raw.width, raw.height, raw.cpp), (2, 2, 3));
    assert_eq!(raw.cfa, Cfa::Linear);
    assert_eq!(raw.data, pixels);
    assert_eq!(raw.model, "SIGMA DP2 Merrill");
    // The names that the camera table has the body under come with it.
    let names = camera_names(&file).unwrap();
    assert_eq!(names, (raw.make, raw.model));
    let elsewhere = || Error::Unsupported("elsewhere".to_string());
    let aids = Aids {
        clean_make: "SIGMA",
        clean_model: "DP2 Merrill",
        camera: None,
        kodak_jpeg: Err(elsewhere()),
        cr2_lossless: &[],
        cr2_stream: Stream::Unreadable(elsewhere()),
        x3f_numbers: numbers,
        other: Err(elsewhere()),
    };
    let raw = schist::raw::decode(&file, aids).unwrap();
    raw.validate().unwrap();
    assert_eq!((raw.width, raw.height, raw.cpp), (2, 2, 3));
    assert_eq!(raw.cfa, Cfa::Linear);
    assert_eq!(raw.data, pixels);
    assert_eq!(raw.clean_make, "SIGMA");
    assert_eq!(raw.clean_model, "DP2 Merrill");
    assert_eq!(raw.metadata.iso, Some(Ratio::whole(400)));
}

#[test]
fn the_old_sd_huffman_is_unsupported_by_name() {
    // SD9/SD10/SD14 (format 6/11) has no oracle sample and stays
    // on the fallback; the modern TRUE/Quattro codes now decode.
    for format in [HUFFMAN, HUFFMAN_OLD] {
        let file = build(1, format, 8, 8, &[0; 64]);
        match decode(&file, no_numbers()) {
            Err(Error::Unsupported(message)) => {
                assert!(message.contains("SD9"), "{message}")
            }
            other => panic!("format {format}: {other:?}"),
        }
    }
}

/// The Merrill worked Huffman table, as
/// `(code length, code byte)` pairs indexed by symbol.
const MERRILL_PAIRS: &[(u8, u8)] = &[
    (3, 0x80),
    (3, 0x40),
    (3, 0x20),
    (4, 0xC0),
    (4, 0x60),
    (4, 0xE0),
    (4, 0x70),
    (4, 0xF0),
    (4, 0x10),
    (4, 0xA0),
    (5, 0xD0),
    (6, 0xD8),
    (6, 0xDC),
];

#[test]
fn huffman_is_a_canonical_category_table() {
    let huff = Huff::build(MERRILL_PAIRS).unwrap();
    assert_eq!(huff.max_len, 6);
    // Feed each code, MSB first, and read back its symbol (= the
    // magnitude-bit count).
    for (symbol, &(len, code)) in MERRILL_PAIRS.iter().enumerate() {
        // A byte whose top `len` bits are the code, low bits set so
        // the peek beyond the code cannot accidentally shorten it.
        let bytes = [code | (0xFF >> len)];
        let mut pump = BitPumpMsb::new(&bytes);
        assert_eq!(
            huff.decode(&mut pump).unwrap(),
            symbol as u32,
            "symbol {symbol}"
        );
        assert_eq!(pump.position(), len as usize);
    }
    // A prefix-free violation is rejected, not silently overwritten.
    assert!(Huff::build(&[(1, 0x80), (2, 0x80)]).is_err());
}

#[test]
fn the_sign_rule_is_leading_bit() {
    // k=9, V=26 (000011010): leading 0 → negative half.
    let mut pump = BitPumpMsb::new(&[0b0000_1101, 0b0000_0000]);
    assert_eq!(difference(&mut pump, 9), 26 - 511);
    // k=4, V=11 (1011): leading 1 → positive half.
    let mut pump = BitPumpMsb::new(&[0b1011_0000]);
    assert_eq!(difference(&mut pump, 4), 11);
    // k=0 consumes nothing and is zero.
    let mut pump = BitPumpMsb::new(&[0xFF]);
    assert_eq!(difference(&mut pump, 0), 0);
    assert_eq!(pump.position(), 0);
}

/// Encode symbols and magnitudes MSB-first, the way a layer stream
/// is laid out, so a decode can be checked without a real file.
struct BitWriter {
    bytes: Vec<u8>,
    acc: u32,
    nbits: u32,
}
impl BitWriter {
    fn new() -> Self {
        BitWriter {
            bytes: Vec::new(),
            acc: 0,
            nbits: 0,
        }
    }
    fn put(&mut self, value: u32, n: u32) {
        for i in (0..n).rev() {
            self.acc = (self.acc << 1) | ((value >> i) & 1);
            self.nbits += 1;
            if self.nbits == 8 {
                self.bytes.push(self.acc as u8);
                self.acc = 0;
                self.nbits = 0;
            }
        }
    }
    fn finish(mut self) -> Vec<u8> {
        if self.nbits > 0 {
            self.bytes.push((self.acc << (8 - self.nbits)) as u8);
        }
        self.bytes
    }
}

/// Split a signed difference into the symbol (magnitude-bit count)
/// and the value bits the sign rule expects.
fn encode_diff(d: i32) -> (u32, u32) {
    if d == 0 {
        return (0, 0);
    }
    let k = 32 - (d.unsigned_abs()).leading_zeros();
    let v = if d > 0 { d } else { d + ((1 << k) - 1) } as u32;
    (k, v)
}

#[test]
fn the_predictor_reproduces_the_worked_first_row() {
    // A Merrill frame, DP2M1726: layer 0, row 0.
    let huff = Huff::build(MERRILL_PAIRS).unwrap();
    let diffs = [-485, -485, 0, 0, 0, 0, 0, 0, 0, 11, 0, -4];
    let want: [u16; 12] = [27, 27, 27, 27, 27, 27, 27, 27, 27, 38, 27, 34];

    let mut writer = BitWriter::new();
    for &d in &diffs {
        let (k, v) = encode_diff(d);
        let (len, code) = MERRILL_PAIRS[k as usize];
        // The code, right-justified to its own length.
        writer.put((code >> (8 - len)) as u32, len as u32);
        writer.put(v, k);
    }
    let stream = writer.finish();
    let plane = decode_layer(&stream, &huff, 512, diffs.len(), 1).unwrap();
    assert_eq!(plane, want);
}

#[test]
fn quattro_maps_layers_onto_the_even_lattice() {
    // A tiny synthetic Quattro: 4x2 frame, quarter-res 2x1 layers,
    // full-res top 5 wide (one overscan column past the frame's 4).
    // The one-symbol Huffman table maps every code to symbol 0
    // (zero-magnitude), so every difference is 0 and every decoded
    // pixel is the seed 512 — leaving only the placement rule for
    // the assertions to read.
    let (cols, rows) = (4usize, 2usize);
    // Header: plane table (2x1, 2x1, 3x2), seeds, huff, quattro
    // word, three sizes, then three 16-aligned all-"1"-bit streams.
    let ones = |n: usize| vec![0xFFu8; n];
    let mut payload = Vec::new();
    for (c, r) in [(2u16, 1u16), (2, 1), (5, 2)] {
        payload.extend_from_slice(&c.to_le_bytes());
        payload.extend_from_slice(&r.to_le_bytes());
    }
    payload.extend_from_slice(&512u16.to_le_bytes()); // seeds (unused: seed passed below)
    payload.extend_from_slice(&512u16.to_le_bytes());
    payload.extend_from_slice(&512u16.to_le_bytes());
    payload.extend_from_slice(&0u16.to_le_bytes());
    payload.extend_from_slice(&[1, 0x80, 0, 0]); // huff: (1,0x80) then terminator
    payload.extend_from_slice(&0u32.to_le_bytes()); // quattro reserved word
    // sizes: layer0/1 are 2 pixels (2 bits → 1 byte); layer2 is 10
    // pixels (10 bits → 2 bytes).
    let sizes = [1u32, 1, 2];
    for sz in sizes {
        payload.extend_from_slice(&sz.to_le_bytes());
    }
    let start = payload.len();
    // Each layer's "all-ones" stream from its 16-byte-aligned start.
    payload.extend(ones(1));
    payload.resize(start + 16, 0);
    payload.extend(ones(1));
    payload.resize(start + 32, 0);
    payload.extend(ones(2));

    let raw = Image {
        kind: 1,
        format: QUATTRO,
        columns: cols,
        rows,
        data: 0,
        length: payload.len(),
    };
    let section = parse_true(&payload, &raw, true).unwrap();
    assert!(section.quattro);
    assert_eq!(section.sizes, [1, 1, 2]);
    assert_eq!(section.grids, [(2, 1), (2, 1), (5, 2)]);
    let data = decode_true(&payload, &raw, true).unwrap();
    // Plane 2 (top) is full resolution: every pixel = 512.
    for r in 0..rows {
        for c in 0..cols {
            assert_eq!(data[(r * cols + c) * 3 + 2], 512, "top ({r},{c})");
        }
    }
    // Planes 0/1 populate only the even/even lattice.
    for r in 0..rows {
        for c in 0..cols {
            let want = if r % 2 == 0 && c % 2 == 0 { 512 } else { 0 };
            assert_eq!(data[(r * cols + c) * 3], want, "bottom ({r},{c})");
            assert_eq!(data[(r * cols + c) * 3 + 1], want, "middle ({r},{c})");
        }
    }
}

#[test]
fn properties_are_utf16_indexed_by_character() {
    let file = build(1, PLAIN, 1, 1, &[0; 6]);
    let sections = directory(&file).unwrap();
    let list = properties(&file, sections.iter().find(|s| s.kind == *b"PROP").unwrap());
    assert_eq!(
        list,
        vec![
            ("CAMMODEL".to_string(), "SIGMA DP2 Merrill".to_string()),
            ("ISO".to_string(), "400".to_string()),
        ]
    );
}

#[test]
fn a_lossless_jpeg_is_not_a_preview() {
    // SOF3 is sensor data wearing a JPEG's clothes.
    let lossless = [
        0xFFu8, 0xD8, 0xFF, 0xC3, 0, 11, 16, 0, 1, 0, 1, 1, 0, 0x11, 0,
    ];
    assert!(!is_displayable_jpeg(&lossless));
    let baseline = [
        0xFFu8, 0xD8, 0xFF, 0xC0, 0, 11, 8, 0, 1, 0, 1, 1, 0, 0x11, 0,
    ];
    assert!(is_displayable_jpeg(&baseline));
    assert!(!is_displayable_jpeg(&[]));
}

#[test]
fn garbage_is_not_an_x3f() {
    assert!(decode(&[0u8; 64], no_numbers()).is_err());
    assert!(decode(b"FOVb", no_numbers()).is_err());
    let file = build(1, PLAIN, 2, 2, &[0; 24]);
    for cut in 0..file.len() {
        let _ = decode(&file[..cut], no_numbers());
        let _ = preview(&file[..cut]);
    }
}

#[test]
fn a_name_and_numbers_need_no_sensor_data() {
    let file = build(1, HUFFMAN, 8, 8, &[0; 64]);
    let numbers = Numbers {
        exptime: Some(Ratio { num: 5000, den: 1 }),
        aperture: Some(Ratio { num: 28, den: 10 }),
        ..no_numbers()
    };
    let (_, model, told, shown) = metadata(&file, numbers).unwrap();
    assert_eq!(model, "SIGMA DP2 Merrill");
    assert_eq!(told.f_number, Some(Ratio { num: 28, den: 10 }));
    assert_eq!(told.exposure_time, Some(Ratio { num: 5000, den: 1_000_000 }));
    assert_eq!(shown, None);
}

#[test]
fn the_sensor_image_is_found_among_the_sections() {
    let file = build(1, PLAIN, 3, 2, &[0; 36]);
    let sections = directory(&file).unwrap();
    assert_eq!(sections.len(), 2);
    let image = find_sensor_image(&file, &sections).unwrap();
    assert_eq!((image.kind, image.format, image.columns, image.rows), (1, PLAIN, 3, 2));
    let other = build(2, PLAIN, 3, 2, &[0; 36]);
    assert!(matches!(
        decode(&other, no_numbers()),
        Err(Error::Corrupt(_)) | Err(Error::Unsupported(_))
    ));
}

/// The file above, with the first unit of the text "400" replaced.
fn respelled(unit: u16) -> Vec<u8> {
    let mut file = build(1, PLAIN, 1, 1, &[0; 6]);
    let text = [0x34, 0, 0x30, 0, 0x30, 0];
    let at = file.windows(6).position(|w| w == text).expect("the text");
    file[at..at + 2].copy_from_slice(&unit.to_le_bytes());
    file
}

#[test]
fn property_texts_are_characters() {
    let told = texts(&respelled(0x03A9)).unwrap();
    assert_eq!(told.iso.as_deref(), Some("\u{3A9}00"));
    // A surrogate makes the property unreadable.
    assert_eq!(texts(&respelled(0xD800)).unwrap().iso, None);
}
