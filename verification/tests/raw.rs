use schist::raw::bits::{from_category, from_twos_complement, power_of_two, wrapped};
use schist::raw::common::{first_number, largest_jpeg, make_model, metadata};
use schist::raw::detect::probe;
use schist::raw::formats::cr2::Stream;
use schist::raw::formats::x3f::Numbers;
use schist::raw::frame::{full_scale, Camera, ColorMatrix, Gain, Ratio, RawImage};
use schist::raw::image::{Cfa, CfaColor, Orientation};
use schist::raw::predict::Parity;
use schist::raw::tiff::Tiff;
use schist::raw::{
    camera_names, decode, frame_samples, orientation, preview, Aids, Error, Format, Rect,
};

fn matrix() -> ColorMatrix {
    let rows = [1.0f32, 0.5, 0.25, 0.0, 1.0, 0.125, 0.75, 0.0, 1.0];
    ColorMatrix { bits: rows.map(f32::to_bits) }
}

fn refusal() -> Error {
    Error::Unsupported("elsewhere".to_string())
}

fn aids() -> Aids<'static> {
    Aids {
        clean_make: "",
        clean_model: "",
        camera: None,
        kodak_jpeg: Err(refusal()),
        cr2_lossless: &[],
        cr2_stream: Stream::Unreadable(refusal()),
        x3f_numbers: Numbers {
            iso: None,
            shutter: None,
            exptime: None,
            aperture: None,
            flength: None,
            rotation: None,
        },
        other: Err(refusal()),
    }
}

/// A little-endian file of one directory. A value of more than four bytes
/// goes to the end of it.
fn tiff(entries: &[(u16, u16, Vec<u8>)], trailer: &[u8]) -> Vec<u8> {
    let mut out = b"II*\0\x08\0\0\0".to_vec();
    out.extend_from_slice(&(entries.len() as u16).to_le_bytes());
    let mut far = Vec::new();
    let start = 8 + 2 + entries.len() * 12 + 4;
    for (tag, kind, value) in entries {
        let size = match kind {
            1 | 2 | 7 => 1,
            3 => 2,
            5 => 8,
            _ => 4,
        };
        out.extend_from_slice(&tag.to_le_bytes());
        out.extend_from_slice(&kind.to_le_bytes());
        out.extend_from_slice(&((value.len() / size) as u32).to_le_bytes());
        if value.len() <= 4 {
            let mut inline = value.clone();
            inline.resize(4, 0);
            out.extend_from_slice(&inline);
        } else {
            out.extend_from_slice(&((start + far.len()) as u32).to_le_bytes());
            far.extend_from_slice(value);
        }
    }
    out.extend_from_slice(&0u32.to_le_bytes());
    out.extend_from_slice(&far);
    out.extend_from_slice(trailer);
    out
}

fn short(v: u16) -> Vec<u8> {
    v.to_le_bytes().to_vec()
}

fn long(v: u32) -> Vec<u8> {
    v.to_le_bytes().to_vec()
}

#[test]
fn signatures_name_their_format() {
    let cases: [(&[u8], Option<Format>); 10] = [
        (b"FUJIFILMCCD-RAW 0201", Some(Format::Raf)),
        (b"IIRO\x08\0\0\0", Some(Format::Orf)),
        (b"MMOR\0\0\0\x08", Some(Format::Orf)),
        (b"IIU\0\x08\0\0\0", Some(Format::Rw2)),
        (b"II\x1a\0\0\0HEAPCCDR", Some(Format::Crw)),
        (b"FOVb\0\0\0\0", Some(Format::X3f)),
        (b"\0MRM\0\0\0\0", Some(Format::Mrw)),
        (b"\0\0\0\x18ftypcrx \0\0", Some(Format::Cr3)),
        (b"II*\0\x10\0\0\0CR\x02\0", Some(Format::Cr2)),
        (b"\x89PNG\r\n\x1a\n", None),
    ];
    for (bytes, want) in cases {
        assert_eq!(probe(bytes), want, "{bytes:?}");
    }
    assert_eq!(probe(&[]), None);
}

#[test]
fn a_maker_names_a_tiffs_format() {
    let file = |make: &[u8]| {
        tiff(
            &[(0x0106, 3, short(32803)), (0x010F, 2, make.to_vec())],
            &[],
        )
    };
    assert_eq!(probe(&file(b"SAMSUNG\0")), Some(Format::Srw));
    // A converter's TIFF of no known maker is no raw file.
    assert_eq!(probe(&file(b"Nobody\0")), None);
}

#[test]
fn what_is_not_raw_is_said_to_be_none() {
    assert!(matches!(decode(b"nothing", aids()), Err(Error::NotRaw)));
    assert!(matches!(preview(b"nothing", Ok(None)), Err(Error::NotRaw)));
    assert_eq!(orientation(b"nothing", None), Orientation::Normal);
    assert_eq!(Error::NotRaw.message(), "not a camera raw file");
}

#[test]
fn formats_without_a_decoder_go_elsewhere() {
    assert!(matches!(
        decode(b"\0MRM\0\0\0\0", aids()),
        Err(Error::Unsupported(why)) if why == "elsewhere"
    ));
    // What comes from there keeps the names it came with.
    let mut other = RawImage::new(Format::Mrw, 1, 1, 1, vec![0], Cfa::rggb());
    other.set_clean("Minolta", "DiMAGE 7");
    let named = Aids { clean_make: "Sony", clean_model: "A1", other: Ok(other), ..aids() };
    let raw = decode(b"\0MRM\0\0\0\0", named).unwrap();
    assert_eq!((raw.clean_make.as_str(), raw.clean_model.as_str()), ("Minolta", "DiMAGE 7"));
    assert_eq!(camera_names(b"\0MRM\0\0\0\0"), None);
    let shown = preview(b"\0MRM\0\0\0\0", Ok(Some(vec![1])));
    assert_eq!(shown.unwrap(), Some(vec![1]));
}

#[test]
fn an_orientation_is_read_without_decoding() {
    let file = tiff(
        &[(0x0106, 3, short(32803)), (0x010F, 2, b"SAMSUNG\0".to_vec()), (0x0112, 3, short(6))],
        &[],
    );
    assert_eq!(orientation(&file, None), Orientation::Rotate90CW);
}

#[test]
fn a_camera_table_fills_what_a_file_left_out() {
    let mut raw = RawImage::new(Format::Srw, 2, 2, 1, vec![0; 4], Cfa::rggb());
    assert_eq!(raw.white_level, Ratio::whole(65535));
    let camera = Camera { color_matrix: matrix(), black_level: Some(128), white_level: Some(4095) };
    raw.apply_camera_table(Some(camera));
    assert_eq!(raw.white_level, Ratio::whole(4095));
    assert_eq!(raw.black_levels[3], Ratio::whole(128));
    assert_eq!(raw.color_matrix, Some(matrix()));
    // What is known now stays.
    let other = Camera { color_matrix: ColorMatrix { bits: [0; 9] }, black_level: Some(1), white_level: Some(2) };
    raw.apply_camera_table(Some(other));
    assert_eq!(raw.white_level, Ratio::whole(4095));
    assert_eq!(raw.black_levels[0], Ratio::whole(128));
    assert_eq!(raw.color_matrix, Some(matrix()));
}

#[test]
fn frames_are_validated() {
    let good = RawImage::new(Format::Srw, 2, 2, 1, vec![0; 4], Cfa::rggb());
    assert!(good.validate().is_ok());
    let short = RawImage::new(Format::Srw, 2, 2, 1, vec![0; 3], Cfa::rggb());
    assert!(matches!(short.validate(), Err(Error::Corrupt(_))));
    let mut crop = RawImage::new(Format::Srw, 2, 2, 1, vec![0; 4], Cfa::rggb());
    crop.crop = Rect { x: 1, y: 0, width: 2, height: 2 };
    assert!(crop.validate().is_err());
    let mut dark = RawImage::new(Format::Srw, 2, 2, 1, vec![0; 4], Cfa::rggb());
    dark.white_level = Ratio::whole(0);
    assert!(dark.validate().is_err());
}

#[test]
fn levels_are_written_as_decimals_where_they_are() {
    let text = |num: i64, den: u64| {
        let mut text = String::new();
        Ratio { num, den }.push(&mut text);
        text
    };
    for (num, den, want) in [
        (100, 1, "100"),
        (200, 2, "100"),
        (1023, 4, "255.75"),
        (-1, 2, "-0.5"),
        (0, 7, "0"),
        (1, 10_000, "0.0001"),
        (1, 100_000, "1/100000"),
        (1, 3, "1/3"),
        (9_999_999, 10, "999999.9"),
        (10_000_001, 10, "10000001/10"),
        (5, 0, "5/0"),
    ] {
        assert_eq!(text(num, den), want);
    }
    // A float of the same value is written the same.
    for num in (-3000..3000).step_by(7) {
        for den in [1, 2, 4, 5, 8, 10, 16, 25] {
            assert_eq!(text(num, den), format!("{}", num as f32 / den as f32));
        }
    }
    let mut raw = RawImage::new(Format::Srw, 2, 2, 1, vec![0; 4], Cfa::rggb());
    raw.black_levels[1] = Ratio { num: 513, den: 2 };
    raw.black_levels[2] = Ratio { num: 512, den: 2 };
    raw.white_level = Ratio { num: 1, den: 4 };
    assert_eq!(
        raw.validate().unwrap_err().message(),
        "corrupt: levels black [0.0, 256.5, 256.0, 0.0] white 0.25"
    );
}

#[test]
fn names_are_trimmed() {
    let mut raw = RawImage::new(Format::Srw, 1, 1, 1, vec![0], Cfa::rggb());
    raw.set_camera(" SAMSUNG\0 ", "NX1 ");
    assert_eq!(raw.model, "NX1");
    assert!(raw.make.starts_with("SAMSUNG"));
}

#[test]
fn frame_sizes_have_a_ceiling() {
    assert_eq!(frame_samples(10, 20, 3).unwrap(), 600);
    assert!(frame_samples(0x1_0000, 0x1_0000, 1).is_err());
    assert!(frame_samples(usize::MAX, 2, 1).is_err());
}

#[test]
fn patterns_move_with_their_origin() {
    let cfa = Cfa::rggb();
    assert_eq!(cfa.shifted(1, 0), Cfa::grbg());
    assert_eq!(cfa.shifted(0, 1), Cfa::gbrg());
    assert_eq!(cfa.shifted(1, 1), Cfa::bggr());
    assert_eq!(cfa.color_at(3, 3), Some(CfaColor::Blue));
    assert_eq!(Cfa::Linear.color_at(0, 0), None);
    assert!(cfa.same_as(&cfa.copied()) && !cfa.same_as(&Cfa::bggr()));
    let bad = Cfa::Pattern { width: 2, height: 2, colors: vec![CfaColor::Red] };
    assert!(!bad.is_well_formed() && cfa.is_well_formed());
}

#[test]
fn orientations_past_four_swap_sides() {
    for value in 0..10 {
        assert_eq!(
            Orientation::from_exif(value).transposes(),
            (5..=8).contains(&value)
        );
    }
}

#[test]
fn ratios_are_compared_crosswise() {
    let half = Ratio { num: 1, den: 2 };
    let third = Ratio { num: 1, den: 3 };
    assert!(third.is_less(half) && !half.is_less(third));
    assert!(half.is_same(Ratio { num: 2, den: 4 }));
    assert_eq!(full_scale(12), Ratio::whole(4095));
    assert_eq!(Gain::of(3, 2), Gain::Exact(Ratio { num: 3, den: 2 }));
    let mut text = String::new();
    Ratio::whole(42).push(&mut text);
    assert!(text.starts_with("42"));
}

#[test]
fn bit_tricks() {
    assert_eq!(power_of_two(13), 8192);
    assert_eq!(from_twos_complement(0b111, 3), -1);
    assert_eq!(from_twos_complement(0b011, 3), 3);
    assert_eq!(from_category(0b000, 3), -7);
    assert_eq!(from_category(0b100, 3), 4);
    assert_eq!(wrapped(-1), 65535);
    assert_eq!(wrapped(65536), 0);
}

#[test]
fn a_parity_predicts_from_two_columns_back() {
    let mut parity = Parity::new(100);
    assert_eq!(parity.step(0, 0, 5), 105);
    assert_eq!(parity.step(0, 1, -5), 95);
    assert_eq!(parity.step(0, 2, 1), 106);
    assert_eq!(parity.step(0, 3, 1), 96);
}

#[test]
fn directories_are_read_by_kind() {
    let mut exposure = long(1);
    exposure.extend(long(125));
    let file = tiff(
        &[
            (0x0100, 3, short(640)),
            (0x010F, 2, b"Maker\0".to_vec()),
            (0x0110, 2, b"Model X \0".to_vec()),
            (0x829A, 5, exposure),
            (0x8827, 3, short(400)),
        ],
        &[],
    );
    let tiff = Tiff::parse(&file).unwrap();
    assert!(tiff.little);
    assert_eq!(first_number(&tiff, tiff.root(), 0x0100), Some(640));
    assert_eq!(make_model(&tiff), ("Maker".to_string(), "Model X".to_string()));
    let told = metadata(&tiff);
    assert_eq!(told.iso, Some(Ratio::whole(400)));
    assert_eq!(told.exposure_time, Some(Ratio { num: 1, den: 125 }));
    assert!(largest_jpeg(&tiff).is_none());
    assert!(tiff.find(0x9999).is_none());
    let entry = tiff.find(0x829A).unwrap();
    assert_eq!(tiff.raw(entry).len(), 8);
    assert_eq!(tiff.ratio(entry, 1), None);
}

#[test]
fn a_directory_that_follows_itself_ends() {
    let mut file = tiff(&[(0x0100, 3, short(1))], &[]);
    let next = file.len() - 4;
    file[next..].copy_from_slice(&8u32.to_le_bytes());
    let tiff = Tiff::parse(&file).unwrap();
    assert_eq!(tiff.ifds.len(), 1);
    assert!(Tiff::parse(b"II").is_err());
    assert!(Tiff::parse(b"XX*\0\x08\0\0\0").is_err());
}

#[test]
fn a_plain_samsung_file_decodes_from_its_signature() {
    let at = (8 + 2 + 8 * 12 + 4 + 8) as u32;
    let file = tiff(
        &[
            (0x0100, 4, long(2)),
            (0x0101, 4, long(2)),
            (0x0102, 3, short(16)),
            (0x0103, 3, short(32769)),
            (0x0106, 3, short(32803)),
            (0x010F, 2, b"SAMSUNG\0".to_vec()),
            (0x0111, 4, long(at)),
            (0x0117, 4, long(8)),
        ],
        &[1, 0, 2, 0, 3, 0, 4, 0],
    );
    let camera = Camera { color_matrix: matrix(), black_level: Some(0), white_level: Some(4095) };
    assert_eq!(camera_names(&file), Some(("SAMSUNG".to_string(), String::new())));
    let known = Aids { clean_make: "Samsung", clean_model: "NX", camera: Some(camera), ..aids() };
    match decode(&file, known) {
        Ok(raw) => {
            assert_eq!((raw.make.as_str(), raw.model.as_str()), ("SAMSUNG", ""));
            assert_eq!((raw.clean_make.as_str(), raw.clean_model.as_str()), ("Samsung", "NX"));
            assert_eq!(raw.format, Format::Srw);
            assert_eq!(raw.data, vec![1, 2, 3, 4]);
            assert!(raw.validate().is_ok());
        }
        Err(e) => panic!("{}", e.message()),
    }
}
