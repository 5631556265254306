use schist::raw::formats::cr2::{
    cfa_of, decode, deslice, masked_black, median, preview, sensor_stream, slices, spread_black,
    sraw_planes, sraw_to_rgb, sraw_upsample, sraw_verified_body, sraw_width, strips, ColorData,
    SensorInfo, Stream, SubsampledImage, SRAW_NEUTRAL,
};
use schist::raw::formats::x3f::Numbers;
use schist::raw::frame::{Camera, ColorMatrix, Ratio};
use schist::raw::image::{Cfa, CfaColor};
use schist::raw::ljpeg::{LosslessFrame, LosslessHeader};
use schist::raw::tiff::{Ifd, Tiff};
use schist::raw::{Aids, Error, Rect};

/// A frame whose samples say where they belong, so a wrong
/// reassembly is visible rather than merely unequal.
fn ramp(width: usize, height: usize) -> Vec<u16> {
    (0..width * height).map(|i| i as u16).collect()
}

/// Slice a frame the way Canon's encoder does, for `deslice` to
/// put back.
fn slice_up(frame: &[u16], width: usize, height: usize, widths: &[usize]) -> Vec<u16> {
    let mut out = Vec::with_capacity(frame.len());
    let mut x = 0;
    for slice in widths {
        for y in 0..height {
            out.extend_from_slice(&frame[y * width + x..y * width + x + slice]);
        }
        x += slice;
    }
    out
}

#[test]
fn deslice_rebuilds_the_frame_from_its_columns() {
    // The 50D's shape in miniature: two slices of one width and a
    // narrower last one.
    let (width, height) = (10, 4);
    let frame = ramp(width, height);
    let stream = slice_up(&frame, width, height, &[4, 4, 2]);
    assert_eq!(
        deslice(&stream, width, height, [2, 4, 2]).unwrap(),
        (width, frame)
    );
}

#[test]
fn deslice_passes_a_single_slice_through() {
    // The G1 X Mark III writes [0, 0, width]; the 20D leaves the
    // tag out entirely and stands for the same triple.
    let (width, height) = (6, 3);
    let frame = ramp(width, height);
    assert_eq!(
        deslice(&frame, width, height, [0, 0, width]).unwrap(),
        (width, frame.clone())
    );
    assert_eq!(
        deslice(&frame, width, height, [1, 6, 0]).unwrap(),
        (width, frame)
    );
}

#[test]
fn deslice_rejects_a_cut_that_does_not_add_up() {
    let frame = ramp(10, 4);
    // Slices that make a different width than the JPEG's raster.
    assert!(matches!(
        deslice(&frame, 10, 4, [2, 4, 4]),
        Err(Error::Corrupt(_))
    ));
    // A raster the sample count does not match.
    assert!(matches!(
        deslice(&frame, 10, 5, [0, 0, 10]),
        Err(Error::Corrupt(_))
    ));
    // Widths that would overflow rather than wrap.
    assert!(matches!(
        deslice(&frame, 10, 4, [usize::MAX, usize::MAX, 0]),
        Err(Error::Corrupt(_))
    ));
}

#[test]
fn slices_falls_back_to_one_full_width_slice() {
    // An IFD with no tag at all, as the 20D and 1D Mark II write.
    let empty = Ifd { offset: 0, entries: Vec::new() };
    let tiff = Tiff { bytes: &[], base: 0, little: true, ifds: Vec::new() };
    assert_eq!(slices(&tiff, &empty, 3596), [0, 0, 3596]);
}

#[test]
fn spread_black_follows_the_bayer_phase() {
    // Canon names its four levels by colour in RGGB order; the
    // field wants them by position, so a GBRG frame moves them.
    let levels = [100, 200, 201, 300];
    assert_eq!(spread_black(levels, &Cfa::rggb()), [100, 200, 201, 300]);
    assert_eq!(spread_black(levels, &Cfa::gbrg()), [200, 300, 100, 201]);
    assert_eq!(spread_black(levels, &Cfa::bggr()), [300, 200, 201, 100]);
}

#[test]
fn cfa_reads_canons_pattern_tag() {
    assert_eq!(cfa_of(Some(1)), Cfa::rggb());
    assert_eq!(cfa_of(Some(3)), Cfa::gbrg());
    // An unknown or absent value is RGGB, the commonest phase.
    assert_eq!(cfa_of(Some(99)), Cfa::rggb());
    assert_eq!(cfa_of(None), Cfa::rggb());
    assert_eq!(
        Cfa::gbrg(),
        Cfa::Bayer([CfaColor::Green, CfaColor::Blue, CfaColor::Red, CfaColor::Green])
    );
}

#[test]
fn sraw_width_rounds_the_sensor_borders_up() {
    let sensor = |left, right| SensorInfo {
        left,
        top: 0,
        right,
        bottom: 0,
        mask: None,
    };
    // The 50D's mRAW: 3267 columns of picture inside a frame the
    // encoder padded to 3344, trimmed to the next multiple of 8.
    assert_eq!(sraw_width(Some(&sensor(0, 3266)), 3344), 3272);
    // Its sRAW needs no trim: the borders already fill the frame.
    assert_eq!(sraw_width(Some(&sensor(0, 2375)), 2376), 2376);
    // The 7D's pair, likewise untrimmed.
    assert_eq!(sraw_width(Some(&sensor(0, 3887)), 3888), 3888);
    assert_eq!(sraw_width(Some(&sensor(0, 2591)), 2592), 2592);
    // The trim is at the right edge: a left border does not
    // narrow the frame, whose origin is still column 0.
    assert_eq!(sraw_width(Some(&sensor(12, 3266)), 3344), 3272);
    // The rounding never runs past what the JPEG actually codes.
    assert_eq!(sraw_width(Some(&sensor(0, 3340)), 3344), 3344);
    // No makernote at all: the whole coded frame, made even.
    assert_eq!(sraw_width(None, 3344), 3344);
    assert_eq!(sraw_width(None, 3345), 3344);
    // A border that overflows falls back rather than panicking.
    assert_eq!(sraw_width(Some(&sensor(0, usize::MAX)), 3344), 3344);
}

/// A subsampled frame built by hand, for `sraw_planes`.
fn subsampled(p: usize, width: usize, height: usize, data: Vec<u16>) -> SubsampledImage {
    let components = 3 + p;
    let block_rows = p.div_ceil(2);
    let row = (width / 2) * components;
    let rows = height / block_rows;
    assert_eq!(data.len(), row * rows);
    SubsampledImage {
        width,
        height,
        p,
        components,
        block_rows,
        row,
        rows,
        precision: 15,
        data,
    }
}

#[test]
fn sraw_planes_unslices_the_blocks() {
    // A 2x1 frame, four columns by two rows, so two MCUs a row;
    // cut into two slices of one MCU each, so the stream holds
    // column pair 0 for both rows, then column pair 1 for both.
    let n = |y: u16, x: u16| 100 * y + x;
    let mcu = |y, x| [n(y, x), n(y, x + 1), 16384 + n(y, x), 16384 - n(y, x)];
    let stream: Vec<u16> = [mcu(0, 0), mcu(1, 0), mcu(0, 2), mcu(1, 2)].concat();
    let sub = subsampled(1, 4, 2, stream);
    let planes = sraw_planes(&sub, 4, [1, 4, 4]).unwrap();
    let px = |x: usize, y: usize| {
        let at = (y * 4 + x) * 3;
        (planes[at], planes[at + 1], planes[at + 2])
    };
    for y in 0..2u16 {
        for x in 0..4u16 {
            let (luma, cb, cr) = px(x as usize, y as usize);
            assert_eq!(luma, n(y, x) as i32, "luma at {x},{y}");
            // Chroma sits on the anchor (even) column only, centred
            // on zero; the odd column is left for the upsample.
            let anchor = x & !1;
            let want = if x % 2 == 0 { n(y, anchor) as i32 } else { 0 };
            assert_eq!((cb, cr), (want, -want), "chroma at {x},{y}");
        }
    }
    // The single-slice spellings place the same frame from a
    // stream in reading order.
    let reading: Vec<u16> = [mcu(0, 0), mcu(0, 2), mcu(1, 0), mcu(1, 2)].concat();
    let sub = subsampled(1, 4, 2, reading);
    let single = sraw_planes(&sub, 4, [0, 0, 8]).unwrap();
    assert_eq!(single, planes);
    assert_eq!(sraw_planes(&sub, 4, [usize::MAX, 0, 8]).unwrap(), planes);
    // Trimmed to two columns: the second MCU of each row is padding.
    let trimmed = sraw_planes(&sub, 2, [0, 0, 8]).unwrap();
    assert_eq!(trimmed.len(), 2 * 2 * 3);
    assert_eq!(trimmed[3], n(0, 1) as i32);
    assert_eq!(trimmed[6], n(1, 0) as i32);
}

#[test]
fn sraw_planes_rejects_a_cut_that_does_not_add_up() {
    let sub = subsampled(1, 4, 2, vec![0; 16]);
    // Slices that do not make one entropy row, including the count
    // that used to spin for hours.
    for slices in [
        [2, 4, 4],
        [1, 4, 0],
        [usize::MAX, 4, 4],
        [usize::MAX, usize::MAX, 8],
    ] {
        assert!(
            matches!(sraw_planes(&sub, 4, slices), Err(Error::Corrupt(_))),
            "{slices:?}"
        );
    }
    // Slices that are not whole MCUs.
    assert!(matches!(
        sraw_planes(&sub, 4, [1, 3, 5]),
        Err(Error::Corrupt(_))
    ));
    // A frame short of samples is an error, not a read past the end.
    let short = subsampled(1, 4, 2, vec![0; 16]);
    let short = SubsampledImage {
        data: short.data[..8].to_vec(),
        ..short
    };
    assert!(matches!(
        sraw_planes(&short, 4, [0, 0, 8]),
        Err(Error::Corrupt(_))
    ));
}

fn color_block(version: i32, len: usize, at: usize, quad: [u16; 4]) -> ColorData {
    let mut values = vec![0u16; len];
    values[0] = version as u16;
    values[at..at + 4].copy_from_slice(&quad);
    ColorData { values, version }
}

#[test]
fn sraw_multipliers_come_from_the_version_offset() {
    let block = color_block;
    // The 7D's block: version 7, gains at 0x4E, scaled by 1170/1024.
    let seven_d = block(7, 1337, 0x4E, [848, 1170, 1170, 490]);
    assert_eq!(seven_d.sraw_multipliers(), Some([968, 1336, 559]));
    // Version 10 moves them to 0x7B.
    let five_d3 = block(10, 1312, 0x7B, [836, 1170, 1170, 437]);
    assert_eq!(five_d3.sraw_multipliers(), Some([955, 1336, 499]));
    // A quad of the wrong shape — here the as-shot white balance,
    // whose greens are 1024 — means the offset is wrong for this
    // block, and unity is the answer.
    let wrong = block(7, 1337, 0x4E, [2166, 1024, 1024, 1524]);
    assert_eq!(wrong.sraw_multipliers(), None);
    let unequal = block(6, 1250, 0x4E, [602, 1170, 1171, 749]);
    assert_eq!(unequal.sraw_multipliers(), None);
    // A version this module has no offset for.
    let unknown = block(9, 1312, 0x7B, [836, 1170, 1170, 437]);
    assert_eq!(unknown.sraw_multipliers(), None);
}

#[test]
fn sraw_bodies_are_gated_by_model_id() {
    assert!(sraw_verified_body(Some(0x8000_0261), "Canon EOS 50D").is_ok());
    assert!(sraw_verified_body(Some(0x8000_0250), "Canon EOS 7D").is_ok());
    for (id, model) in [
        (Some(0x8000_0218), "Canon EOS 5D Mark II"),
        (Some(0x8000_0285), "Canon EOS 5D Mark III"),
        (Some(0x8000_0285), ""),
        (None, "Canon EOS 60D"),
        (None, ""),
    ] {
        match sraw_verified_body(id, model) {
            Err(Error::Unsupported(why)) => {
                assert!(
                    why.contains("sRAW") && why.contains("not verified"),
                    "{why}"
                );
                if !model.is_empty() {
                    assert!(why.contains(model), "{why}");
                }
            }
            other => panic!("{model}: {other:?}"),
        }
    }
}

#[test]
fn sraw_upsample_fills_the_gaps_bilinearly() {
    // Two 2x2 blocks side by side: chroma only at (0,0) and (0,2),
    // so the odd column is their mean and the odd row copies down.
    let (width, height) = (4, 2);
    let mut planes = vec![0i32; width * height * 3];
    let set = |p: &mut Vec<i32>, x: usize, y: usize, cb, cr| {
        p[(y * width + x) * 3 + 1] = cb;
        p[(y * width + x) * 3 + 2] = cr;
    };
    set(&mut planes, 0, 0, 100, -40);
    set(&mut planes, 2, 0, 200, -50);
    sraw_upsample(&mut planes, width, height, 3);
    let cb = |x: usize, y: usize| planes[(y * width + x) * 3 + 1];
    let cr = |x: usize, y: usize| planes[(y * width + x) * 3 + 2];
    // Odd column: the mean of its neighbours, rounded half up.
    assert_eq!(cb(1, 0), 150);
    assert_eq!(cr(1, 0), -45);
    // Last column has only a left neighbour to copy.
    assert_eq!(cb(3, 0), 200);
    // Row 1 has no chroma of its own and no row below, so it takes
    // row 0 unchanged.
    assert_eq!((cb(0, 1), cb(1, 1), cb(2, 1)), (100, 150, 200));
    assert_eq!(cr(0, 1), -40);

    // A 2x1 frame carries chroma on every row, so only the odd
    // columns are filled and the rows are left alone.
    let mut planes = vec![0i32; width * height * 3];
    set(&mut planes, 0, 1, 60, 20);
    set(&mut planes, 2, 1, 80, 30);
    sraw_upsample(&mut planes, width, height, 1);
    assert_eq!(planes[(width + 1) * 3 + 1], 70);
    // Row 0 was never given chroma and must stay neutral.
    assert_eq!(planes[1], 0);
}

#[test]
fn sraw_to_rgb_matches_the_worked_first_pixel() {
    // The 50D mRAW sample's (IMG_9517: Canon's sRAW1, luma sampled
    // 2x2, factor byte 0x22, P = 3) first pixel: Y 572 with the
    // chroma the stream carries (16386, 16376) centred on zero, the
    // hue offset (P + 1) << 2 = 16, and ColorData's gains
    // 687/1336/855.
    let planes = vec![572, 16386 - SRAW_NEUTRAL, 16376 - SRAW_NEUTRAL];
    assert_eq!(
        sraw_to_rgb(&planes, 3, [687, 1336, 855]),
        vec![368, 750, 512]
    );
    // Unity gains leave the matrix's own scale, and a neutral
    // pixel stays very nearly grey.
    let grey = vec![8000, 0, 0];
    let rgb = sraw_to_rgb(&grey, 3, [1024; 3]);
    assert!(
        rgb.iter().all(|v| v.abs_diff(8000) < 40),
        "a neutral pixel should stay grey, got {rgb:?}"
    );
    // Hostile values must clip, not wrap or panic.
    let extreme = vec![32767, 32767, -32768];
    let rgb = sraw_to_rgb(&extreme, 3, [1 << 20, 1 << 20, 1 << 20]);
    assert!(rgb.iter().all(|v| *v <= 32767));
}

fn no_stream() -> Stream {
    Stream::Unreadable(Error::Corrupt("none".to_string()))
}

#[test]
fn cr2_hostile_input_is_an_error_not_a_panic() {
    for bytes in [
        &b""[..],
        &b"II*\0"[..],
        &b"II*\0\x08\0\0\0CR\x02\0\xff\xff\xff\xff"[..],
        &[0xff; 64][..],
    ] {
        assert!(decode(bytes, &[], no_stream()).is_err());
        // A file whose directory reads but holds nothing has no
        // preview rather than a broken one.
        assert!(matches!(preview(bytes), Err(_) | Ok(None)));
    }
}

#[test]
fn as_shot_levels_come_from_the_version_offset() {
    let colors = color_block(7, 1337, 0x3F, [2000, 1024, 1024, 1500]);
    assert_eq!(colors.as_shot_offset(), Some(0x3F));
    // In order of red, green, blue and the second green.
    assert_eq!(colors.as_shot_wb(), Some([2000, 1024, 1500, 1024]));
    assert_eq!(colors.count(), 1337);
    assert_eq!((colors.short(0), colors.short(1337)), (Some(7), None));
    assert!(ColorData::of(Vec::new()).is_none());
}

#[test]
fn a_median_is_the_upper_of_two() {
    assert_eq!(median(&[]), None);
    assert_eq!(median(&[7]), Some(7));
    assert_eq!(median(&[9, 1]), Some(9));
    assert_eq!(median(&[5, 1, 9, 5, 0]), Some(5));
}

#[test]
fn the_mask_is_measured_by_phase() {
    // Two by two phases with a constant of their own in the first eight
    // columns, and light elsewhere.
    let (width, height) = (16, 4);
    let mut data = vec![5000u16; width * height];
    for y in 0..height {
        for x in 0..8 {
            data[y * width + x] = (100 + 10 * (y % 2) + x % 2) as u16;
        }
    }
    let sensor = SensorInfo { left: 8, top: 0, right: 15, bottom: 3, mask: None };
    assert_eq!(
        masked_black(&data, width, height, Some(&sensor)),
        Some([100, 101, 110, 111])
    );
    let narrow = SensorInfo { left: 7, ..sensor };
    assert_eq!(masked_black(&data, width, height, Some(&narrow)), None);
    let outside = Rect { x: 10, y: 0, width: 8, height: 2 };
    let masked = SensorInfo { mask: Some(outside), ..sensor };
    assert_eq!(masked_black(&data, width, height, Some(&masked)), None);
    assert_eq!(masked_black(&data, width, height, None), None);
}

#[test]
fn sensor_borders_are_inclusive() {
    let values = [0, 0, 0, 0, 0, 4, 2, 9, 7, 0, 0, 0, 0];
    let sensor = SensorInfo::of(&values).unwrap();
    assert_eq!((sensor.left, sensor.top, sensor.right, sensor.bottom), (4, 2, 9, 7));
    assert_eq!(
        sensor.crop(20, 20),
        Some(Rect { x: 4, y: 2, width: 6, height: 6 })
    );
    assert!(SensorInfo::of(&values[..8]).is_none());
}

/// A little-endian file with two directories: the root, and one whose
/// strip holds `strip`.
fn two_directories(strip: &[u8]) -> Vec<u8> {
    let mut out = b"II*\0\x10\0\0\0CR\x02\0".to_vec();
    let short = |out: &mut Vec<u8>, tag: u16, value: u16| {
        out.extend_from_slice(&tag.to_le_bytes());
        out.extend_from_slice(&3u16.to_le_bytes());
        out.extend_from_slice(&1u32.to_le_bytes());
        out.extend_from_slice(&(value as u32).to_le_bytes());
    };
    let long = |out: &mut Vec<u8>, tag: u16, value: u32| {
        out.extend_from_slice(&tag.to_le_bytes());
        out.extend_from_slice(&4u16.to_le_bytes());
        out.extend_from_slice(&1u32.to_le_bytes());
        out.extend_from_slice(&value.to_le_bytes());
    };
    // The root stands at 16 and takes 18 bytes; the other follows.
    out.extend_from_slice(&34u32.to_le_bytes());
    out.extend_from_slice(&1u16.to_le_bytes());
    short(&mut out, 0x0112, 6);
    out.extend_from_slice(&34u32.to_le_bytes());
    assert_eq!(out.len(), 34);
    out.extend_from_slice(&3u16.to_le_bytes());
    short(&mut out, 0x0103, 6);
    long(&mut out, 0x0111, 34 + 2 + 36 + 4);
    long(&mut out, 0x0117, strip.len() as u32);
    out.extend_from_slice(&0u32.to_le_bytes());
    out.extend_from_slice(strip);
    out
}

#[test]
fn a_plain_stream_becomes_a_bayer_frame() {
    let bytes = two_directories(&[1, 2, 3]);
    assert_eq!(
        strips(&bytes).unwrap(),
        vec![None, Some((76, 79))]
    );
    assert_eq!(sensor_stream(&bytes, &[]).unwrap(), (76, 79));
    let stream = Stream::Plain {
        header: Ok(LosslessHeader { components: 2, precision: 12 }),
        frame: Ok(LosslessFrame { width: 2, height: 2, components: 2, data: ramp(4, 2) }),
    };
    let raw = decode(&bytes, &[], stream).unwrap();
    assert_eq!((raw.width, raw.height, raw.cpp), (4, 2, 1));
    assert_eq!(raw.data, ramp(4, 2));
    assert_eq!(raw.cfa, Cfa::rggb());
    assert_eq!(raw.white_level, Ratio::whole(4095));
    assert!(raw.orientation.transposes());
    assert!(raw.preview.is_none());
}

#[test]
fn the_errors_of_a_stream_pass_through() {
    let bytes = two_directories(&[1, 2, 3]);
    assert!(matches!(
        decode(&bytes, &[], no_stream()),
        Err(Error::Corrupt(why)) if why == "none"
    ));
    let stream = Stream::Plain {
        header: Ok(LosslessHeader { components: 2, precision: 12 }),
        frame: Err(Error::Unsupported("odd".to_string())),
    };
    assert!(matches!(
        decode(&bytes, &[], stream),
        Err(Error::Unsupported(why)) if why == "odd"
    ));
    // A body whose colours are not known is refused before its stream is.
    let stream = Stream::Subsampled(Ok(subsampled(1, 4, 2, vec![16384; 16])));
    assert!(matches!(decode(&bytes, &[], stream), Err(Error::Unsupported(_))));
}

/// A little-endian file of a body by its number, whose sensor directory
/// has a strip of three bytes.
fn body_file(model_id: u32) -> Vec<u8> {
    let mut out = b"II*\0\x10\0\0\0CR\x02\0".to_vec();
    let entry = |out: &mut Vec<u8>, tag: u16, kind: u16, count: u32, value: u32| {
        out.extend_from_slice(&tag.to_le_bytes());
        out.extend_from_slice(&kind.to_le_bytes());
        out.extend_from_slice(&count.to_le_bytes());
        out.extend_from_slice(&value.to_le_bytes());
    };
    out.extend_from_slice(&34u32.to_le_bytes());
    // The root, which points at the shooting data.
    out.extend_from_slice(&1u16.to_le_bytes());
    entry(&mut out, 0x8769, 4, 1, 76);
    out.extend_from_slice(&34u32.to_le_bytes());
    // The sensor data.
    assert_eq!(out.len(), 34);
    out.extend_from_slice(&3u16.to_le_bytes());
    entry(&mut out, 0x0103, 3, 1, 6);
    entry(&mut out, 0x0111, 4, 1, 112);
    entry(&mut out, 0x0117, 4, 1, 3);
    out.extend_from_slice(&0u32.to_le_bytes());
    // The shooting data, which holds the maker's own directory.
    assert_eq!(out.len(), 76);
    out.extend_from_slice(&1u16.to_le_bytes());
    entry(&mut out, 0x927C, 7, 18, 94);
    out.extend_from_slice(&0u32.to_le_bytes());
    assert_eq!(out.len(), 94);
    out.extend_from_slice(&1u16.to_le_bytes());
    entry(&mut out, 0x0010, 4, 1, model_id);
    out.extend_from_slice(&0u32.to_le_bytes());
    assert_eq!(out.len(), 112);
    out.extend_from_slice(&[1, 2, 3]);
    out
}

#[test]
fn a_subsampled_frame_takes_its_matrix_from_the_camera_table_and_no_levels() {
    let matrix = ColorMatrix { bits: [1.0f32.to_bits(); 9] };
    let aids = |stream: Stream| Aids {
        clean_make: "",
        clean_model: "",
        camera: Some(Camera {
            color_matrix: matrix,
            black_level: Some(1024),
            white_level: Some(13000),
        }),
        kodak_jpeg: Err(Error::NotRaw),
        cr2_lossless: &[],
        cr2_stream: stream,
        x3f_numbers: Numbers {
            iso: None,
            shutter: None,
            exptime: None,
            aperture: None,
            flength: None,
            rotation: None,
        },
        other: Err(Error::NotRaw),
    };
    // The 7D, whose reconstruction is known.
    let bytes = body_file(0x8000_0250);
    let sub = subsampled(1, 4, 2, vec![16384; 16]);
    let raw = schist::raw::decode(&bytes, aids(Stream::Subsampled(Ok(sub)))).unwrap();
    assert_eq!((raw.width, raw.height, raw.cpp), (4, 2, 3));
    assert_eq!(raw.color_matrix, Some(matrix));
    assert_eq!(raw.black_levels, [Ratio::whole(0); 4]);
    assert_eq!(raw.white_level, Ratio::whole(16383));
    // A frame under a filter array takes the black level too; the stream
    // gave the white one.
    let stream = Stream::Plain {
        header: Ok(LosslessHeader { components: 2, precision: 14 }),
        frame: Ok(LosslessFrame { width: 2, height: 2, components: 2, data: ramp(4, 2) }),
    };
    let raw = schist::raw::decode(&bytes, aids(stream)).unwrap();
    assert_eq!(raw.color_matrix, Some(matrix));
    assert_eq!(raw.black_levels, [Ratio::whole(1024); 4]);
    assert_eq!(raw.white_level, Ratio::whole(16383));
}
