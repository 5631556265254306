use schist::raw::formats::kodak::{
    crop_within, decode, decode_65000, decode_65000_segment, jpeg_strip, linearize, longest_ramp,
    preview, unpack,
};
use schist::raw::ljpeg::LosslessFrame;
use schist::raw::{Error, Rect, Result};

#[test]
fn decodes_a_hand_built_65000_segment() {
    // Four pixels, lengths 3, 3, 2, 1 (low nibble first), then the
    // differences 5, 6, 2, 1 packed into one big-endian word from
    // its least significant bit up.
    let data = [0x33, 0x12, 0x01, 0xb5];
    let mut out = [0u16; 4];
    decode_65000_segment(&data, &mut out).expect("segment decodes");
    assert_eq!(out, [5, 6, 7, 7]);
}

#[test]
fn a_65000_length_over_twelve_bits_is_corrupt() {
    let data = [0xff, 0x00, 0x00, 0x00];
    let mut out = [0u16; 2];
    assert!(matches!(
        decode_65000_segment(&data, &mut out),
        Err(Error::Corrupt(_))
    ));
}

#[test]
fn a_truncated_65000_segment_runs_out_in_zeros() {
    // Lengths present, bitstream missing: the pump reads zeros, so
    // the differences are the most negative the lengths allow and
    // nothing panics.
    let data = [0x33, 0x12];
    let mut out = [0u16; 4];
    decode_65000_segment(&data, &mut out).expect("no bitstream is still decodable");
}

#[test]
fn finds_the_band_offsets_among_the_other_numbers() {
    let values = [
        1, 3158, 654611, 2, 74722, 480, 1, 85952, 189248, 292544, 395840, 499136,
    ];
    assert_eq!(longest_ramp(&values), Some(85952));
    assert_eq!(longest_ramp(&[1, 2, 3]), None);
    assert_eq!(longest_ramp(&[]), None);
}

#[test]
fn unpacks_twelve_bit_samples() {
    let data = [0xab, 0xcd, 0xef, 0x12, 0x34, 0x56];
    assert_eq!(
        unpack(&data, 4, 12, false).unwrap(),
        vec![0xabc, 0xdef, 0x123, 0x456]
    );
}

#[test]
fn a_linearisation_curve_is_a_lookup_with_a_clamp() {
    let table = [0u16, 10, 20, 30];
    let mut samples = [0, 2, 9];
    linearize(&mut samples, &table);
    assert_eq!(samples, [0, 20, 30]);
}

fn no_jpeg() -> Result<LosslessFrame> {
    Err(Error::Corrupt("no JPEG".to_string()))
}

#[test]
fn garbage_is_rejected() {
    assert!(decode(b"MM\0*nonsense", no_jpeg()).is_err());
    assert!(decode(&[], no_jpeg()).is_err());
}

#[test]
fn samples_of_sixteen_and_eight_bits_unpack() {
    assert_eq!(unpack(&[1, 2, 3, 4], 2, 16, true).unwrap(), vec![0x0201, 0x0403]);
    assert_eq!(unpack(&[1, 2, 3, 4], 2, 16, false).unwrap(), vec![0x0102, 0x0304]);
    assert!(matches!(unpack(&[1], 4, 12, false), Err(Error::Corrupt(_))));
}

#[test]
fn a_crop_lies_within_its_frame() {
    assert_eq!(
        crop_within(1, 2, 3, 4, (10, 10)),
        Some(Rect { x: 1, y: 2, width: 3, height: 4 })
    );
    assert_eq!(crop_within(8, 2, 3, 4, (10, 10)), None);
    assert_eq!(crop_within(usize::MAX, 0, 1, 1, (10, 10)), None);
    assert_eq!(crop_within(0, 0, 0, 1, (10, 10)), None);
}

#[test]
fn segments_are_independent() {
    // Two rows, each one segment of four pixels and the same bytes; the
    // table says where each ends.
    let segment = [0x33, 0x12, 0x01, 0xb5];
    let mut strip = segment.to_vec();
    strip.extend_from_slice(&segment);
    let out = decode_65000(&strip, Some(4), Some(&[4, 8]), 4, 2).unwrap();
    assert_eq!(out, vec![5, 6, 7, 7, 5, 6, 7, 7]);
    assert!(matches!(
        decode_65000(&strip, Some(4), Some(&[4, 9]), 4, 2),
        Err(Error::Corrupt(_))
    ));
    assert!(matches!(decode_65000(&strip, None, None, 4, 2), Err(Error::Corrupt(_))));
}

#[test]
fn a_frame_without_columns_is_looked_at_last() {
    let says = |segment, offsets| match decode_65000(&[0; 8], segment, offsets, 0, 2) {
        Err(Error::Corrupt(text)) => text,
        other => panic!("{other:?}"),
    };
    let table: &[u32] = &[4, 8];
    assert_eq!(says(None, Some(table)), "Kodak 65000 image without a segment width");
    assert_eq!(says(Some(0), Some(table)), "Kodak 65000 image without a segment width");
    assert_eq!(says(Some(4), None), "Kodak 65000 image without a segment offset table");
    assert_eq!(says(Some(4), Some(table)), "Kodak 65000 image without columns");
    assert_eq!(says(Some(4), Some(&[])), "Kodak 65000 image without columns");
}

/// A big-endian file of one directory; entries must be in order of tag.
fn tiff(entries: &[(u16, u16, u32, u32)], trailer: &[u8]) -> Vec<u8> {
    let mut out = b"MM\0*\0\0\0\x08".to_vec();
    out.extend_from_slice(&(entries.len() as u16).to_be_bytes());
    for (tag, kind, count, value) in entries {
        out.extend_from_slice(&tag.to_be_bytes());
        out.extend_from_slice(&kind.to_be_bytes());
        out.extend_from_slice(&count.to_be_bytes());
        if *kind == 3 && *count == 1 {
            out.extend_from_slice(&(value << 16).to_be_bytes());
        } else {
            out.extend_from_slice(&value.to_be_bytes());
        }
    }
    out.extend_from_slice(&0u32.to_be_bytes());
    out.extend_from_slice(trailer);
    out
}

#[test]
fn a_plain_cfa_strip_decodes() {
    let entries: Vec<(u16, u16, u32, u32)> = vec![
        (0x0100, 4, 1, 4),
        (0x0101, 4, 1, 1),
        (0x0102, 3, 1, 12),
        (0x0103, 3, 1, 1),
        (0x0106, 3, 1, 32803),
        (0x0111, 4, 1, 8 + 2 + 7 * 12 + 4),
        (0x0117, 4, 1, 6),
    ];
    let bytes = tiff(&entries, &[0xab, 0xcd, 0xef, 0x12, 0x34, 0x56]);
    assert_eq!(jpeg_strip(&bytes), None);
    match decode(&bytes, no_jpeg()) {
        Ok(raw) => assert_eq!(raw.data, vec![0xabc, 0xdef, 0x123, 0x456]),
        Err(e) => panic!("{}", e.message()),
    }
    assert_eq!(preview(&bytes).unwrap(), None);
    for cut in 0..bytes.len() {
        let _ = decode(&bytes[..cut], no_jpeg());
    }
}

#[test]
fn segments_of_a_65000_frame_stand_alone() {
    // Rows of six pixels in segments of four and two.
    let (long, short) = ([0x33, 0x12, 0x01, 0xb5], [0x33, 0x00, 0x35]);
    let strip = [&long[..], &short, &long, &short].concat();
    let ends = [4, 7, 11, 14];
    let frame = decode_65000(&strip, Some(4), Some(&ends), 6, 2).unwrap();
    assert_eq!(frame.len(), 12);
    let mut tail = [0u16; 2];
    decode_65000_segment(&short, &mut tail).unwrap();
    assert_eq!(frame[..4], [5, 6, 7, 7]);
    assert_eq!(frame[4..6], tail);
    assert_eq!(frame[6..], frame[..6]);
    // Other bytes in one segment change its own samples only.
    let mut changed = strip.clone();
    changed[10] = 0xb6;
    let other = decode_65000(&changed, Some(4), Some(&ends), 6, 2).unwrap();
    assert_ne!(other[6..10], frame[6..10]);
    assert_eq!((&other[..6], &other[10..]), (&frame[..6], &frame[10..]));
}
