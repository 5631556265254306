use schist::psd::cursor::Cursor;
use schist::psd::rle::{pack_row, unpack_channel, unpack_row};
use schist::psd::PsdError;

#[test]
fn literal_then_repeat_packets() {
    // Literal packet of 3 bytes (header 2), then a repeat of 5 bytes
    // (header -4, value 9).
    let src = [2u8, 10, 20, 30, 0xFC, 9];
    let mut cur = Cursor::new(&src);
    let mut out = [0u8; 8];
    unpack_row(&mut cur, &mut out).unwrap();
    assert_eq!(out, [10, 20, 30, 9, 9, 9, 9, 9]);
}

#[test]
fn noop_byte_is_skipped() {
    let src = [0x80u8, 0, 42]; // -128 no-op, then literal of 1
    let mut cur = Cursor::new(&src);
    let mut out = [0u8; 1];
    unpack_row(&mut cur, &mut out).unwrap();
    assert_eq!(out, [42]);
}

#[test]
fn overrun_is_error_not_panic() {
    let src = [3u8, 1, 2, 3, 4]; // 4 literals into a 2-byte row
    let mut cur = Cursor::new(&src);
    let mut out = [0u8; 2];
    assert!(matches!(
        unpack_row(&mut cur, &mut out),
        Err(PsdError::Corrupt(_))
    ));
}

#[test]
fn truncated_source_is_error() {
    let src = [7u8, 1, 2]; // promises 8 literals, has 2
    let mut cur = Cursor::new(&src);
    let mut out = [0u8; 8];
    assert!(matches!(
        unpack_row(&mut cur, &mut out),
        Err(PsdError::Truncated { .. })
    ));
}

#[test]
fn channel_rows_decode_independently() {
    // Two rows of 4 bytes: row 0 = repeat 0xAA x4 (2 bytes compressed),
    // row 1 = literal 4 bytes (5 bytes compressed).
    let mut src = Vec::new();
    src.extend_from_slice(&2u16.to_be_bytes());
    src.extend_from_slice(&5u16.to_be_bytes());
    src.extend_from_slice(&[0xFD, 0xAA]); // -3 => repeat 4
    src.extend_from_slice(&[3, 1, 2, 3, 4]);
    let mut cur = Cursor::new(&src);
    let out = unpack_channel(&mut cur, 2, 4, false).unwrap();
    assert_eq!(out, [0xAA, 0xAA, 0xAA, 0xAA, 1, 2, 3, 4]);
}

#[test]
fn a_large_document_counts_in_four_bytes() {
    let mut src = Vec::new();
    src.extend_from_slice(&2u32.to_be_bytes());
    src.extend_from_slice(&[0xFD, 0xAA]);
    let mut cur = Cursor::new(&src);
    let out = unpack_channel(&mut cur, 1, 4, true).unwrap();
    assert_eq!(out, [0xAA; 4]);
    assert!(cur.is_empty());
}

fn round_trip(data: &[u8]) {
    let packed = pack_row(data);
    let mut out = vec![0u8; data.len()];
    let mut cur = Cursor::new(&packed);
    unpack_row(&mut cur, &mut out).expect("unpack");
    assert_eq!(out, data, "round trip failed for {data:?}");
}

#[test]
fn encodes_runs() {
    let packed = pack_row(&[5, 5, 5, 5]);
    assert_eq!(packed, vec![253, 5]); // 257 - 4 = 253
    round_trip(&[5, 5, 5, 5]);
}

#[test]
fn encodes_literals() {
    let packed = pack_row(&[1, 2, 3]);
    assert_eq!(packed, vec![2, 1, 2, 3]);
    round_trip(&[1, 2, 3]);
}

#[test]
fn mixed_and_long_inputs_round_trip() {
    round_trip(&[]);
    round_trip(&[9]);
    round_trip(&[1, 1, 2, 3, 3, 3, 3, 4, 5, 5, 5]);
    round_trip(&vec![0u8; 300]);
    round_trip(&(0..=255u8).collect::<Vec<_>>());
    let mut pattern = Vec::new();
    for i in 0..1000u32 {
        pattern.push(if i % 7 < 4 { 0xAB } else { (i % 251) as u8 });
    }
    round_trip(&pattern);
}

#[test]
fn never_exceeds_worst_case_growth() {
    // PackBits worst case is 1 extra control byte per 128 literals.
    let data: Vec<u8> = (0..1000u32).map(|i| (i % 251) as u8).collect();
    let packed = pack_row(&data);
    assert!(packed.len() <= data.len() + data.len() / 128 + 1);
}

#[test]
fn packed_rows_with_filler_between_them_unpack() {
    let rows: Vec<Vec<u8>> = vec![vec![5; 200], (0..200).collect(), [[1, 2], [2, 2]].concat().repeat(50)];
    for psb in [false, true] {
        let bodies: Vec<Vec<u8>> = rows
            .iter()
            .enumerate()
            .map(|(i, row)| [pack_row(row), vec![0xEE; i]].concat())
            .collect();
        let mut src = vec![0xAB; 3];
        for body in &bodies {
            if psb {
                src.extend_from_slice(&(body.len() as u32).to_be_bytes());
            } else {
                src.extend_from_slice(&(body.len() as u16).to_be_bytes());
            }
        }
        src.extend_from_slice(&bodies.concat());
        src.extend_from_slice(&[1, 2, 3, 4]);
        let mut cur = Cursor::new(&src);
        cur.skip(3).unwrap();
        let out = unpack_channel(&mut cur, 3, 200, psb).unwrap();
        assert_eq!(out, rows.concat());
        assert_eq!(cur.remaining(), 4);
    }
}

#[test]
fn a_packet_stands_for_sixty_four_times_its_length_at_most() {
    assert_eq!(pack_row(&[7; 128]), vec![129, 7]);
    assert_eq!(pack_row(&vec![7; 6400]).len(), 100);
}
