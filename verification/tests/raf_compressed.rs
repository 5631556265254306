use schist::raw::formats::raf_compressed::{decode, Header};
use schist::raw::image::{Cfa, CfaColor};
use schist::raw::Error;

/// The X100F's real header, byte for byte.
const X100F: [u8; 16] = [
    0x49, 0x53, 0x01, 0x10, 0x0e, 0x0f, 0xc6, 0x18, 0x00, 0x17, 0xa0, 0x03, 0x00, 0x08, 0x02,
    0xa1,
];

#[test]
fn reads_a_real_header() {
    let header = Header::parse(&X100F).unwrap();
    assert_eq!(
        header,
        Header {
            version: 1,
            sensor: 0x10,
            bits: 14,
            height: 4038,
            rounded_width: 6144,
            width: 6048,
            stripe_width: 768,
            stripes: 8,
            blocks: 673,
        }
    );
    // Eight lengths is 32 bytes, which is already a multiple of 16.
    assert_eq!(header.data_offset(), 48);
}

#[test]
fn the_length_table_is_padded_to_sixteen_bytes() {
    // The X-Pro3's nine stripes: 36 bytes of table, padded to 48.
    let mut header = Header::parse(&X100F).unwrap();
    header.stripes = 9;
    assert_eq!(header.data_offset(), 64);
    header.stripes = 16;
    assert_eq!(header.data_offset(), 80);
}

#[test]
fn rejects_a_header_that_contradicts_itself() {
    assert!(matches!(Header::parse(&X100F[..8]), Err(Error::Corrupt(_))));
    let mut bad = X100F;
    bad[0] = 0;
    assert!(matches!(Header::parse(&bad), Err(Error::Corrupt(_))));
    // Stripes that do not cover the rounded width.
    let mut bad = X100F;
    bad[13] = 7;
    assert!(matches!(Header::parse(&bad), Err(Error::Corrupt(_))));
    // A block count that does not make the height.
    let mut bad = X100F;
    bad[14..16].copy_from_slice(&100u16.to_be_bytes());
    assert!(matches!(Header::parse(&bad), Err(Error::Corrupt(_))));
    // A rounded width that rounds by more than a whole stripe.
    let mut bad = X100F;
    bad[9..11].copy_from_slice(&1000u16.to_be_bytes());
    assert!(matches!(Header::parse(&bad), Err(Error::Corrupt(_))));
}

#[test]
fn the_body_size_tells_lossless_from_lossy() {
    let header = Header::parse(&X100F).unwrap();
    // The X100F's own body: 8.5 bits a pixel.
    assert!(header.looks_lossless(25_977_312));
    // The GFX100S's rate, scaled to this frame: 4.7 bits a pixel.
    assert!(!header.looks_lossless(6048 * 4038 * 47 / 80));
    assert!(!header.looks_lossless(0));
}

#[test]
fn decoding_says_what_the_file_is() {
    let mut strip = X100F.to_vec();
    strip.resize(16 + 32 + 25_977_264, 0);
    let cfa = Cfa::XTrans([[CfaColor::Green; 6]; 6]);
    let why = decode(&strip, 6048, 4038, &cfa).unwrap_err().message();
    assert!(why.contains("lossless"), "{why}");
    assert!(why.contains("X-Trans"), "{why}");
    // A Bayer container with an X-Trans header is a misread, not
    // an unsupported file.
    assert!(matches!(
        decode(&strip, 6048, 4038, &Cfa::rggb()),
        Err(Error::Corrupt(_))
    ));
    assert!(matches!(
        decode(&strip, 10, 10, &cfa),
        Err(Error::Corrupt(_))
    ));
}

#[test]
fn stripe_lengths_follow_the_header() {
    let header = Header { stripes: 2, ..Header::parse(&X100F).unwrap() };
    let mut strip = X100F.to_vec();
    strip.extend_from_slice(&100u32.to_be_bytes());
    strip.extend_from_slice(&200u32.to_be_bytes());
    assert_eq!(header.stripe_lengths(&strip).unwrap(), vec![100, 200]);
    assert!(matches!(header.stripe_lengths(&strip[..20]), Err(Error::Corrupt(_))));
}
