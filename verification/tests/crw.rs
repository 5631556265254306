use schist::raw::formats::crw::{
    clean, decode, preview, uncompressed_cfa, unpack10, Ciff, Record, IMAGE_DATA, IMAGE_INFO,
    JPEG, MAKE_MODEL, SENSOR_INFO,
};
use schist::raw::image::{Cfa, Orientation};
use schist::raw::{camera_names, Error, Rect};

/// A CIFF around one heap of records, built by hand so the tests
/// exercise the bytes a camera writes.
fn ciff(records: &[(u16, Vec<u8>)]) -> Vec<u8> {
    let mut heap = Vec::new();
    let mut directory = Vec::new();
    directory.extend_from_slice(&(records.len() as u16).to_le_bytes());
    for (tag, value) in records {
        directory.extend_from_slice(&tag.to_le_bytes());
        if tag & 0x4000 != 0 {
            // The value is the entry's own eight bytes.
            let mut fixed = value.clone();
            fixed.resize(8, 0);
            directory.extend_from_slice(&fixed);
        } else {
            directory.extend_from_slice(&(value.len() as u32).to_le_bytes());
            directory.extend_from_slice(&(heap.len() as u32).to_le_bytes());
            heap.extend_from_slice(value);
        }
    }
    let at = heap.len() as u32;
    heap.extend_from_slice(&directory);
    heap.extend_from_slice(&at.to_le_bytes());

    let mut out = Vec::new();
    out.extend_from_slice(b"II");
    out.extend_from_slice(&26u32.to_le_bytes());
    out.extend_from_slice(b"HEAPCCDR");
    out.extend_from_slice(&0x0001_0002u32.to_le_bytes());
    out.extend_from_slice(&[0; 8]);
    out.extend_from_slice(&heap);
    out
}

fn image_info(width: u32, height: u32, turn: u32) -> Vec<u8> {
    let mut v = Vec::new();
    for word in [width, height, 0x3f80_0000, turn, 8, 24, 257] {
        v.extend_from_slice(&word.to_le_bytes());
    }
    v
}

#[test]
fn walks_a_heap_and_its_records() {
    let file = ciff(&[
        (
            MAKE_MODEL,
            b"Canon\0Canon PowerShot Pro70\0\0\0\0\0".to_vec(),
        ),
        (IMAGE_INFO, image_info(1536, 1024, 180)),
    ]);
    let ciff = Ciff::parse(&file).unwrap();
    assert_eq!(
        ciff.make_model(),
        ("Canon".to_string(), "Canon PowerShot Pro70".to_string())
    );
    let info = ciff.image_info().unwrap();
    assert_eq!(info.height, 1024);
    assert_eq!(info.orientation, Orientation::Rotate180);
}

#[test]
fn a_walk_keeps_what_was_there_and_stays_in_its_heap() {
    let file = ciff(&[
        (MAKE_MODEL, b"Canon\0Canon PowerShot Pro70\0".to_vec()),
        (IMAGE_INFO, image_info(1536, 1024, 180)),
    ]);
    let kept = Record { tag: 7, at: 1, len: 2 };
    let walked = |base: usize, len: usize, depth: usize| {
        let mut ciff = Ciff { bytes: &file, little_endian: true, records: vec![kept] };
        ciff.walk(base, len, depth);
        assert!(ciff.records[0].tag == 7 && ciff.records[0].at == 1 && ciff.records[0].len == 2);
        ciff.records
    };
    let heap = file.len() - 26;
    let records = walked(26, heap, 0);
    assert_eq!(records.len(), 3);
    assert!(records[1..].iter().all(|r| r.at >= 26 && r.at + r.len <= file.len()));
    assert_eq!((records[1].tag, records[2].tag), (MAKE_MODEL, IMAGE_INFO));
    // Past the end of the file, too short for its trailing word, or too deep.
    assert_eq!(walked(26, heap + 1, 0).len(), 1);
    assert_eq!(walked(26, 3, 0).len(), 1);
    assert_eq!(walked(26, heap, 100).len(), 1);
}

#[test]
fn reads_a_value_stored_in_its_own_entry() {
    // Bit 14 says the eight bytes of length and offset *are* the
    // value; a walker that followed them as an offset would read
    // somewhere else entirely.
    let file = ciff(&[(0x5814, 1234u32.to_le_bytes().to_vec())]);
    let ciff = Ciff::parse(&file).unwrap();
    let record = ciff.find(0x5814).unwrap();
    assert_eq!(record.len, 8);
    assert_eq!(ciff.u32(record.at), Some(1234));
}

#[test]
fn unpack10_undoes_the_word_swap() {
    // The first bytes of the Pro70 sample, whose first three
    // samples LibRaw unpacks as 496, 541 and 485.
    assert_eq!(unpack10(&[0x21, 0x7c, 0x96, 0xd7], 3), vec![496, 541, 485]);
    // Past the end the pump gives zeros rather than panicking.
    assert_eq!(unpack10(&[0x21], 2), vec![0x84, 0]);
}

#[test]
fn crw_hostile_input_is_an_error_not_a_panic() {
    for bytes in [
        &b""[..],
        &b"II"[..],
        &b"II\x1a\0\0\0HEAPCCDR"[..],
        // A heap whose directory offset points past its own end.
        &b"II\x1a\0\0\0HEAPCCDR\x02\0\x01\0\0\0\0\0\0\0\xff\xff\xff\xff"[..],
        &[0xff; 128][..],
    ] {
        assert!(decode(bytes).is_err());
        assert!(preview(bytes).is_err() || preview(bytes).unwrap().is_none());
    }
}

#[test]
fn a_heap_that_points_at_itself_is_walked_a_bounded_number_of_times() {
    // A record of the heap type whose heap is the whole file's.
    let mut file = ciff(&[(0x2800, vec![0; 4])]);
    let heap = file.len() - 26;
    let entry = 26 + 4 + 2;
    file[entry + 2..entry + 6].copy_from_slice(&(heap as u32).to_le_bytes());
    file[entry + 6..entry + 10].copy_from_slice(&0u32.to_le_bytes());
    if let Ok(found) = Ciff::parse(&file) {
        assert!(found.records.len() <= 4096);
    }
}

#[test]
fn numbers_are_read_by_record() {
    let file = ciff(&[(0x1030, vec![1, 0, 2, 0, 3]), (0x1801, vec![4, 0, 0, 0])]);
    let c = Ciff::parse(&file).unwrap();
    assert_eq!(c.shorts(0x1030), vec![1, 2]);
    assert_eq!(c.longs(0x1801), vec![4]);
    assert!(c.shorts(0x1111).is_empty());
    let record = c.find(0x1030).unwrap();
    assert_eq!(c.slice(record).unwrap(), &[1, 0, 2, 0, 3]);
    assert_eq!(c.u16(usize::MAX), None);
}

fn shorts(values: &[u16]) -> Vec<u8> {
    values.iter().flat_map(|v| v.to_le_bytes()).collect()
}

#[test]
fn an_uncompressed_frame_decodes() {
    // A Pro70 in miniature: eight columns by two rows of ten bits, which
    // is ten bytes a row.
    let mut sensor = vec![0u16; 17];
    sensor[1] = 8;
    sensor[2] = 2;
    sensor[5] = 0;
    sensor[6] = 0;
    sensor[7] = 7;
    sensor[8] = 1;
    let file = ciff(&[
        (MAKE_MODEL, b"Canon\0Canon PowerShot Pro70\0".to_vec()),
        (IMAGE_INFO, image_info(8, 2, 0)),
        (SENSOR_INFO, shorts(&sensor)),
        (IMAGE_DATA, vec![0xff; 20]),
        (JPEG, vec![0xff, 0xd8, 0xff, 0xd9]),
    ]);
    match decode(&file) {
        Ok(raw) => {
            assert_eq!(raw.model, "Canon PowerShot Pro70");
            assert_eq!(raw.data.len(), raw.width * raw.height);
            assert_eq!(raw.data[0], 1023);
            assert_eq!(camera_names(&file), Some((raw.make, raw.model)));
            assert_eq!(Some(raw.cfa), uncompressed_cfa("Canon PowerShot Pro70"));
        }
        Err(e) => panic!("{}", e.message()),
    }
    assert_eq!(preview(&file).unwrap(), Some(vec![0xff, 0xd8, 0xff, 0xd9]));
}

#[test]
fn a_compressed_frame_is_refused() {
    let file = ciff(&[
        (MAKE_MODEL, b"Canon\0Canon EOS D30\0".to_vec()),
        (0x1835, vec![0; 8]),
        (IMAGE_DATA, vec![0; 20]),
    ]);
    assert!(matches!(decode(&file), Err(Error::Unsupported(_)) | Err(Error::Corrupt(_))));
    assert!(uncompressed_cfa("Canon EOS D30").is_none());
}

#[test]
fn names_lose_their_padding() {
    assert_eq!(clean("  Canon \0\0"), "Canon");
    let mut sensor = vec![0u16; 17];
    sensor[1] = 8;
    sensor[2] = 8;
    sensor[5] = 2;
    sensor[6] = 1;
    sensor[7] = 5;
    sensor[8] = 4;
    let file = ciff(&[(SENSOR_INFO, shorts(&sensor))]);
    let info = Ciff::parse(&file).unwrap().sensor_info().unwrap();
    assert_eq!(info.crop(8, 8), Some(Rect { x: 2, y: 1, width: 4, height: 4 }));
    assert_eq!(info.crop(4, 4), None);
    let unknown: Option<Cfa> = uncompressed_cfa("");
    assert!(unknown.is_none());
}

#[test]
fn a_record_outside_its_own_heap_is_dropped() {
    // A heap inside the file's: four bytes, a directory of two entries,
    // the second of which begins where the inner heap ends.
    let mut inner = vec![1, 2, 3, 4];
    inner.extend_from_slice(&2u16.to_le_bytes());
    for (tag, offset) in [(0x1030u16, 0u32), (0x1031, 30)] {
        inner.extend_from_slice(&tag.to_le_bytes());
        inner.extend_from_slice(&4u32.to_le_bytes());
        inner.extend_from_slice(&offset.to_le_bytes());
    }
    inner.extend_from_slice(&4u32.to_le_bytes());
    assert_eq!(inner.len(), 30);
    let file = ciff(&[(0x1801, vec![7, 0, 0, 0]), (0x2800, inner), (0x1802, vec![9; 8])]);
    let c = Ciff::parse(&file).unwrap();
    let tags: Vec<u16> = c.records.iter().map(|r| r.tag).collect();
    assert_eq!(tags, vec![0x1801, 0x2800, 0x1030, 0x1802]);
    let (heap, value) = (c.records[1], c.records[2]);
    assert_eq!(c.slice(value).unwrap(), &[1, 2, 3, 4]);
    assert!(heap.at <= value.at && value.at + value.len <= heap.at + heap.len);
    assert!(heap.at >= 26 && heap.at + heap.len <= file.len());
}
