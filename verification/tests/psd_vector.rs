use schist::psd::vector::{
    read_vector_mask, write_vector_mask, FixedPoint, FixedSubPath, Knot,
};

fn fixed(v: f32) -> i32 {
    (v * (1 << 24) as f32).round() as i32
}

fn float(raw: i32) -> f32 {
    raw as f32 / (1 << 24) as f32
}

fn at(x: f32, y: f32, w: f32, h: f32) -> FixedPoint {
    FixedPoint { x: fixed(x / w), y: fixed(y / h) }
}

fn corner(x: f32, y: f32, w: f32, h: f32) -> Knot {
    let p = at(x, y, w, h);
    Knot { incoming: p, point: p, outgoing: p }
}

fn smooth(x: f32, y: f32, dx: f32, dy: f32, w: f32, h: f32) -> Knot {
    Knot {
        incoming: at(x - dx, y - dy, w, h),
        point: at(x, y, w, h),
        outgoing: at(x + dx, y + dy, w, h),
    }
}

/// A path of a document of the given size, as fractions of it.
fn sample(w: f32, h: f32) -> Vec<FixedSubPath> {
    vec![
        FixedSubPath {
            anchors: vec![
                corner(10.0, 20.0, w, h),
                smooth(90.0, 20.0, 8.0, 0.0, w, h),
                corner(90.0, 80.0, w, h),
            ],
            closed: true,
        },
        FixedSubPath {
            anchors: vec![corner(5.0, 5.0, w, h), corner(50.0, 50.0, w, h)],
            closed: false,
        },
    ]
}

fn knots(path: &[FixedSubPath]) -> Vec<Knot> {
    path.iter().flat_map(|s| s.anchors.iter().copied()).collect()
}

#[test]
fn paths_round_trip_through_a_vector_mask() {
    let before = sample(200.0, 100.0);
    let bytes = write_vector_mask(&before);
    let after = read_vector_mask(&bytes).expect("reads back");

    assert_eq!(after.len(), 2);
    assert!(after[0].closed);
    assert!(!after[1].closed);
    let pixels = [(10.0, 20.0), (90.0, 20.0), (90.0, 80.0), (5.0, 5.0), (50.0, 50.0)];
    let handles = [0.0, 8.0, 0.0, 0.0, 0.0];
    let all = knots(&after);
    assert_eq!(all.len(), 5);
    for i in 0..5 {
        let (x, y) = (float(all[i].point.x) * 200.0, float(all[i].point.y) * 100.0);
        assert!(
            (x - pixels[i].0).abs() < 0.01 && (y - pixels[i].1).abs() < 0.01,
            "{:?} != {:?}",
            (x, y),
            pixels[i]
        );
        let out = float(all[i].outgoing.x) * 200.0 - x;
        assert!((out - handles[i] as f32).abs() < 0.01, "handle lost");
    }
    assert_eq!(after, before);
}

#[test]
fn coordinates_are_fractions_of_the_document_not_pixels() {
    // The same path in a document twice as wide must encode to
    // different bytes, and decode back to the same pixels.
    let a = write_vector_mask(&sample(200.0, 100.0));
    let b = write_vector_mask(&sample(400.0, 100.0));
    assert_ne!(a, b, "the encoding ignored the document size");
    let back = read_vector_mask(&b).unwrap();
    let first = float(back[0].anchors[0].point.x) * 400.0;
    assert!((first - 10.0).abs() < 0.01, "x came back as {}", first);
}

#[test]
fn records_are_twenty_six_bytes_each() {
    let bytes = write_vector_mask(&sample(100.0, 100.0));
    // Eight bytes of header, then one length record and one knot
    // record per anchor in each subpath.
    let records = 2 + 3 + 2;
    assert_eq!(bytes.len(), 8 + records * 26);
}

#[test]
fn garbage_and_truncation_are_none_rather_than_a_panic() {
    assert!(read_vector_mask(&[]).is_none());
    assert!(read_vector_mask(&[0; 4]).is_none());
    let mut bytes = write_vector_mask(&sample(100.0, 100.0));
    bytes.truncate(bytes.len() - 7);
    let _ = read_vector_mask(&bytes);
}

#[test]
fn an_empty_path_encodes_to_a_bare_header() {
    let bytes = write_vector_mask(&[]);
    assert_eq!(bytes.len(), 8);
    assert!(read_vector_mask(&bytes).is_none());
}

#[test]
fn a_knot_is_three_points_vertical_first() {
    let point = |x, y| FixedPoint { x, y };
    let path = vec![FixedSubPath {
        anchors: vec![Knot { incoming: point(1, 2), point: point(3, -1), outgoing: point(5, 6) }],
        closed: false,
    }];
    let bytes = write_vector_mask(&path);
    assert_eq!(bytes[..8], [0, 0, 0, 3, 0, 0, 0, 0]);
    assert_eq!(bytes[8..12], [0, 3, 0, 1]);
    assert_eq!(
        bytes[34..60],
        [
            0, 5, 0, 0, 0, 2, 0, 0, 0, 1, 255, 255, 255, 255, 0, 0, 0, 3, 0, 0, 0, 6, 0, 0, 0, 5
        ]
    );
}
