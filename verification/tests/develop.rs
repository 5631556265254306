use schist::raw::develop::{cut_out, orient, plan, white_balance, Levels, Steps};
use schist::raw::frame::{Ratio, RawImage};
use schist::raw::image::{Cfa, CfaColor, Orientation};
use schist::raw::{Error, Format, Rect};

const ALL: Steps = Steps { crop: true, orient: true };

fn bayer(width: usize, height: usize) -> RawImage {
    let data = vec![512u16; width * height];
    let mut raw = RawImage::new(Format::Dng, width, height, 1, data, Cfa::rggb());
    raw.white_level = Ratio::whole(1023);
    raw
}

fn float(q: Ratio) -> f32 {
    q.num as f32 / q.den as f32
}

/// The balance that developing multiplies by, in floats.
fn balance(source: [f32; 4]) -> [f32; 4] {
    let usable = source.map(|v| v.is_finite() && v > 0.0);
    white_balance(source, usable, 1.0)
}

/// Each sample less its black level, over the white, times its channel's
/// multiplier.
fn normalised(raw: &RawImage, levels: &Levels, wb: [f32; 4]) -> Vec<f32> {
    let white = float(raw.white_level);
    let mut out = Vec::new();
    for y in 0..raw.height {
        for x in 0..raw.width * raw.cpp {
            let i = if raw.cpp == 3 { x % 3 } else { levels.position(x, y) };
            let black = float(levels.black[i]);
            let v = raw.data[y * raw.width * raw.cpp + x] as f32;
            out.push(((v - black) / (white - black) * wb[levels.channel[i]]).max(0.0));
        }
    }
    out
}

/// The caller's multipliers replace the file's, and a zero second
/// green means "use the first".
#[test]
fn white_balance_override() {
    let wb = balance([2.0, 1.0, 3.0, 0.0]);
    assert_eq!(wb, [2.0, 1.0, 3.0, 1.0]);
    let mut raw = bayer(8, 8);
    raw.data = vec![256; 64];
    raw.white_level = Ratio::whole(1024);
    let levels = Levels::per_position(&raw).expect("levels");
    let out = normalised(&raw, &levels, wb);
    for y in 0..8 {
        for x in 0..8 {
            let want = match raw.cfa.color_at(x, y) {
                Some(CfaColor::Red) => 0.5,
                Some(CfaColor::Blue) => 0.75,
                _ => 0.25,
            };
            assert!((out[y * 8 + x] - want).abs() < 3e-3);
        }
    }
}

#[test]
fn unusable_multipliers_are_one() {
    assert_eq!(balance([f32::NAN, 2.0, -1.0, 3.0]), [1.0, 2.0, 1.0, 3.0]);
    assert_eq!(balance([0.0, 0.0, 0.0, 0.0]), [1.0, 1.0, 1.0, 1.0]);
}

/// Cropping after the interpolation means the cropped frame is
/// exactly the window of the uncropped one — no re-phasing of the
/// filter array, and no border artefacts pulled inside.
#[test]
fn crop_is_a_window_on_the_full_frame() {
    let mut raw = bayer(32, 24);
    raw.crop = Rect { x: 3, y: 5, width: 20, height: 14 };
    let whole = plan(&raw, Steps { crop: false, orient: true }).expect("plan");
    let cropped = plan(&raw, ALL).expect("plan");
    assert_eq!((whole.width, whole.height), (32, 24));
    assert_eq!((cropped.width, cropped.height), (20, 14));
    let rgb: Vec<f32> = (0..32 * 24 * 3).map(|i| i as f32).collect();
    let window = cut_out(&rgb, 32, 24, cropped.crop);
    for y in 0..14 {
        let from = ((y + 5) * 32 + 3) * 3;
        assert_eq!(
            &window[y * 20 * 3..(y + 1) * 20 * 3],
            &rgb[from..from + 20 * 3]
        );
    }
    assert_eq!(cut_out(&rgb, 32, 24, whole.crop), rgb);
}

/// Three samples a pixel: no interpolation, levels and
/// multipliers per channel. Values are `index / 10` so the eight
/// orientation cases below can be read off by eye.
fn linear_raw(orientation: Orientation) -> RawImage {
    let (width, height) = (2, 3);
    let data: Vec<u16> = (0..width * height)
        .flat_map(|i| [i as u16 * 10; 3])
        .collect();
    let mut raw = RawImage::new(Format::Dng, width, height, 3, data, Cfa::Linear);
    raw.white_level = Ratio::whole(100);
    raw.orientation = orientation;
    raw
}

#[test]
fn three_samples_a_pixel() {
    let raw = linear_raw(Orientation::Normal);
    let steps = plan(&raw, ALL).expect("plan");
    assert_eq!((steps.width, steps.height), (2, 3));
    assert!(!steps.mosaic);
    let want: Vec<f32> = (0..6).flat_map(|i| [i as f32 / 10.0; 3]).collect();
    let out = normalised(&raw, &steps.levels, balance([1.0; 4]));
    assert_eq!(out.len(), want.len());
    for (a, b) in out.iter().zip(want.iter()) {
        assert!((a - b).abs() <= 1e-6);
    }
}

/// All eight EXIF orientations against hand-written expectations.
/// The source is
///
/// ```text
/// 0 1
/// 2 3
/// 4 5
/// ```
#[test]
fn every_orientation() {
    let cases: [(Orientation, usize, usize, [usize; 6]); 8] = [
        (Orientation::Normal, 2, 3, [0, 1, 2, 3, 4, 5]),
        (Orientation::MirrorHorizontal, 2, 3, [1, 0, 3, 2, 5, 4]),
        (Orientation::Rotate180, 2, 3, [5, 4, 3, 2, 1, 0]),
        (Orientation::MirrorVertical, 2, 3, [4, 5, 2, 3, 0, 1]),
        (Orientation::Transpose, 3, 2, [0, 2, 4, 1, 3, 5]),
        (Orientation::Rotate90CW, 3, 2, [4, 2, 0, 5, 3, 1]),
        (Orientation::Transverse, 3, 2, [5, 3, 1, 4, 2, 0]),
        (Orientation::Rotate270CW, 3, 2, [1, 3, 5, 0, 2, 4]),
    ];
    for (orientation, width, height, want) in cases {
        let raw = linear_raw(orientation);
        let steps = plan(&raw, ALL).expect("plan");
        assert_eq!((steps.width, steps.height), (width, height), "{orientation:?}");
        let out = orient(&normalised(&raw, &steps.levels, [1.0; 4]), 2, 3, steps.orientation);
        let expect: Vec<f32> = want.iter().flat_map(|i| [*i as f32 / 10.0; 3]).collect();
        assert_eq!(out.len(), expect.len());
        for (a, b) in out.iter().zip(expect.iter()) {
            assert!((a - b).abs() <= 1e-6, "{orientation:?}");
        }
        // Off by request, the stored orientation is left alone.
        let stored = plan(&raw, Steps { crop: true, orient: false }).expect("plan");
        assert_eq!((stored.width, stored.height), (2, 3), "{orientation:?}");
        assert_eq!(stored.orientation, Orientation::Normal);
    }
}

/// Orientation is applied to the *cropped* frame, and the crop is
/// in unrotated sensor coordinates.
#[test]
fn crop_then_orient() {
    let mut raw = bayer(16, 12);
    raw.crop = Rect { x: 2, y: 2, width: 10, height: 8 };
    raw.orientation = Orientation::Rotate90CW;
    let steps = plan(&raw, ALL).expect("plan");
    assert_eq!((steps.width, steps.height), (8, 10));
}

/// Inconsistent images are refused before anything indexes them.
#[test]
fn rejects_bad_images() {
    let mut raw = bayer(8, 8);
    raw.width = 9;
    assert!(plan(&raw, ALL).is_err());
}

/// Sample counts the pipeline has no meaning for are refused
/// rather than half-read.
#[test]
fn rejects_odd_sample_counts() {
    let mut raw = bayer(8, 8);
    raw.cpp = 4;
    raw.data = vec![100u16; 8 * 8 * 4];
    assert!(matches!(plan(&raw, ALL), Err(Error::Unsupported(_))));
}

#[test]
fn turning_back_undoes_a_turn() {
    let src: Vec<u8> = (0..2 * 5 * 3).collect();
    let turned = orient(&src, 2, 5, Orientation::Rotate90CW);
    assert_ne!(turned, src);
    assert_eq!(orient(&turned, 5, 2, Orientation::Rotate270CW), src);
    for own in [
        Orientation::MirrorHorizontal,
        Orientation::MirrorVertical,
        Orientation::Rotate180,
    ] {
        assert_eq!(orient(&orient(&src, 2, 5, own), 2, 5, own), src);
    }
}

#[test]
fn levels_follow_the_filter_positions() {
    let mut raw = bayer(4, 4);
    raw.black_levels = [
        Ratio::whole(64),
        Ratio::whole(68),
        Ratio::whole(69),
        Ratio::whole(72),
    ];
    let levels = Levels::per_position(&raw).expect("levels");
    assert_eq!((levels.width, levels.height), (2, 2));
    assert_eq!(levels.channel, vec![0, 1, 1, 2]);
    assert_eq!(levels.black[levels.position(3, 2)], Ratio::whole(68));
    assert_eq!(levels.black[levels.position(2, 3)], Ratio::whole(69));
}
