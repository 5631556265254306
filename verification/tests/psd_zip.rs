use schist::color::Depth;
use schist::psd::zip::{decode_channel, encode_channel, finish_channel, predict, unpredict};
use schist::psd::PsdError;

fn sample(rows: usize, row_bytes: usize) -> Vec<u8> {
    // Smoothly varying data, which is what prediction is for.
    (0..rows * row_bytes)
        .map(|i| ((i * 7 / 3) % 251) as u8)
        .collect()
}

#[test]
fn prediction_is_its_own_inverse_at_every_depth() {
    for depth in [Depth::Eight, Depth::Sixteen, Depth::ThirtyTwo] {
        let (rows, row_bytes) = (5usize, 32usize);
        let plane = sample(rows, row_bytes);
        let mut buf = plane.clone();
        predict(&mut buf, rows, row_bytes, depth);
        assert_ne!(buf, plane, "{depth:?}: prediction did nothing");
        unpredict(&mut buf, rows, row_bytes, depth);
        assert_eq!(buf, plane, "{depth:?}: prediction is not reversible");
    }
}

#[test]
fn channels_round_trip_with_and_without_prediction() {
    for depth in [Depth::Eight, Depth::Sixteen, Depth::ThirtyTwo] {
        for predicted in [false, true] {
            let (rows, row_bytes) = (7usize, 64usize);
            let plane = sample(rows, row_bytes);
            let packed = encode_channel(&plane, rows, row_bytes, depth, predicted);
            let back =
                decode_channel(&packed, rows, row_bytes, depth, predicted).expect("decodes");
            assert_eq!(back, plane, "{depth:?} predicted={predicted}");
        }
    }
}

#[test]
fn prediction_makes_smooth_data_compress_better() {
    // The whole point of method 3 over method 2.
    let (rows, row_bytes) = (64usize, 256usize);
    let data: Vec<u8> = (0..rows * row_bytes).map(|i| (i / 4) as u8).collect();
    let plain = encode_channel(&data, rows, row_bytes, Depth::Eight, false);
    let predicted = encode_channel(&data, rows, row_bytes, Depth::Eight, true);
    assert!(
        predicted.len() < plain.len(),
        "prediction did not help: {} vs {}",
        predicted.len(),
        plain.len()
    );
}

#[test]
fn corrupt_input_errors_rather_than_panicking() {
    assert!(decode_channel(&[], 4, 16, Depth::Eight, false).is_err());
    assert!(decode_channel(&[1, 2, 3, 4], 4, 16, Depth::Eight, true).is_err());
    // A valid stream that is too short for the declared size.
    let short = encode_channel(&[0u8; 16], 1, 16, Depth::Eight, false);
    assert!(decode_channel(&short, 4, 16, Depth::Eight, false).is_err());
}

#[test]
fn eight_bit_rows_hold_differences() {
    let mut buf = vec![10, 13, 11, 200, 1, 1];
    predict(&mut buf, 2, 3, Depth::Eight);
    assert_eq!(buf, vec![10, 3, 254, 200, 57, 0]);
}

#[test]
fn sixteen_bit_rows_hold_word_differences() {
    let mut buf = vec![1, 0, 0, 255];
    predict(&mut buf, 1, 4, Depth::Sixteen);
    assert_eq!(buf, vec![1, 0, 255, 255]);
}

#[test]
fn thirty_two_bit_rows_are_planes_of_bytes() {
    // Two samples: the first bytes of both come first, and so on; then the
    // differences of the whole row.
    let mut buf = vec![1, 2, 3, 4, 5, 6, 7, 8];
    predict(&mut buf, 1, 8, Depth::ThirtyTwo);
    assert_eq!(buf, vec![1, 4, 253, 4, 253, 4, 253, 4]);
}

#[test]
fn a_stream_of_the_wrong_size_is_named() {
    let short = finish_channel(Ok(vec![0; 16]), 4, 16, Depth::Eight, false);
    let message = match short {
        Err(PsdError::Corrupt(text)) => text,
        other => panic!("{other:?}"),
    };
    assert!(message.contains("16") && message.contains("64"), "{message}");
    assert_eq!(
        finish_channel(Ok(vec![1, 1, 1]), 1, 3, Depth::Eight, true).unwrap(),
        vec![1, 2, 3]
    );
}

#[test]
fn deflating_shrinks_a_blank_plane() {
    let packed = encode_channel(&[0u8; 4096], 64, 64, Depth::Eight, false);
    assert!(packed.len() < 100);
    assert_eq!(
        decode_channel(&packed, 64, 64, Depth::Eight, false).unwrap(),
        vec![0u8; 4096]
    );
}
