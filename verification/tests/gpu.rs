use schist::gpu::{
    chunks, groups, launch, limit, origins, pack_chunk, pack_grid, pack_ops, split, tile_cost,
    to_bytes, to_words, viewport_words, MaskRef, Op, Scales, Source, TileBuf, Viewport, BUDGET_BYTES,
    NO_SLOT,
};
use schist::tile::{TileCoord, TILE_PIXELS};

fn scales() -> Scales {
    Scales {
        eight: (0..256).map(|v| (v as f32 / 255.0).to_bits()).collect(),
        sixteen: (0..65536).map(|v| (v as f32 / 65535.0).to_bits()).collect(),
    }
}

#[test]
fn chunks_partition_a_batch() {
    assert_eq!(chunks(&[10; 300]), Some(vec![(0, 128), (128, 256), (256, 300)]));
    let third = BUDGET_BYTES / 3 + 1;
    assert_eq!(chunks(&[third; 5]), Some(vec![(0, 2), (2, 4), (4, 5)]));
    assert_eq!(chunks(&[BUDGET_BYTES + 1]), None);
    assert_eq!(chunks(&[]), Some(Vec::new()));
}

#[test]
fn limits_are_the_adapters_within_reason() {
    assert_eq!(limit(u64::MAX, 128), 1 << 30);
    assert_eq!(limit(500, 128), 500);
    assert_eq!(limit(100, 128), 128);
}

#[test]
fn pixels_pack_at_the_widest_depth_of_a_source() {
    let mut bytes = vec![0u8; TILE_PIXELS * 4];
    bytes[0] = 1;
    bytes[1] = 255;
    let mut words = vec![0u16; TILE_PIXELS * 4];
    words[0] = 7;
    let sources = vec![
        Source::Pixels(vec![Some(TileBuf::U8(bytes)), Some(TileBuf::U16(words))]),
        Source::Mask(vec![None, Some(vec![3; TILE_PIXELS])]),
    ];
    let chunk = pack_chunk(&sources, 2, &scales());
    assert_eq!(chunk.formats[0], 1);
    assert_eq!(chunk.pixels.len(), 2 * TILE_PIXELS * 2);
    // A byte widens by 257, two to a word.
    assert_eq!(chunk.pixels[0], 257 + (65535 << 16));
    assert_eq!(chunk.pixels[TILE_PIXELS * 2], 7);
    assert_eq!(chunk.masks.len(), TILE_PIXELS / 4);
    assert_eq!(chunk.masks[0], 0x0303_0303);
    assert_eq!(chunk.slots[0], 0);
    assert_eq!(chunk.slots[2], NO_SLOT);
    assert!(chunk.slots[3] != NO_SLOT);
}

#[test]
fn eight_bit_pixels_stay_four_to_a_word() {
    let mut bytes = vec![0u8; TILE_PIXELS * 4];
    bytes[..4].copy_from_slice(&[1, 2, 3, 4]);
    let sources = vec![Source::Pixels(vec![Some(TileBuf::U8(bytes))])];
    // The cost reckons with the widest format.
    assert_eq!(tile_cost(&sources, 0, 1), TILE_PIXELS * 16);
    let chunk = pack_chunk(&sources, 1, &scales());
    assert_eq!(chunk.formats, vec![0]);
    assert_eq!(chunk.pixels[0], 0x0403_0201);
    assert_eq!(chunk.pixels.len(), TILE_PIXELS);
}

#[test]
fn a_float_source_takes_the_rest_along() {
    let mut bytes = vec![0u8; TILE_PIXELS * 4];
    bytes[0] = 255;
    let floats = vec![0.25f32.to_bits(); TILE_PIXELS * 4];
    let sources = vec![Source::Pixels(vec![Some(TileBuf::U8(bytes)), Some(TileBuf::F32(floats))])];
    let chunk = pack_chunk(&sources, 2, &scales());
    assert_eq!(chunk.formats, vec![2]);
    assert_eq!(f32::from_bits(chunk.pixels[0]), 1.0);
    assert_eq!(f32::from_bits(chunk.pixels[TILE_PIXELS * 4]), 0.25);
}

#[test]
fn no_sources_leave_one_row_without_slots() {
    let chunk = pack_chunk(&Vec::new(), 3, &scales());
    assert_eq!(chunk.slots, vec![NO_SLOT; 3]);
    assert!(chunk.pixels.is_empty() && chunk.masks.is_empty());
}

#[test]
fn operations_take_twenty_words() {
    let op = Op {
        kind: 1,
        mode: 2,
        opacity_bits: 3,
        flags: 4,
        src_ref: 0,
        lut: -1,
        mask: MaskRef { row: -1, left: -5, top: 6, right: 7, bottom: 8, default_bits: 9 },
        fill_bits: (10, 11, 12, 13),
    };
    let words = pack_ops(&vec![op], &vec![2]);
    assert_eq!(
        words,
        vec![
            1, 2, 3, 4, 0, 2, u32::MAX, u32::MAX, u32::MAX - 4, 6, 7, 8, 10, 11, 12, 13, 9, 0, 0, 0
        ]
    );
}

#[test]
fn origins_are_top_left_corners() {
    let coords = [TileCoord { tx: 1, ty: -1 }, TileCoord { tx: 0, ty: 2 }];
    assert_eq!(origins(&coords), vec![256, -256, 0, 512]);
}

#[test]
fn a_grid_packs_the_tiles_that_are_there() {
    let tile = |v| Some(vec![v; TILE_PIXELS * 4]);
    let (bytes, index) = pack_grid(10, 10, &[tile(1), None, tile(2)]).unwrap();
    assert_eq!(index, vec![0, -1, 1]);
    assert_eq!(bytes.len(), 2 * TILE_PIXELS * 4);
    assert_eq!((bytes[0], bytes[TILE_PIXELS * 4]), (1, 2));
    assert!(pack_grid(100_000, 100_000, &[]).is_none());
}

#[test]
fn a_place_counts_the_whole_tiles_before_it() {
    // A tile of no bytes takes up no place in what is packed.
    let empty = || Some(Vec::new());
    let (bytes, index) = pack_grid(1, 1, &[empty(), empty()]).unwrap();
    assert_eq!((bytes.len(), index), (0, vec![0, 0]));
    let whole = || Some(vec![9; TILE_PIXELS * 4]);
    let half = Some(vec![7; TILE_PIXELS * 2]);
    let (_, index) = pack_grid(1, 1, &[whole(), half, whole(), None, whole()]).unwrap();
    assert_eq!(index, vec![0, 1, 1, -1, 2]);
}

#[test]
fn words_survive_bytes() {
    let words = [1, 0x0102_0304, u32::MAX];
    let bytes = to_bytes(&words);
    assert_eq!(bytes[4..8], [4, 3, 2, 1]);
    assert_eq!(to_words(&bytes), words);
}

#[test]
fn work_is_split_by_sixteen_and_results_by_tile() {
    assert_eq!((groups(0), groups(1), groups(16), groups(17)), (0, 1, 1, 2));
    assert_eq!(split(&[1, 2, 3, 4, 5], 2), vec![vec![1, 2], vec![3, 4]]);
}

#[test]
fn every_pixel_gets_a_thread() {
    let l = launch(7, 3);
    assert_eq!((l.globals, l.groups), ([7, 3, 0, 0], (16, 16, 3)));
    assert_eq!(l.narrow_globals, [196_608, 0, 0, 0]);
    assert_eq!(l.narrow_groups, (768, 1, 1));
    assert_eq!((l.float_bytes, l.narrow_bytes), (3_145_728, 786_432));
}

#[test]
fn a_viewport_is_a_list_of_words() {
    let v = Viewport {
        width: 3,
        height: 4,
        origin_bits: (1, 2),
        center_bits: (3, 4),
        sine_bits: 5,
        cosine_bits: 6,
        inverse_zoom_bits: 7,
        scale_bits: 8,
        inverse_scale_bits: 9,
        left: -1,
        top: 0,
        right: 1,
        bottom: 2,
        grid_origin: (0, -1),
        grid_cols: 10,
        grid_rows: 11,
        surround: 12,
        crisp: true,
        box_taps: 13,
    };
    assert_eq!(
        viewport_words(v),
        vec![
            3, 4, 1, 2, 3, 4, 5, 6, 7, 8, 9, 0, u32::MAX, 0, 1, 2, 0, u32::MAX, 10, 11, 12, 1, 13,
            0
        ]
    );
}
