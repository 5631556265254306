use schist::compositor::{composite_region, Scratch, TileCache};
use schist::geom::IntRect;
use schist::tile::{TileCoord, TileGrid, TILE_PIXELS, TILE_SIZE};
use std::sync::Arc;

fn solid(rgba: [u8; 4]) -> Vec<u8> {
    rgba.iter().cycle().take(TILE_PIXELS * 4).copied().collect()
}

#[test]
fn cache_invalidation() {
    let mut cache = TileCache::new();
    let coord = TileCoord { tx: 0, ty: 0 };
    let before = cache.get(coord, |_| solid([10, 20, 30, 255]));
    assert_eq!(&before[0..4], &[10, 20, 30, 255]);
    // What is cached is not composited again.
    let again = cache.get(coord, |_| solid([255, 255, 255, 255]));
    assert_eq!(&again[0..4], &[10, 20, 30, 255]);

    cache.invalidate(&IntRect::from_xywh(0, 0, 1, 1));
    let after = cache.get(coord, |_| solid([255, 255, 255, 255]));
    assert_eq!(&after[0..4], &[255, 255, 255, 255]);
}

#[test]
fn invalidation_is_exact() {
    let mut cache = TileCache::new();
    let coords = TileCoord::covering(&IntRect::new(0, 0, 600, 10));
    assert_eq!(coords.len(), 3);
    for c in &coords {
        cache.get(*c, |_| vec![1]);
    }
    cache.invalidate(&IntRect::new(256, 0, 257, 1));
    assert_eq!(cache.missing(&coords), vec![TileCoord { tx: 1, ty: 0 }]);
    cache.invalidate_all();
    assert_eq!(cache.missing(&coords), coords);
}

#[test]
fn prewarming_fills_what_is_missing() {
    let mut cache = TileCache::new();
    let coords = TileCoord::covering(&IntRect::new(0, 0, 300, 10));
    let missing = cache.missing(&coords);
    assert_eq!(missing.len(), 2);
    cache.prewarm(missing.iter().map(|c| (*c, Arc::new(vec![c.tx as u8]))).collect());
    assert!(cache.missing(&coords).is_empty());
    let tile = cache.get(coords[1], |_| vec![99]);
    assert_eq!(*tile, vec![1]);
}

#[test]
fn coordinates_floor() {
    assert_eq!(TILE_SIZE, 256);
    assert_eq!(TileCoord::containing(-1, 255), TileCoord { tx: -1, ty: 0 });
    assert_eq!(TileCoord::containing(256, -257), TileCoord { tx: 1, ty: -2 });
    assert_eq!(
        TileCoord { tx: -1, ty: 2 }.rect(),
        IntRect::new(-256, 512, 0, 768)
    );
}

#[test]
fn covering_walks_by_rows() {
    let coords = TileCoord::covering(&IntRect::new(-1, -1, 257, 1));
    let pairs: Vec<(i32, i32)> = coords.iter().map(|c| (c.tx, c.ty)).collect();
    assert_eq!(pairs, vec![(-1, -1), (0, -1), (1, -1), (-1, 0), (0, 0), (1, 0)]);
    assert!(TileCoord::covering(&IntRect::new(5, 5, 5, 9)).is_empty());
}

#[test]
fn a_region_is_cut_from_its_tiles() {
    // Tiles whose pixels say where they are.
    let region = IntRect::new(254, 255, 258, 257);
    let tiles: Vec<Vec<i32>> = TileCoord::covering(&region)
        .iter()
        .map(|c| {
            let mut tile = Vec::with_capacity(TILE_PIXELS * 4);
            for y in 0..TILE_SIZE {
                for x in 0..TILE_SIZE {
                    tile.extend_from_slice(&[c.tx * 256 + x, c.ty * 256 + y, 0, 1]);
                }
            }
            tile
        })
        .collect();
    let out = composite_region(region, &tiles);
    assert_eq!(out.len(), 4 * 2 * 4);
    let mut i = 0;
    for y in 255..257 {
        for x in 254..258 {
            assert_eq!(&out[i..i + 4], &[x, y, 0, 1]);
            i += 4;
        }
    }
}

#[test]
fn a_grid_holds_what_was_put_last() {
    let mut grid: TileGrid<u32> = TileGrid::new();
    let (a, b) = (TileCoord { tx: 1, ty: 2 }, TileCoord { tx: 2, ty: 1 });
    grid.insert(a, 5);
    grid.insert(b, 6);
    grid.insert(a, 7);
    assert_eq!((grid.get(a), grid.get(b)), (Some(&7), Some(&6)));
    grid.remove(a);
    assert_eq!((grid.get(a), grid.get(b)), (None, Some(&6)));
    grid.remove_all(&[b]);
    assert_eq!(grid.get(b), None);
    grid.insert(a, 1);
    grid.clear();
    assert_eq!(grid.get(a), None);
}

#[test]
fn buffers_come_back_blank() {
    let mut scratch: Scratch<u16> = Scratch::new();
    let mut buf = scratch.take(0);
    assert_eq!(buf.len(), TILE_PIXELS * 4);
    buf[5] = 9;
    scratch.give(buf);
    assert!(scratch.take(0).iter().all(|v| *v == 0));
    assert!(scratch.take(3).iter().all(|v| *v == 3));
}
