use schist::geom::IntRect;
use schist::path::{bounds, nearest, neighbours, Anchor, SubPath, VectorPath};

fn corner(x: i32, y: i32) -> Anchor<i32> {
    Anchor { point: (x, y), handle_in: (0, 0), handle_out: (0, 0) }
}

#[test]
fn a_path_without_anchors_is_empty() {
    let mut path: VectorPath<i32> = VectorPath::new("p".to_string());
    assert_eq!(path.name, "p");
    assert!(path.is_empty());
    path.subpaths.push(SubPath { anchors: Vec::new(), closed: true });
    assert!(path.is_empty());
    path.subpaths.push(SubPath { anchors: vec![corner(1, 2), corner(3, 4)], closed: false });
    assert!(!path.is_empty());
    assert_eq!(path.anchors(), vec![(1, 0), (1, 1)]);
}

#[test]
fn neighbours_wrap_only_when_closed() {
    assert_eq!(neighbours(3, true, 0), (2, 1));
    assert_eq!(neighbours(3, true, 2), (1, 0));
    assert_eq!(neighbours(3, false, 0), (0, 1));
    assert_eq!(neighbours(3, false, 2), (1, 2));
}

#[test]
fn the_nearest_is_within_the_radius() {
    let bits = |v: f32| v.to_bits();
    let far = [bits(5.0), bits(2.0), bits(2.0), bits(9.0)];
    assert_eq!(nearest(&far, bits(2.0)), Some(1));
    assert_eq!(nearest(&far, bits(1.5)), None);
    assert_eq!(nearest(&[], bits(1.5)), None);
}

#[test]
fn bounds_hold_every_box() {
    let boxes = [IntRect::new(0, 0, 4, 4), IntRect::new(-2, 1, 1, 9)];
    assert_eq!(bounds(&boxes), IntRect::new(-2, 0, 4, 9));
    assert!(bounds(&[]).is_empty());
}

#[test]
fn paths_are_cloned_whole() {
    let anchor = |x: i32| Anchor { point: (x, 1), handle_in: (-1, 0), handle_out: (1, 0) };
    let mut path: VectorPath<i32> = VectorPath::new("outline".to_string());
    path.subpaths.push(SubPath { anchors: vec![anchor(1), anchor(2)], closed: true });
    path.subpaths.push(SubPath { anchors: Vec::new(), closed: false });
    let copy = path.clone();
    assert_eq!(copy, path);
    path.subpaths[0].anchors[1] = anchor(3);
    assert_ne!(copy, path);
    assert_eq!(copy.name, "outline");
}
