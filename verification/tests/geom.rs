use schist::geom::IntRect;

#[test]
fn intersect_disjoint_is_empty() {
    let a = IntRect::from_xywh(0, 0, 10, 10);
    let b = IntRect::from_xywh(20, 20, 5, 5);
    assert!(a.intersect(&b).is_empty());
}

#[test]
fn union_of_empty_is_other() {
    let a = IntRect::nowhere();
    let b = IntRect::from_xywh(-5, -5, 10, 10);
    assert_eq!(a.union(&b), b);
}

#[test]
fn an_intersection_holds_what_both_hold() {
    let a = IntRect::new(0, 0, 10, 10);
    let b = IntRect::new(5, -5, 20, 6);
    let both = a.intersect(&b);
    assert_eq!(both, IntRect::new(5, 0, 10, 6));
    assert!(both.contains(5, 0) && !both.contains(10, 0) && !both.contains(4, 0));
    assert_eq!(both, b.intersect(&a));
}

#[test]
fn a_union_is_the_hull() {
    let a = IntRect::new(0, 0, 1, 1);
    let b = IntRect::new(4, -3, 5, 9);
    assert_eq!(a.union(&b), IntRect::new(0, -3, 5, 9));
}

#[test]
fn sizes_and_moves() {
    let a = IntRect::from_size(7, 3);
    assert_eq!((a.width(), a.height()), (7, 3));
    assert_eq!(IntRect::new(5, 5, 2, 9).width(), 0);
    assert_eq!(a.translated(2, -1), IntRect::new(2, -1, 9, 2));
    assert_eq!(a.translated(2, -1).translated(-2, 1), a);
    assert_eq!(a.inflated(1), IntRect::new(-1, -1, 8, 4));
    assert_eq!(IntRect::from_size(u32::MAX, 1).right, -1);
    assert_eq!(IntRect::default(), IntRect::nowhere());
}

#[test]
fn growth_and_moves_can_be_undone() {
    let a = IntRect::new(1, 2, 30, 40);
    assert_eq!(a.inflated(5), IntRect::new(-4, -3, 35, 45));
    assert_eq!(a.inflated(5).inflated(-5), a);
    assert_eq!(a.translated(7, -9).translated(-7, 9), a);
}
