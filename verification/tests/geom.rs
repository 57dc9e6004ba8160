use philis::geom::Rect;

#[test]
fn new_rejects_degenerate_and_inverted_rects() {
    assert!(Rect::new(0, 0, 10, 10).is_ok());
    assert!(Rect::new(0, 0, 0, 10).is_err());
    assert!(Rect::new(0, 0, 10, 0).is_err());
    assert!(Rect::new(10, 0, 0, 10).is_err());
}

#[test]
fn width_height_area() {
    let r = Rect::new(0, 0, 10, 4).unwrap();
    assert_eq!(r.width(), 10);
    assert_eq!(r.height(), 4);
    assert_eq!(r.area(), 40);
}

#[test]
fn contains() {
    let outer = Rect::new(0, 0, 10, 10).unwrap();
    let inner = Rect::new(2, 2, 8, 8).unwrap();
    let edge = Rect::new(0, 0, 10, 10).unwrap();
    let outside = Rect::new(5, 5, 15, 15).unwrap();
    assert!(outer.contains(&inner));
    assert!(outer.contains(&edge));
    assert!(!outer.contains(&outside));
    assert!(!inner.contains(&outer));
}

#[test]
fn overlaps_excludes_touching() {
    let a = Rect::new(0, 0, 10, 10).unwrap();
    let touching = Rect::new(10, 0, 20, 10).unwrap();
    let overlapping = Rect::new(5, 5, 15, 15).unwrap();
    let disjoint = Rect::new(20, 20, 30, 30).unwrap();

    assert!(!a.overlaps(&touching));
    assert!(!touching.overlaps(&a));
    assert!(a.overlaps(&overlapping));
    assert!(overlapping.overlaps(&a));
    assert!(!a.overlaps(&disjoint));
}

#[test]
fn intersection_matches_overlap() {
    let a = Rect::new(0, 0, 10, 10).unwrap();
    let b = Rect::new(5, 5, 15, 15).unwrap();
    let touching = Rect::new(10, 0, 20, 10).unwrap();

    assert_eq!(a.intersection(&b), Rect::new(5, 5, 10, 10).ok());
    assert_eq!(b.intersection(&a), Rect::new(5, 5, 10, 10).ok());
    assert_eq!(a.intersection(&touching), None);
}

#[test]
fn expand_grows_and_shrinks() {
    let r = Rect::new(10, 10, 20, 20).unwrap();
    assert_eq!(r.expand(5), Rect::new(5, 5, 25, 25));
    assert_eq!(r.expand(-3), Rect::new(13, 13, 17, 17));
    // Shrinking past zero size is invalid.
    assert!(r.expand(-5).is_err());
}

#[test]
fn manhattan_distance_symmetry_and_zero_when_touching() {
    let a = Rect::new(0, 0, 10, 10).unwrap();
    let b = Rect::new(20, 0, 30, 10).unwrap();
    let touching = Rect::new(10, 0, 20, 10).unwrap();
    let diagonal = Rect::new(15, 15, 25, 25).unwrap();

    assert_eq!(a.manhattan_distance(&b), 10);
    assert_eq!(b.manhattan_distance(&a), 10);
    assert_eq!(a.manhattan_distance(&touching), 0);
    assert_eq!(a.manhattan_distance(&diagonal), 10);
    assert_eq!(a.manhattan_distance(&a), 0);
}

#[test]
fn intersection_is_contained_in_both() {
    let a = Rect::new(-4, 0, 6, 9).unwrap();
    let b = Rect::new(2, -3, 12, 5).unwrap();
    let i = a.intersection(&b).unwrap();
    assert_eq!(i, Rect::new(2, 0, 6, 5).unwrap());
    assert!(a.contains(&i));
    assert!(b.contains(&i));
}

#[test]
fn manhattan_distance_sums_both_axes() {
    let a = Rect::new(0, 0, 10, 10).unwrap();
    let b = Rect::new(13, 17, 20, 20).unwrap();
    assert_eq!(a.manhattan_distance(&b), 3 + 7);
    assert_eq!(b.manhattan_distance(&a), 10);
}
