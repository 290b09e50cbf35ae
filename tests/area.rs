use quadtree_impl::Area;

#[test]
fn area_contains_and_intersects() {
    let outer = Area::new((0, 0), (4, 4));
    let inner = Area::new((1, 1), (2, 2));
    let edge = Area::new((3, 3), (2, 2));
    let apart = Area::new((4, 0), (1, 1));
    assert!(outer.contains(inner));
    assert!(!inner.contains(outer));
    assert!(outer.intersects(inner) && inner.intersects(outer));
    assert!(!outer.contains(edge));
    assert!(outer.intersects(edge) && edge.intersects(outer));
    assert!(!outer.intersects(apart) && !apart.intersects(outer));
    assert!(outer.contains(outer));
}

#[test]
fn area_far_edges_do_not_overflow() {
    let big = Area::new((i64::MAX - 1, i64::MAX - 1), (i64::MAX, i64::MAX));
    let cell = Area::new((i64::MAX, i64::MAX), (1, 1));
    assert!(big.intersects(cell));
    assert!(!cell.contains(big));
    assert_eq!(big.inner(), ((i64::MAX - 1, i64::MAX - 1), (i64::MAX, i64::MAX)));
    assert_eq!(cell.width(), 1);
    assert_eq!(cell.height(), 1);
    assert_eq!(cell.anchor().x(), i64::MAX);
}
