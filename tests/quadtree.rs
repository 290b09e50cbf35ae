use quadtree_impl::Quadtree;

#[test]
fn new_reports_its_region() {
    let qt = Quadtree::<u8>::new(2);
    assert_eq!(qt.depth(), 2);
    assert_eq!(qt.anchor(), (0, 0));
    assert_eq!(qt.width(), 4);
    assert_eq!(qt.height(), 4);

    let qt = Quadtree::<u8>::new_with_anchor((2, 4), 3);
    assert_eq!(qt.depth(), 3);
    assert_eq!(qt.anchor(), (2, 4));
    assert_eq!(qt.width(), 8);
    assert_eq!(qt.height(), 8);
}

#[test]
fn contains_is_bounded_by_the_root() {
    let qt = Quadtree::<u32>::new_with_anchor((1, 0), 1);
    assert!(qt.contains((1, 0), (2, 2)));
    assert!(qt.contains((1, 0), (1, 1)));
    assert!(!qt.contains((0, 0), (1, 1)));
    assert!(!qt.contains((1, 0), (3, 1)));
    assert!(qt.contains((2, 1), (1, 1)));
    assert!(!qt.contains((2, 2), (1, 1)));
}

#[test]
fn insert_and_query_overlapping() {
    let mut qt = Quadtree::<String>::new(4);
    qt.insert((0, 0), (2, 1), "foo".to_string());
    let found = qt.query((1, 0), (2, 2));
    assert_eq!(found.len(), 1);
    assert_eq!(found[0].0.inner(), ((0, 0), (2, 1)));
    assert_eq!(found[0].1, "foo");

    qt.insert((10, 10), (1, 1), "bar".to_string());
    let found = qt.query((0, 0), (6, 6));
    assert_eq!(found.len(), 1);
    assert_eq!(found[0].1, "foo");
    assert_eq!(qt.len(), 2);
}

#[test]
fn query_counts_both_overlapping_regions() {
    let mut qt = Quadtree::<i16>::new(4);
    qt.insert((0, 5), (7, 7), 21);
    qt.insert((1, 3), (1, 3), 57);

    let a = qt.query((0, 5), (1, 1));
    assert_eq!(a.len(), 1);
    assert_eq!(a[0].0.inner(), ((0, 5), (7, 7)));
    assert_eq!(*a[0].1, 21);

    assert_eq!(qt.query((0, 0), (6, 6)).len(), 2);
}

#[test]
fn len_counts_inserts_that_fit() {
    let mut qt = Quadtree::<i64>::new(2);
    assert_eq!(qt.len(), 0);
    assert!(qt.is_empty());
    qt.insert_pt((3, 1), 1);
    assert_eq!(qt.len(), 1);
    qt.insert_pt((2, 3), 2);
    assert_eq!(qt.len(), 2);
    qt.insert((0, 0), (5, 4), 3);
    qt.insert_pt((5, 4), 4);
    assert_eq!(qt.len(), 2);
    assert!(!qt.is_empty());
}

#[test]
fn inserted_entry_comes_back_once() {
    let mut qt = Quadtree::<u32>::new(3);
    qt.insert((2, 2), (3, 3), 7);
    qt.insert((2, 2), (3, 3), 8);
    let found = qt.query((2, 2), (3, 3));
    assert_eq!(found.len(), 2);
    let mut vals: Vec<u32> = found.iter().map(|e| *e.1).collect();
    vals.sort();
    assert_eq!(vals, vec![7, 8]);
}

#[test]
fn query_pt_finds_covering_regions() {
    let mut qt = Quadtree::<char>::new(3);
    qt.insert((0, 0), (4, 4), 'a');
    qt.insert((3, 3), (2, 2), 'b');
    qt.insert_pt((7, 7), 'c');
    let mut at: Vec<char> = qt.query_pt((3, 3)).iter().map(|e| *e.1).collect();
    at.sort();
    assert_eq!(at, vec!['a', 'b']);
    assert_eq!(qt.query_pt((7, 7)).len(), 1);
    assert_eq!(qt.query_pt((6, 6)).len(), 0);
}

#[test]
fn reset_empties_the_tree() {
    let mut qt = Quadtree::<u8>::new(3);
    qt.insert((1, 1), (2, 2), 1);
    qt.insert_pt((5, 5), 2);
    qt.reset();
    assert!(qt.is_empty());
    assert_eq!(qt.len(), 0);
    assert!(qt.iter().is_empty());
    assert_eq!(qt.width(), 8);
    qt.insert_pt((5, 5), 3);
    assert_eq!(qt.len(), 1);
}

#[test]
fn iter_regions_values_cover_all_entries() {
    let mut qt = Quadtree::<u32>::new(4);
    qt.insert((0, 0), (16, 16), 1);
    qt.insert((0, 0), (1, 1), 2);
    qt.insert((9, 9), (2, 7), 3);
    qt.insert((15, 15), (1, 1), 4);
    assert_eq!(qt.iter().len(), 4);
    let mut vals: Vec<u32> = qt.values().into_iter().copied().collect();
    vals.sort();
    assert_eq!(vals, vec![1, 2, 3, 4]);
    let mut regions: Vec<((i64, i64), (i64, i64))> = qt.regions().iter().map(|a| a.inner()).collect();
    regions.sort();
    assert_eq!(
        regions,
        vec![((0, 0), (1, 1)), ((0, 0), (16, 16)), ((9, 9), (2, 7)), ((15, 15), (1, 1))]
    );
}

#[test]
fn insert_with_handle_refuses_used_handles() {
    let mut qt = Quadtree::<u8>::new(2);
    assert!(qt.insert_with_handle((0, 0), (1, 1), 1, 42));
    assert!(!qt.insert_with_handle((1, 1), (1, 1), 2, 42));
    assert!(!qt.insert_with_handle((3, 3), (2, 2), 3, 43));
    assert!(qt.insert_with_handle((3, 3), (1, 1), 4, 43));
    assert_eq!(qt.len(), 2);
}

#[test]
fn drawn_handles_differ() {
    let mut qt = Quadtree::<u8>::new(1);
    for i in 0..10u8 {
        qt.insert_pt((0, 0), i);
    }
    assert_eq!(qt.len(), 10);
}

#[test]
fn modify_all_changes_values_not_regions() {
    let mut qt = Quadtree::<f64>::new(3);
    qt.insert((0, 0), (1, 1), 1.23);
    qt.modify_all(|i| i + 2.0);
    let all = qt.iter();
    assert_eq!(all.len(), 1);
    assert_eq!(all[0].0.inner(), ((0, 0), (1, 1)));
    assert_eq!(*all[0].1, 3.23);
}

#[test]
fn modify_touches_only_overlapping_entries() {
    let mut qt = Quadtree::<i32>::new(3);
    qt.insert((0, 0), (2, 2), 1);
    qt.insert((4, 4), (2, 2), 10);
    qt.modify((1, 1), (2, 2), |v| v * 100);
    qt.modify_pt((5, 5), |v| v + 1);
    let mut vals: Vec<i32> = qt.values().into_iter().copied().collect();
    vals.sort();
    assert_eq!(vals, vec![11, 100]);
    assert_eq!(qt.len(), 2);
}

#[test]
fn into_iter_hands_over_every_entry() {
    let mut qt = Quadtree::<String>::new(2);
    qt.insert((0, 0), (4, 4), "all".to_string());
    qt.insert_pt((3, 3), "corner".to_string());
    qt.insert((1, 0), (1, 2), "strip".to_string());
    let mut owned: Vec<(((i64, i64), (i64, i64)), String)> =
        qt.into_iter().into_iter().map(|(a, v)| (a.inner(), v)).collect();
    owned.sort();
    assert_eq!(
        owned,
        vec![
            (((0, 0), (4, 4)), "all".to_string()),
            (((1, 0), (1, 2)), "strip".to_string()),
            (((3, 3), (1, 1)), "corner".to_string()),
        ]
    );
}

#[test]
fn query_descends_past_disjoint_quarters() {
    let mut qt = Quadtree::<u32>::new(4);
    // One entry in each quarter, one spanning the middle, one deep down.
    qt.insert((0, 0), (2, 2), 1);
    qt.insert((8, 0), (2, 2), 2);
    qt.insert((0, 8), (2, 2), 3);
    qt.insert((8, 8), (2, 2), 4);
    qt.insert((7, 7), (2, 2), 5);
    qt.insert_pt((13, 13), 6);
    let mut near: Vec<u32> = qt.query((12, 12), (2, 2)).iter().map(|e| *e.1).collect();
    near.sort();
    assert_eq!(near, vec![6]);
    let mut mid: Vec<u32> = qt.query((8, 8), (1, 1)).iter().map(|e| *e.1).collect();
    mid.sort();
    assert_eq!(mid, vec![4, 5]);
    let everything = qt.query((0, 0), (16, 16));
    assert_eq!(everything.len(), 6);
    assert_eq!(qt.query((3, 12), (2, 2)).len(), 0);
}

#[test]
fn extend_drops_what_does_not_fit() {
    let mut qt = Quadtree::<u8>::new(2);
    qt.extend(vec![
        (((0, 0), (2, 2)), 1),
        (((3, 3), (2, 2)), 2),
        (((2, 0), (2, 4)), 3),
    ]);
    assert_eq!(qt.len(), 2);
    qt.extend_pts(vec![((0, 3), 4), ((4, 0), 5), ((-1, 0), 6)]);
    assert_eq!(qt.len(), 3);
    let mut vals: Vec<u8> = qt.values().into_iter().copied().collect();
    vals.sort();
    assert_eq!(vals, vec![1, 3, 4]);
}

#[test]
fn insert_adds_exactly_one_and_is_listed() {
    let mut qt = Quadtree::<u64>::new_with_anchor((-8, -8), 4);
    for i in 0..20i64 {
        let before = qt.len();
        qt.insert((i - 8, -8), (1, 16), i as u64);
        assert_eq!(qt.len(), before + if i < 16 { 1 } else { 0 });
        let found = qt.query((i - 8, 0), (1, 1));
        assert_eq!(found.len(), if i < 16 { 1 } else { 0 });
    }
    assert_eq!(qt.len(), 16);
    assert_eq!(qt.iter().len(), 16);
}

#[test]
fn clone_is_independent() {
    let mut qt = Quadtree::<u8>::new(3);
    qt.insert((0, 0), (2, 2), 1);
    qt.insert_pt((6, 6), 2);
    let copy = qt.clone();
    qt.reset();
    assert!(qt.is_empty());
    assert_eq!(copy.len(), 2);
    assert_eq!(copy.query_pt((6, 6)).len(), 1);
    assert_eq!(copy.query((0, 0), (1, 1)).len(), 1);
}

#[test]
fn listings_repeat_in_the_same_order() {
    let mut qt = Quadtree::<u32>::new(3);
    for i in 0..8i64 {
        qt.insert((i, 7 - i), (1, 1), i as u32);
        qt.insert((0, i), (8, 1), 100 + i as u32);
    }
    qt.insert((3, 3), (2, 2), 200);
    let a: Vec<u32> = qt.query((2, 2), (3, 3)).iter().map(|e| *e.1).collect();
    let b: Vec<u32> = qt.query((2, 2), (3, 3)).iter().map(|e| *e.1).collect();
    assert_eq!(a, b);
    let p: Vec<u32> = qt.query_pt((3, 4)).iter().map(|e| *e.1).collect();
    let q: Vec<u32> = qt.query((3, 4), (1, 1)).iter().map(|e| *e.1).collect();
    assert_eq!(p, q);
    let all1: Vec<u32> = qt.iter().iter().map(|e| *e.1).collect();
    let all2: Vec<u32> = qt.values().into_iter().copied().collect();
    assert_eq!(all1, all2);
    assert_eq!(all1.len(), 17);
}

#[test]
fn extend_into_empty_tree_stores_each_fitting_item() {
    let mut qt = Quadtree::<u8>::new(1);
    qt.extend(vec![(((0, 0), (1, 1)), 1), (((0, 0), (1, 1)), 1), (((1, 1), (2, 1)), 9)]);
    assert_eq!(qt.len(), 2);
    assert_eq!(qt.query_pt((0, 0)).len(), 2);
}
