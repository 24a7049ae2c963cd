use exactum::algo::{Bounds, RTree, RTreeEntry};
use exactum::Point2;


fn make_entry(x1: i64, y1: i64, x2: i64, y2: i64, idx: usize) -> RTreeEntry {
    RTreeEntry::new(Bounds::new(Point2::new(x1, y1), Point2::new(x2, y2)), idx)
}

#[test]
fn rtree_test_build_empty() {
    let tree = RTree::new(&[]);
    assert!(tree.is_empty());
    assert_eq!(tree.len(), 0);
    assert!(tree.bounds().is_none());
}

#[test]
fn test_build_single() {
    let entries = vec![make_entry(0, 0, 10, 10, 0)];
    let tree = RTree::new(&entries);

    assert_eq!(tree.len(), 1);
    assert!(!tree.is_empty());
    assert_eq!(
        tree.bounds(),
        Some(Bounds::new(Point2::new(0, 0), Point2::new(10, 10)))
    );
}

#[test]
fn test_build_many() {
    let entries: Vec<RTreeEntry> = (0..100)
        .map(|i| {
            let x = (i % 10) * 10;
            let y = (i / 10) * 10;
            make_entry(x, y, x + 5, y + 5, i as usize)
        })
        .collect();

    let tree = RTree::new(&entries);
    assert_eq!(tree.len(), 100);
}

#[test]
fn test_query_all_match() {
    let entries = vec![
        make_entry(0, 0, 10, 10, 0),
        make_entry(5, 5, 15, 15, 1),
        make_entry(10, 10, 20, 20, 2),
    ];
    let tree = RTree::new(&entries);

    let query = Bounds::new(Point2::new(0, 0), Point2::new(100, 100));
    let results = tree.query(&query);
    assert_eq!(results.len(), 3);
}

#[test]
fn test_query_none_match() {
    let entries = vec![make_entry(0, 0, 10, 10, 0), make_entry(5, 5, 15, 15, 1)];
    let tree = RTree::new(&entries);

    let query = Bounds::new(Point2::new(100, 100), Point2::new(200, 200));
    let results = tree.query(&query);
    assert!(results.is_empty());
}

#[test]
fn test_query_partial_match() {
    let entries = vec![
        make_entry(0, 0, 10, 10, 0),
        make_entry(20, 20, 30, 30, 1),
        make_entry(5, 5, 25, 25, 2),
    ];
    let tree = RTree::new(&entries);

    // Query box that hits entries 0 and 2
    let query = Bounds::new(Point2::new(8, 8), Point2::new(12, 12));
    let results = tree.query(&query);
    assert_eq!(results.len(), 2);
    assert!(results.contains(&0));
    assert!(results.contains(&2));
}

#[test]
fn test_contains_point_inside() {
    let entries = vec![
        make_entry(0, 0, 10, 10, 0),
        make_entry(5, 5, 15, 15, 1),
        make_entry(20, 20, 30, 30, 2),
    ];
    let tree = RTree::new(&entries);

    let results = tree.contains_point(Point2::new(7, 7));
    assert_eq!(results.len(), 2);
    assert!(results.contains(&0));
    assert!(results.contains(&1));
}

#[test]
fn test_contains_point_outside() {
    let entries = vec![make_entry(0, 0, 10, 10, 0), make_entry(20, 20, 30, 30, 1)];
    let tree = RTree::new(&entries);

    let results = tree.contains_point(Point2::new(15, 15));
    assert!(results.is_empty());
}

#[test]
fn test_contains_point_boundary() {
    let entries = vec![make_entry(0, 0, 10, 10, 0)];
    let tree = RTree::new(&entries);

    // On boundary should be contained
    assert_eq!(tree.contains_point(Point2::new(0, 0)).len(), 1);
    assert_eq!(tree.contains_point(Point2::new(10, 10)).len(), 1);
    assert_eq!(tree.contains_point(Point2::new(5, 0)).len(), 1);
}

#[test]
fn test_nearest_exact() {
    let entries = vec![make_entry(0, 0, 10, 10, 0), make_entry(20, 20, 30, 30, 1)];
    let tree = RTree::new(&entries);

    let result = tree.nearest(Point2::new(5, 5)).unwrap();
    assert_eq!(result.data_idx, 0);
    assert_eq!(result.distance_squared, 0); // Point inside box
}

#[test]
fn test_nearest_closest() {
    let entries = vec![
        make_entry(0, 0, 10, 10, 0),
        make_entry(100, 100, 110, 110, 1),
    ];
    let tree = RTree::new(&entries);

    // Point closer to first box
    let result = tree.nearest(Point2::new(15, 15)).unwrap();
    assert_eq!(result.data_idx, 0);
    // Distance from (15,15) to (10,10) corner: sqrt(50) -> 50 squared
    assert_eq!(result.distance_squared, 50);
}

#[test]
fn test_nearest_empty() {
    let tree = RTree::new(&[]);
    assert!(tree.nearest(Point2::new(0, 0)).is_none());
}

#[test]
fn test_overlapping_boxes() {
    // Multiple overlapping boxes
    let entries = vec![
        make_entry(0, 0, 20, 20, 0),
        make_entry(5, 5, 25, 25, 1),
        make_entry(10, 10, 30, 30, 2),
    ];
    let tree = RTree::new(&entries);

    // Point in all three
    let results = tree.contains_point(Point2::new(15, 15));
    assert_eq!(results.len(), 3);

    // Point only in first two
    let results = tree.contains_point(Point2::new(8, 8));
    assert_eq!(results.len(), 2);
    assert!(results.contains(&0));
    assert!(results.contains(&1));
}

#[test]
fn rtree_test_custom_capacity() {
    let entries: Vec<RTreeEntry> = (0..50)
        .map(|i| make_entry(i * 2, i * 2, i * 2 + 1, i * 2 + 1, i as usize))
        .collect();

    let tree = RTree::with_capacity(&entries, 4);
    assert_eq!(tree.len(), 50);

    // Should still query correctly
    let results = tree.query(&Bounds::new(Point2::new(0, 0), Point2::new(10, 10)));
    assert!(!results.is_empty());
}

#[test]
fn test_large_dataset() {
    // Build tree with many entries
    let entries: Vec<RTreeEntry> = (0..1000)
        .map(|i| {
            let x = (i % 100) * 10;
            let y = (i / 100) * 10;
            make_entry(x, y, x + 5, y + 5, i as usize)
        })
        .collect();

    let tree = RTree::new(&entries);
    assert_eq!(tree.len(), 1000);

    // Query should work correctly
    let results = tree.query(&Bounds::new(Point2::new(50, 50), Point2::new(60, 60)));
    assert!(!results.is_empty());

    // Nearest should work
    let result = tree.nearest(Point2::new(55, 55)).unwrap();
    assert_eq!(result.distance_squared, 0); // Should find a box containing the point
}

#[test]
fn rtree_query_matches_brute_force() {
    let mut entries = Vec::new();
    for i in 0..300_i64 {
        let x = (i * 37) % 200 - 100;
        let y = (i * 91) % 180 - 90;
        let w = (i * 7) % 15;
        let h = (i * 11) % 9;
        entries.push(make_entry(x, y, x + w, y + h, (i % 50) as usize));
    }
    let tree = RTree::with_capacity(&entries, 3);
    let q = Bounds::new(Point2::new(-20, -30), Point2::new(40, 10));
    let mut got = tree.query(&q);
    let mut want: Vec<usize> = entries
        .iter()
        .filter(|e| e.bounds.intersects(&q))
        .map(|e| e.data_idx)
        .collect();
    got.sort();
    want.sort();
    assert_eq!(got, want);
    let p = Point2::new(3, -4);
    let mut got = tree.contains_point(p);
    let mut want: Vec<usize> = entries
        .iter()
        .filter(|e| e.bounds.contains(p))
        .map(|e| e.data_idx)
        .collect();
    got.sort();
    want.sort();
    assert_eq!(got, want);
    for q in [Point2::new(0, 0), Point2::new(150, 150), Point2::new(-120, 40)] {
        let r = tree.nearest(q).unwrap();
        let best = entries.iter().map(|e| e.bounds.distance_squared_to(q)).min().unwrap();
        assert_eq!(r.distance_squared, best);
        assert_eq!(r.bounds.distance_squared_to(q), best);
    }
    let b = tree.bounds().unwrap();
    assert_eq!(b.min.x, entries.iter().map(|e| e.bounds.min.x).min().unwrap());
    assert_eq!(b.max.y, entries.iter().map(|e| e.bounds.max.y).max().unwrap());
}

#[test]
fn rtree_duplicate_data_indices_counted_per_entry() {
    let entries = vec![make_entry(0, 0, 5, 5, 7), make_entry(1, 1, 2, 2, 7), make_entry(10, 10, 11, 11, 7)];
    let tree = RTree::new(&entries);
    let r = tree.query(&Bounds::new(Point2::new(0, 0), Point2::new(3, 3)));
    assert_eq!(r, vec![7, 7]);
}
