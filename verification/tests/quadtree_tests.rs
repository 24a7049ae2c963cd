use exactum::algo::{Bounds, Quadtree};
use exactum::Point2;


#[test]
fn test_bounds_contains() {
    let bounds = Bounds::new(Point2::new(0, 0), Point2::new(10, 10));

    assert!(bounds.contains(Point2::new(5, 5)));
    assert!(bounds.contains(Point2::new(0, 0)));
    assert!(bounds.contains(Point2::new(10, 10)));
    assert!(!bounds.contains(Point2::new(-1, 5)));
    assert!(!bounds.contains(Point2::new(11, 5)));
}

#[test]
fn test_bounds_intersects() {
    let b1 = Bounds::new(Point2::new(0, 0), Point2::new(10, 10));
    let b2 = Bounds::new(Point2::new(5, 5), Point2::new(15, 15));
    let b3 = Bounds::new(Point2::new(20, 20), Point2::new(30, 30));

    assert!(b1.intersects(&b2));
    assert!(b2.intersects(&b1));
    assert!(!b1.intersects(&b3));
}

#[test]
fn test_bounds_distance_squared() {
    let bounds = Bounds::new(Point2::new(0, 0), Point2::new(10, 10));

    // Inside
    assert_eq!(bounds.distance_squared_to(Point2::new(5, 5)), 0);

    // On boundary
    assert_eq!(bounds.distance_squared_to(Point2::new(0, 0)), 0);

    // Outside
    assert_eq!(bounds.distance_squared_to(Point2::new(-3, 5)), 9); // 3^2
    assert_eq!(bounds.distance_squared_to(Point2::new(-3, -4)), 25); // 3^2 + 4^2
}

#[test]
fn quadtree_test_build_empty() {
    let tree = Quadtree::new(&[]);
    assert!(tree.is_empty());
    assert_eq!(tree.len(), 0);
    assert!(tree.nearest(Point2::new(0, 0)).is_none());
}

#[test]
fn quadtree_test_build_single_point() {
    let points = vec![Point2::new(5_i64, 5)];
    let tree = Quadtree::new(&points);

    assert_eq!(tree.len(), 1);
    let result = tree.nearest(Point2::new(0, 0)).unwrap();
    assert_eq!(result.point_idx, 0);
}

#[test]
fn quadtree_test_build_many_points() {
    let points: Vec<Point2<i64>> = (0..100).map(|i| Point2::new(i % 10, i / 10)).collect();
    let tree = Quadtree::new(&points);

    assert_eq!(tree.len(), 100);
}

#[test]
fn quadtree_test_custom_capacity() {
    let points: Vec<Point2<i64>> = (0..20).map(|i| Point2::new(i, i)).collect();
    let tree = Quadtree::with_capacity(&points, 4);

    assert_eq!(tree.len(), 20);
    // Should still work correctly
    let result = tree.nearest(Point2::new(10, 10)).unwrap();
    assert_eq!(result.point_idx, 10);
}

#[test]
fn quadtree_test_nearest_exact_match() {
    let points = vec![
        Point2::new(0_i64, 0),
        Point2::new(10, 10),
        Point2::new(5, 5),
    ];
    let tree = Quadtree::new(&points);

    let result = tree.nearest(Point2::new(5, 5)).unwrap();
    assert_eq!(result.point_idx, 2);
    assert_eq!(result.distance_squared, 0);
}

#[test]
fn quadtree_test_nearest_simple() {
    let points = vec![
        Point2::new(0_i64, 0),
        Point2::new(10, 10),
        Point2::new(5, 5),
        Point2::new(3, 7),
    ];
    let tree = Quadtree::new(&points);

    let result = tree.nearest(Point2::new(4, 4)).unwrap();
    assert_eq!(result.point_idx, 2); // (5,5) is closest to (4,4)
}

#[test]
fn test_nearest_different_quadrants() {
    let points = vec![
        Point2::new(-10_i64, -10), // SW
        Point2::new(10, -10),      // SE
        Point2::new(-10, 10),      // NW
        Point2::new(10, 10),       // NE
    ];
    let tree = Quadtree::new(&points);

    // Query in NE quadrant
    let result = tree.nearest(Point2::new(8, 8)).unwrap();
    assert_eq!(result.point_idx, 3);

    // Query in SW quadrant
    let result = tree.nearest(Point2::new(-8, -8)).unwrap();
    assert_eq!(result.point_idx, 0);
}

#[test]
fn quadtree_test_k_nearest_basic() {
    let points = vec![
        Point2::new(0_i64, 0),
        Point2::new(1, 1),
        Point2::new(2, 2),
        Point2::new(10, 10),
    ];
    let tree = Quadtree::new(&points);

    let results = tree.k_nearest(Point2::new(0, 0), 3);
    assert_eq!(results.len(), 3);
    assert_eq!(results[0].point_idx, 0); // (0,0)
    assert_eq!(results[1].point_idx, 1); // (1,1)
    assert_eq!(results[2].point_idx, 2); // (2,2)
}

#[test]
fn quadtree_test_k_nearest_less_than_k() {
    let points = vec![Point2::new(0_i64, 0), Point2::new(1, 1)];
    let tree = Quadtree::new(&points);

    let results = tree.k_nearest(Point2::new(0, 0), 5);
    assert_eq!(results.len(), 2);
}

#[test]
fn quadtree_test_k_nearest_zero() {
    let points = vec![Point2::new(0_i64, 0)];
    let tree = Quadtree::new(&points);

    let results = tree.k_nearest(Point2::new(0, 0), 0);
    assert!(results.is_empty());
}

#[test]
fn quadtree_test_range_query_all() {
    let points = vec![Point2::new(1_i64, 1), Point2::new(2, 2), Point2::new(3, 3)];
    let tree = Quadtree::new(&points);

    let results = tree.range_query(Point2::new(0, 0), Point2::new(10, 10));
    assert_eq!(results.len(), 3);
}

#[test]
fn quadtree_test_range_query_none() {
    let points = vec![Point2::new(0_i64, 0), Point2::new(1, 1), Point2::new(2, 2)];
    let tree = Quadtree::new(&points);

    let results = tree.range_query(Point2::new(10, 10), Point2::new(20, 20));
    assert!(results.is_empty());
}

#[test]
fn quadtree_test_range_query_partial() {
    let points = vec![
        Point2::new(0_i64, 0),
        Point2::new(5, 5),
        Point2::new(10, 10),
        Point2::new(15, 15),
    ];
    let tree = Quadtree::new(&points);

    let results = tree.range_query(Point2::new(4, 4), Point2::new(11, 11));
    assert_eq!(results.len(), 2);
    assert!(results.contains(&1)); // (5,5)
    assert!(results.contains(&2)); // (10,10)
}

#[test]
fn quadtree_test_get_point() {
    let points = vec![Point2::new(5_i64, 5), Point2::new(10, 10)];
    let tree = Quadtree::new(&points);

    assert_eq!(tree.get_point(0), Some(&Point2::new(5, 5)));
    assert_eq!(tree.get_point(1), Some(&Point2::new(10, 10)));
    assert_eq!(tree.get_point(2), None);
}

#[test]
fn quadtree_test_bounds() {
    let points = vec![
        Point2::new(-5_i64, 0),
        Point2::new(10, 20),
        Point2::new(0, -3),
    ];
    let tree = Quadtree::new(&points);

    let bounds = tree.bounds();
    assert_eq!(bounds.min, Point2::new(-5, -3));
    assert_eq!(bounds.max, Point2::new(10, 20));
}

#[test]
fn bounds_center_rounds_toward_zero() {
    let b = Bounds::new(Point2::new(-3, -2), Point2::new(0, 1));
    // (-3 + 0) / 2 = -1 (toward zero), (-2 + 1) / 2 = 0
    assert_eq!(b.center(), Point2::new(-1, 0));
    let c = Bounds::new(Point2::new(1, 2), Point2::new(4, 7));
    assert_eq!(c.center(), Point2::new(2, 4));
}

#[test]
fn bounds_quadrants() {
    let b = Bounds::new(Point2::new(0, 0), Point2::new(10, 10));
    let c = b.center();
    assert_eq!(b.quadrant_bounds(0, c), Bounds::new(Point2::new(5, 5), Point2::new(10, 10)));
    assert_eq!(b.quadrant_bounds(1, c), Bounds::new(Point2::new(0, 5), Point2::new(5, 10)));
    assert_eq!(b.quadrant_bounds(2, c), Bounds::new(Point2::new(0, 0), Point2::new(5, 5)));
    assert_eq!(b.quadrant_bounds(3, c), Bounds::new(Point2::new(5, 0), Point2::new(10, 5)));
}

#[test]
fn quadtree_many_duplicates() {
    let points = vec![Point2::new(3_i64, 3); 50];
    let tree = Quadtree::with_capacity(&points, 2);
    assert_eq!(tree.len(), 50);
    assert_eq!(tree.range_query(Point2::new(3, 3), Point2::new(3, 3)).len(), 50);
    let r = tree.nearest(Point2::new(0, 0)).unwrap();
    assert_eq!(r.distance_squared, 18);
    let ks = tree.k_nearest(Point2::new(3, 3), 4);
    assert_eq!(ks.iter().map(|r| r.point_idx).collect::<Vec<_>>(), vec![0, 1, 2, 3]);
}

#[test]
fn quadtree_matches_brute_force() {
    let mut points = Vec::new();
    for i in 0..200_i64 {
        points.push(Point2::new((i * 7919) % 211 - 100, (i * 104729) % 199 - 100));
    }
    let tree = Quadtree::with_capacity(&points, 3);
    for qx in (-120..120).step_by(31) {
        for qy in (-120..120).step_by(29) {
            let q = Point2::new(qx, qy);
            let mut all: Vec<i128> = points
                .iter()
                .map(|p| {
                    let dx = (p.x - q.x) as i128;
                    let dy = (p.y - q.y) as i128;
                    dx * dx + dy * dy
                })
                .collect();
            let r = tree.nearest(q).unwrap();
            all.sort();
            assert_eq!(r.distance_squared, all[0]);
            let ks = tree.k_nearest(q, 9);
            for (a, res) in ks.iter().enumerate() {
                assert_eq!(res.distance_squared, all[a]);
            }
        }
    }
    let got = tree.range_query(Point2::new(-30, -40), Point2::new(50, 20));
    let want: Vec<usize> = (0..points.len())
        .filter(|&j| {
            let p = points[j];
            p.x >= -30 && p.x <= 50 && p.y >= -40 && p.y <= 20
        })
        .collect();
    let mut got_sorted = got.clone();
    got_sorted.sort();
    assert_eq!(got_sorted, want);
}
