use exactum::algo::{Bounds3, Octree};
use exactum::Point3;


#[test]
fn test_bounds3_contains() {
    let bounds = Bounds3::new(Point3::new(0, 0, 0), Point3::new(10, 10, 10));

    assert!(bounds.contains(Point3::new(5, 5, 5)));
    assert!(bounds.contains(Point3::new(0, 0, 0)));
    assert!(bounds.contains(Point3::new(10, 10, 10)));
    assert!(!bounds.contains(Point3::new(-1, 5, 5)));
    assert!(!bounds.contains(Point3::new(5, 5, 11)));
}

#[test]
fn test_bounds3_intersects() {
    let b1 = Bounds3::new(Point3::new(0, 0, 0), Point3::new(10, 10, 10));
    let b2 = Bounds3::new(Point3::new(5, 5, 5), Point3::new(15, 15, 15));
    let b3 = Bounds3::new(Point3::new(20, 20, 20), Point3::new(30, 30, 30));

    assert!(b1.intersects(&b2));
    assert!(b2.intersects(&b1));
    assert!(!b1.intersects(&b3));
}

#[test]
fn test_bounds3_distance_squared() {
    let bounds = Bounds3::new(Point3::new(0, 0, 0), Point3::new(10, 10, 10));

    // Inside
    assert_eq!(bounds.distance_squared_to(Point3::new(5, 5, 5)), 0);

    // On boundary
    assert_eq!(bounds.distance_squared_to(Point3::new(0, 0, 0)), 0);

    // Outside on one axis
    assert_eq!(bounds.distance_squared_to(Point3::new(-3, 5, 5)), 9); // 3^2

    // Outside on two axes
    assert_eq!(bounds.distance_squared_to(Point3::new(-3, -4, 5)), 25); // 3^2 + 4^2

    // Outside on three axes
    assert_eq!(bounds.distance_squared_to(Point3::new(-3, -4, -5)), 50); // 3^2 + 4^2 + 5^2
}

#[test]
fn octree_test_build_empty() {
    let tree = Octree::new(&[]);
    assert!(tree.is_empty());
    assert_eq!(tree.len(), 0);
    assert!(tree.nearest(Point3::new(0, 0, 0)).is_none());
}

#[test]
fn octree_test_build_single_point() {
    let points = vec![Point3::new(5_i64, 5, 5)];
    let tree = Octree::new(&points);

    assert_eq!(tree.len(), 1);
    let result = tree.nearest(Point3::new(0, 0, 0)).unwrap();
    assert_eq!(result.point_idx, 0);
}

#[test]
fn octree_test_build_many_points() {
    let points: Vec<Point3<i64>> = (0..100)
        .map(|i| Point3::new(i % 10, (i / 10) % 10, i / 100))
        .collect();
    let tree = Octree::new(&points);

    assert_eq!(tree.len(), 100);
}

#[test]
fn octree_test_custom_capacity() {
    let points: Vec<Point3<i64>> = (0..20).map(|i| Point3::new(i, i, i)).collect();
    let tree = Octree::with_capacity(&points, 4);

    assert_eq!(tree.len(), 20);
    let result = tree.nearest(Point3::new(10, 10, 10)).unwrap();
    assert_eq!(result.point_idx, 10);
}

#[test]
fn octree_test_nearest_exact_match() {
    let points = vec![
        Point3::new(0_i64, 0, 0),
        Point3::new(10, 10, 10),
        Point3::new(5, 5, 5),
    ];
    let tree = Octree::new(&points);

    let result = tree.nearest(Point3::new(5, 5, 5)).unwrap();
    assert_eq!(result.point_idx, 2);
    assert_eq!(result.distance_squared, 0);
}

#[test]
fn octree_test_nearest_simple() {
    let points = vec![
        Point3::new(0_i64, 0, 0),
        Point3::new(10, 10, 10),
        Point3::new(5, 5, 5),
        Point3::new(3, 7, 2),
    ];
    let tree = Octree::new(&points);

    let result = tree.nearest(Point3::new(4, 4, 4)).unwrap();
    assert_eq!(result.point_idx, 2); // (5,5,5) is closest to (4,4,4)
}

#[test]
fn test_nearest_different_octants() {
    let points = vec![
        Point3::new(-10_i64, -10, -10), // octant 6 (-, -, -)
        Point3::new(10, -10, -10),      // octant 7 (+, -, -)
        Point3::new(-10, 10, -10),      // octant 5 (-, +, -)
        Point3::new(10, 10, -10),       // octant 4 (+, +, -)
        Point3::new(-10, -10, 10),      // octant 2 (-, -, +)
        Point3::new(10, -10, 10),       // octant 3 (+, -, +)
        Point3::new(-10, 10, 10),       // octant 1 (-, +, +)
        Point3::new(10, 10, 10),        // octant 0 (+, +, +)
    ];
    let tree = Octree::new(&points);

    // Query in octant 0
    let result = tree.nearest(Point3::new(8, 8, 8)).unwrap();
    assert_eq!(result.point_idx, 7);

    // Query in octant 6
    let result = tree.nearest(Point3::new(-8, -8, -8)).unwrap();
    assert_eq!(result.point_idx, 0);
}

#[test]
fn octree_test_k_nearest_basic() {
    let points = vec![
        Point3::new(0_i64, 0, 0),
        Point3::new(1, 1, 1),
        Point3::new(2, 2, 2),
        Point3::new(10, 10, 10),
    ];
    let tree = Octree::new(&points);

    let results = tree.k_nearest(Point3::new(0, 0, 0), 3);
    assert_eq!(results.len(), 3);
    assert_eq!(results[0].point_idx, 0); // (0,0,0)
    assert_eq!(results[1].point_idx, 1); // (1,1,1)
    assert_eq!(results[2].point_idx, 2); // (2,2,2)
}

#[test]
fn octree_test_k_nearest_less_than_k() {
    let points = vec![Point3::new(0_i64, 0, 0), Point3::new(1, 1, 1)];
    let tree = Octree::new(&points);

    let results = tree.k_nearest(Point3::new(0, 0, 0), 5);
    assert_eq!(results.len(), 2);
}

#[test]
fn octree_test_k_nearest_zero() {
    let points = vec![Point3::new(0_i64, 0, 0)];
    let tree = Octree::new(&points);

    let results = tree.k_nearest(Point3::new(0, 0, 0), 0);
    assert!(results.is_empty());
}

#[test]
fn octree_test_range_query_all() {
    let points = vec![
        Point3::new(1_i64, 1, 1),
        Point3::new(2, 2, 2),
        Point3::new(3, 3, 3),
    ];
    let tree = Octree::new(&points);

    let results = tree.range_query(Point3::new(0, 0, 0), Point3::new(10, 10, 10));
    assert_eq!(results.len(), 3);
}

#[test]
fn octree_test_range_query_none() {
    let points = vec![
        Point3::new(0_i64, 0, 0),
        Point3::new(1, 1, 1),
        Point3::new(2, 2, 2),
    ];
    let tree = Octree::new(&points);

    let results = tree.range_query(Point3::new(10, 10, 10), Point3::new(20, 20, 20));
    assert!(results.is_empty());
}

#[test]
fn octree_test_range_query_partial() {
    let points = vec![
        Point3::new(0_i64, 0, 0),
        Point3::new(5, 5, 5),
        Point3::new(10, 10, 10),
        Point3::new(15, 15, 15),
    ];
    let tree = Octree::new(&points);

    let results = tree.range_query(Point3::new(4, 4, 4), Point3::new(11, 11, 11));
    assert_eq!(results.len(), 2);
    assert!(results.contains(&1)); // (5,5,5)
    assert!(results.contains(&2)); // (10,10,10)
}

#[test]
fn octree_test_get_point() {
    let points = vec![Point3::new(5_i64, 5, 5), Point3::new(10, 10, 10)];
    let tree = Octree::new(&points);

    assert_eq!(tree.get_point(0), Some(&Point3::new(5, 5, 5)));
    assert_eq!(tree.get_point(1), Some(&Point3::new(10, 10, 10)));
    assert_eq!(tree.get_point(2), None);
}

#[test]
fn octree_test_bounds() {
    let points = vec![
        Point3::new(-5_i64, 0, 1),
        Point3::new(10, 20, 30),
        Point3::new(0, -3, -7),
    ];
    let tree = Octree::new(&points);

    let bounds = tree.bounds();
    assert_eq!(bounds.min, Point3::new(-5, -3, -7));
    assert_eq!(bounds.max, Point3::new(10, 20, 30));
}

#[test]
fn bounds3_octants() {
    let b = Bounds3::new(Point3::new(0, 0, 0), Point3::new(8, 8, 8));
    let c = b.center();
    assert_eq!(c, Point3::new(4, 4, 4));
    assert_eq!(b.octant_bounds(0, c), Bounds3::new(Point3::new(4, 4, 4), Point3::new(8, 8, 8)));
    assert_eq!(b.octant_bounds(2, c), Bounds3::new(Point3::new(0, 0, 4), Point3::new(4, 4, 8)));
    assert_eq!(b.octant_bounds(3, c), Bounds3::new(Point3::new(4, 0, 4), Point3::new(8, 4, 8)));
    assert_eq!(b.octant_bounds(6, c), Bounds3::new(Point3::new(0, 0, 0), Point3::new(4, 4, 4)));
    assert_eq!(b.octant_bounds(7, c), Bounds3::new(Point3::new(4, 0, 0), Point3::new(8, 4, 4)));
}

#[test]
fn octree_matches_brute_force() {
    let mut points = Vec::new();
    for i in 0..150_i64 {
        points.push(Point3::new((i * 31) % 41 - 20, (i * 17) % 37 - 18, (i * 13) % 29 - 14));
    }
    let tree = Octree::with_capacity(&points, 2);
    for q in [Point3::new(0, 0, 0), Point3::new(30, -30, 5), Point3::new(-7, 11, -13)] {
        let mut all: Vec<i128> = points
            .iter()
            .map(|p| {
                let dx = (p.x - q.x) as i128;
                let dy = (p.y - q.y) as i128;
                let dz = (p.z - q.z) as i128;
                dx * dx + dy * dy + dz * dz
            })
            .collect();
        all.sort();
        assert_eq!(tree.nearest(q).unwrap().distance_squared, all[0]);
        let ks = tree.k_nearest(q, 6);
        for (a, res) in ks.iter().enumerate() {
            assert_eq!(res.distance_squared, all[a]);
        }
    }
}
