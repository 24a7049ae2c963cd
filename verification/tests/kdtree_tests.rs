use exactum::algo::{KdTree2, KdTree3};
use exactum::{Point2, Point3};

#[test]
fn kdtree_test_build_empty() {
    let tree = KdTree2::new(&[]);
    assert!(tree.is_empty());
    assert_eq!(tree.len(), 0);
    assert!(tree.nearest(Point2::new(0, 0)).is_none());
}

#[test]
fn kdtree_test_build_single_point() {
    let points = vec![Point2::new(5_i64, 5)];
    let tree = KdTree2::new(&points);
    assert_eq!(tree.len(), 1);
    let result = tree.nearest(Point2::new(0, 0)).unwrap();
    assert_eq!(result.point_idx, 0);
}

#[test]
fn test_build_multiple_points() {
    let points = vec![
        Point2::new(0_i64, 0),
        Point2::new(10, 10),
        Point2::new(5, 5),
        Point2::new(3, 7),
        Point2::new(8, 2),
    ];
    let tree = KdTree2::new(&points);
    assert_eq!(tree.len(), 5);
}

#[test]
fn kdtree_test_nearest_exact_match() {
    let points = vec![Point2::new(0_i64, 0), Point2::new(10, 10), Point2::new(5, 5)];
    let tree = KdTree2::new(&points);
    let result = tree.nearest(Point2::new(5, 5)).unwrap();
    assert_eq!(result.point_idx, 2);
    assert_eq!(result.distance_squared, 0);
}

#[test]
fn kdtree_test_nearest_simple() {
    let points = vec![
        Point2::new(0_i64, 0),
        Point2::new(10, 10),
        Point2::new(5, 5),
        Point2::new(3, 7),
    ];
    let tree = KdTree2::new(&points);
    let result = tree.nearest(Point2::new(4, 4)).unwrap();
    assert_eq!(result.point_idx, 2);
    assert_eq!(result.distance_squared, 2);
}

#[test]
fn test_nearest_corner_case() {
    let points = vec![
        Point2::new(0_i64, 0),
        Point2::new(100, 0),
        Point2::new(0, 100),
        Point2::new(100, 100),
    ];
    let tree = KdTree2::new(&points);
    assert_eq!(tree.nearest(Point2::new(1, 1)).unwrap().point_idx, 0);
    assert_eq!(tree.nearest(Point2::new(99, 1)).unwrap().point_idx, 1);
    assert_eq!(tree.nearest(Point2::new(1, 99)).unwrap().point_idx, 2);
    assert_eq!(tree.nearest(Point2::new(99, 99)).unwrap().point_idx, 3);
}

#[test]
fn kdtree_test_k_nearest_basic() {
    let points = vec![
        Point2::new(0_i64, 0),
        Point2::new(10, 10),
        Point2::new(5, 5),
        Point2::new(3, 3),
        Point2::new(7, 7),
    ];
    let tree = KdTree2::new(&points);
    let results = tree.k_nearest(Point2::new(4, 4), 3);
    assert_eq!(results.len(), 3);
    assert!(results[0].distance_squared <= results[1].distance_squared);
    assert!(results[1].distance_squared <= results[2].distance_squared);
}

#[test]
fn kdtree_test_k_nearest_less_than_k() {
    let points = vec![Point2::new(0_i64, 0), Point2::new(10, 10)];
    let tree = KdTree2::new(&points);
    let results = tree.k_nearest(Point2::new(5, 5), 5);
    assert_eq!(results.len(), 2);
}

#[test]
fn kdtree_test_k_nearest_zero() {
    let points = vec![Point2::new(0_i64, 0)];
    let tree = KdTree2::new(&points);
    let results = tree.k_nearest(Point2::new(0, 0), 0);
    assert!(results.is_empty());
}

#[test]
fn kdtree_test_range_query_all() {
    let points = vec![Point2::new(1_i64, 1), Point2::new(2, 2), Point2::new(3, 3)];
    let tree = KdTree2::new(&points);
    let results = tree.range_query(Point2::new(0, 0), Point2::new(10, 10));
    assert_eq!(results.len(), 3);
}

#[test]
fn kdtree_test_range_query_none() {
    let points = vec![Point2::new(0_i64, 0), Point2::new(1, 1), Point2::new(2, 2)];
    let tree = KdTree2::new(&points);
    let results = tree.range_query(Point2::new(10, 10), Point2::new(20, 20));
    assert!(results.is_empty());
}

#[test]
fn kdtree_test_range_query_partial() {
    let points = vec![
        Point2::new(0_i64, 0),
        Point2::new(5, 5),
        Point2::new(10, 10),
        Point2::new(15, 15),
    ];
    let tree = KdTree2::new(&points);
    let results = tree.range_query(Point2::new(3, 3), Point2::new(12, 12));
    assert_eq!(results.len(), 2);
}

#[test]
fn test_3d_nearest() {
    let points = vec![
        Point3::new(0_i64, 0, 0),
        Point3::new(10, 10, 10),
        Point3::new(5, 5, 5),
    ];
    let tree = KdTree3::new(&points);
    let result = tree.nearest(Point3::new(4, 4, 4)).unwrap();
    assert_eq!(result.point_idx, 2);
    assert_eq!(result.distance_squared, 3);
}

#[test]
fn test_3d_k_nearest() {
    let points = vec![
        Point3::new(0_i64, 0, 0),
        Point3::new(10, 10, 10),
        Point3::new(5, 5, 5),
        Point3::new(3, 3, 3),
    ];
    let tree = KdTree3::new(&points);
    let results = tree.k_nearest(Point3::new(4, 4, 4), 2);
    assert_eq!(results.len(), 2);
}

#[test]
fn test_3d_range() {
    let points = vec![
        Point3::new(0_i64, 0, 0),
        Point3::new(5, 5, 5),
        Point3::new(10, 10, 10),
    ];
    let tree = KdTree3::new(&points);
    let results = tree.range_query(Point3::new(1, 1, 1), Point3::new(9, 9, 9));
    assert_eq!(results.len(), 1);
}

#[test]
fn kdtree_test_get_point() {
    let points = vec![Point2::new(5_i64, 10), Point2::new(15, 20)];
    let tree = KdTree2::new(&points);
    assert_eq!(tree.get_point(0), Some(&Point2::new(5, 10)));
    assert_eq!(tree.get_point(1), Some(&Point2::new(15, 20)));
    assert_eq!(tree.get_point(2), None);
}

/// Brute-force nearest distance, for comparison.
fn brute_nearest(points: &[Point2<i64>], q: Point2<i64>) -> i128 {
    points
        .iter()
        .map(|p| {
            let dx = (p.x - q.x) as i128;
            let dy = (p.y - q.y) as i128;
            dx * dx + dy * dy
        })
        .min()
        .unwrap()
}

#[test]
fn kdtree_matches_brute_force_on_grid() {
    let mut points = Vec::new();
    for i in 0..15_i64 {
        for j in 0..11_i64 {
            points.push(Point2::new((i * 37) % 101 - 50, (j * 53 + i) % 97 - 40));
        }
    }
    let tree = KdTree2::new(&points);
    for qx in (-60..60).step_by(13) {
        for qy in (-60..60).step_by(17) {
            let q = Point2::new(qx, qy);
            let r = tree.nearest(q).unwrap();
            assert_eq!(r.distance_squared, brute_nearest(&points, q));
            let ks = tree.k_nearest(q, 7);
            assert_eq!(ks.len(), 7);
            assert_eq!(ks[0].distance_squared, r.distance_squared);
            let mut all: Vec<i128> = points
                .iter()
                .map(|p| {
                    let dx = (p.x - q.x) as i128;
                    let dy = (p.y - q.y) as i128;
                    dx * dx + dy * dy
                })
                .collect();
            all.sort();
            for (a, res) in ks.iter().enumerate() {
                assert_eq!(res.distance_squared, all[a]);
            }
        }
    }
    let inside = tree.range_query(Point2::new(-10, -10), Point2::new(10, 10));
    let expected = points
        .iter()
        .filter(|p| p.x >= -10 && p.x <= 10 && p.y >= -10 && p.y <= 10)
        .count();
    assert_eq!(inside.len(), expected);
}

#[test]
fn kdtree_k_nearest_ties_break_by_index() {
    let points = vec![Point2::new(1_i64, 0), Point2::new(0, 1), Point2::new(-1, 0), Point2::new(5, 5)];
    let tree = KdTree2::new(&points);
    let ks = tree.k_nearest(Point2::new(0, 0), 2);
    assert_eq!(ks[0].point_idx, 0);
    assert_eq!(ks[1].point_idx, 1);
    assert_eq!(ks[1].distance_squared, 1);
}
