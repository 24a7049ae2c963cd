use exactum::algo::sweep::{find_intersections, Intersection, Segment};
use exactum::ops::RationalPoint;
use exactum::{Point2, Rational};

fn rational_to_f64(r: Rational) -> f64 {
    r.num as f64 / r.denom as f64
}

fn point_to_f64(p: RationalPoint) -> (f64, f64) {
    (rational_to_f64(p.x), rational_to_f64(p.y))
}

fn pairs(found: &[Intersection]) -> Vec<(usize, usize)> {
    let mut v: Vec<(usize, usize)> = found.iter().map(|i| i.segments).collect();
    v.sort();
    v
}

#[test]
fn test_two_crossing_segments() {
    let segments = vec![
        Segment::new(Point2::new(0_i64, 0), Point2::new(10, 10)),
        Segment::new(Point2::new(0_i64, 10), Point2::new(10, 0)),
    ];

    let intersections = find_intersections(&segments);
    assert_eq!(intersections.len(), 1);

    let (x, y) = point_to_f64(intersections[0].point);
    assert!((x - 5.0).abs() < 0.001);
    assert!((y - 5.0).abs() < 0.001);
}

#[test]
fn test_parallel_segments() {
    let segments = vec![
        Segment::new(Point2::new(0_i64, 0), Point2::new(10, 0)),
        Segment::new(Point2::new(0_i64, 5), Point2::new(10, 5)),
    ];

    let intersections = find_intersections(&segments);
    assert!(intersections.is_empty());
}

#[test]
fn test_disjoint_segments() {
    let segments = vec![
        Segment::new(Point2::new(0_i64, 0), Point2::new(5, 0)),
        Segment::new(Point2::new(10_i64, 0), Point2::new(15, 0)),
    ];

    let intersections = find_intersections(&segments);
    assert!(intersections.is_empty());
}

#[test]
fn test_multiple_intersections() {
    // Three segments forming a triangle-like pattern
    let segments = vec![
        Segment::new(Point2::new(0_i64, 5), Point2::new(10, 5)),
        Segment::new(Point2::new(0_i64, 0), Point2::new(10, 10)),
        Segment::new(Point2::new(0_i64, 10), Point2::new(10, 0)),
    ];

    let intersections = find_intersections(&segments);
    // All three meet at (5, 5), so we get 3 pairwise intersections
    assert_eq!(intersections.len(), 3);
}

#[test]
fn test_grid_pattern() {
    // Two horizontal and two vertical segments
    let segments = vec![
        Segment::new(Point2::new(0_i64, 0), Point2::new(10, 0)),
        Segment::new(Point2::new(0_i64, 10), Point2::new(10, 10)),
        Segment::new(Point2::new(0_i64, 0), Point2::new(0, 10)),
        Segment::new(Point2::new(10_i64, 0), Point2::new(10, 10)),
    ];

    let intersections = find_intersections(&segments);
    // Corners: (0,0), (10,0), (0,10), (10,10)
    assert_eq!(intersections.len(), 4);
}

#[test]
fn test_shared_endpoint() {
    // Two segments sharing an endpoint
    let segments = vec![
        Segment::new(Point2::new(0_i64, 0), Point2::new(5, 5)),
        Segment::new(Point2::new(5_i64, 5), Point2::new(10, 0)),
    ];

    let intersections = find_intersections(&segments);
    // Shared endpoint at (5, 5)
    assert_eq!(intersections.len(), 1);
}

#[test]
fn test_t_junction() {
    // One segment ending on another
    let segments = vec![
        Segment::new(Point2::new(0_i64, 5), Point2::new(10, 5)),
        Segment::new(Point2::new(5_i64, 0), Point2::new(5, 5)),
    ];

    let intersections = find_intersections(&segments);
    assert_eq!(intersections.len(), 1);

    let (x, y) = point_to_f64(intersections[0].point);
    assert!((x - 5.0).abs() < 0.001);
    assert!((y - 5.0).abs() < 0.001);
}

#[test]
fn test_single_segment() {
    let segments = vec![Segment::new(Point2::new(0_i64, 0), Point2::new(10, 10))];

    let intersections = find_intersections(&segments);
    assert!(intersections.is_empty());
}

#[test]
fn sweep_test_empty_input() {
    let segments: Vec<Segment> = vec![];
    let intersections = find_intersections(&segments);
    assert!(intersections.is_empty());
}

#[test]
fn test_segment_normalization() {
    let s1 = Segment::new(Point2::new(10_i64, 10), Point2::new(0, 0));
    let s2 = Segment::new(Point2::new(0_i64, 0), Point2::new(10, 10));

    // Both should have p1 as the left endpoint
    assert_eq!(s1.p1, s2.p1);
    assert_eq!(s1.p2, s2.p2);
}

#[test]
fn test_vertical_segment() {
    let segments = vec![
        Segment::new(Point2::new(5_i64, 0), Point2::new(5, 10)),
        Segment::new(Point2::new(0_i64, 5), Point2::new(10, 5)),
    ];

    let intersections = find_intersections(&segments);
    assert_eq!(intersections.len(), 1);

    let (x, y) = point_to_f64(intersections[0].point);
    assert!((x - 5.0).abs() < 0.001);
    assert!((y - 5.0).abs() < 0.001);
}

#[test]
fn sweep_vertical_normalization_orders_by_y() {
    let s = Segment::new(Point2::new(3_i64, 9), Point2::new(3, 1));
    assert_eq!(s.p1, Point2::new(3, 1));
    assert_eq!(s.p2, Point2::new(3, 9));
    assert!(s.is_vertical());
    assert!(!Segment::new(Point2::new(0_i64, 0), Point2::new(1, 0)).is_vertical());
}

#[test]
fn sweep_reports_exact_crossing_point() {
    // The crossing of (0,0)-(3,1) and (0,1)-(3,0) is (3/2, 1/2).
    let segments = vec![
        Segment::new(Point2::new(0_i64, 0), Point2::new(3, 1)),
        Segment::new(Point2::new(0_i64, 1), Point2::new(3, 0)),
    ];
    let intersections = find_intersections(&segments);
    assert_eq!(intersections.len(), 1);
    let p = intersections[0].point;
    assert_eq!(p.x.num * 2, 3 * p.x.denom);
    assert_eq!(p.y.num * 2, p.y.denom);
    assert_eq!(intersections[0].segments, (0, 1));
}

#[test]
fn sweep_pairs_are_distinct_and_ordered() {
    // A star of four segments through (0, 0), plus one far away.
    let segments = vec![
        Segment::new(Point2::new(-4_i64, 0), Point2::new(4, 0)),
        Segment::new(Point2::new(0_i64, -4), Point2::new(0, 4)),
        Segment::new(Point2::new(-4_i64, -4), Point2::new(4, 4)),
        Segment::new(Point2::new(-4_i64, 4), Point2::new(4, -4)),
        Segment::new(Point2::new(100_i64, 100), Point2::new(110, 110)),
    ];
    let intersections = find_intersections(&segments);
    let found = pairs(&intersections);
    let mut dedup = found.clone();
    dedup.dedup();
    assert_eq!(found, dedup);
    for (a, b) in &found {
        assert!(a < b);
        assert!(*b < 4);
    }
    for i in &intersections {
        assert_eq!(i.point.x.num, 0);
        assert_eq!(i.point.y.num, 0);
    }
}
