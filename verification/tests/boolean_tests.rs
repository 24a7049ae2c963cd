use exactum::algo::boolean::{
    ensure_ccw, find_all_intersections, polygon_difference, polygon_intersection, polygon_union,
    BooleanResult, Vertex,
};
use exactum::ops::{polygon_area_2x, RationalPoint};
use exactum::{Point2, Rational};

fn square(x: i64, y: i64, size: i64) -> Vec<Point2<i64>> {
    vec![
        Point2::new(x, y),
        Point2::new(x + size, y),
        Point2::new(x + size, y + size),
        Point2::new(x, y + size),
    ]
}

fn originals(poly: &[Point2<i64>]) -> Vec<Vertex> {
    poly.iter().map(|&p| Vertex::Original(p)).collect()
}

#[test]
fn test_union_overlapping_squares() {
    let a = square(0, 0, 10);
    let b = square(5, 5, 10);

    let result = polygon_union(&a, &b);
    assert!(!result.is_empty());
}

#[test]
fn test_intersection_overlapping_squares() {
    let a = square(0, 0, 10);
    let b = square(5, 5, 10);

    let result = polygon_intersection(&a, &b);
    assert!(!result.is_empty());
}

#[test]
fn test_difference_overlapping_squares() {
    let a = square(0, 0, 10);
    let b = square(5, 5, 10);

    let result = polygon_difference(&a, &b);
    assert!(!result.is_empty());
}

#[test]
fn test_union_disjoint() {
    let a = square(0, 0, 10);
    let b = square(20, 0, 10);

    let result = polygon_union(&a, &b);
    // Should return both polygons
    assert_eq!(result.polygons.len(), 2);
}

#[test]
fn test_intersection_disjoint() {
    let a = square(0, 0, 10);
    let b = square(20, 0, 10);

    let result = polygon_intersection(&a, &b);
    // No intersection
    assert!(result.is_empty());
}

#[test]
fn test_difference_disjoint() {
    let a = square(0, 0, 10);
    let b = square(20, 0, 10);

    let result = polygon_difference(&a, &b);
    // Difference is just A
    assert_eq!(result.polygons.len(), 1);
}

#[test]
fn test_nested_polygons_union() {
    let outer = square(0, 0, 20);
    let inner = square(5, 5, 10);

    let result = polygon_union(&outer, &inner);
    // Union of nested is the outer
    assert_eq!(result.polygons.len(), 1);
}

#[test]
fn test_nested_polygons_intersection() {
    let outer = square(0, 0, 20);
    let inner = square(5, 5, 10);

    let result = polygon_intersection(&outer, &inner);
    // Intersection of nested is the inner
    assert_eq!(result.polygons.len(), 1);
}

#[test]
fn test_identical_polygons() {
    let a = square(0, 0, 10);
    let b = square(0, 0, 10);

    let union = polygon_union(&a, &b);
    let intersection = polygon_intersection(&a, &b);
    let difference = polygon_difference(&a, &b);

    assert!(!union.is_empty());
    assert!(!intersection.is_empty());
    // Difference of identical polygons is empty
    assert!(difference.is_empty());
}

#[test]
fn boolean_test_empty_input() {
    let a: Vec<Point2<i64>> = vec![];
    let b = square(0, 0, 10);

    let union = polygon_union(&a, &b);
    assert_eq!(union.polygons.len(), 1);

    let intersection = polygon_intersection(&a, &b);
    assert!(intersection.is_empty());

    let difference = polygon_difference(&a, &b);
    assert!(difference.is_empty());
}

#[test]
fn test_triangle_square_intersection() {
    let triangle = vec![
        Point2::new(5_i64, 0),
        Point2::new(15, 10),
        Point2::new(5, 20),
    ];
    let sq = square(0, 5, 10);

    let result = polygon_intersection(&triangle, &sq);
    assert!(!result.is_empty());
}

#[test]
fn test_ensure_ccw() {
    // CW square
    let cw = vec![
        Point2::new(0_i64, 0),
        Point2::new(0, 10),
        Point2::new(10, 10),
        Point2::new(10, 0),
    ];

    let ccw = ensure_ccw(&cw);
    let area = polygon_area_2x(&ccw);
    assert!(area > 0, "Polygon should be CCW after conversion");
}

#[test]
fn test_vertex_comparison() {
    let v1 = Vertex::Original(Point2::new(5, 10));
    let v2 = Vertex::Intersection(RationalPoint::from_ints(5, 10));

    assert_eq!(v1, v2);
}

#[test]
fn test_find_intersections() {
    let a = square(0, 0, 10);
    let b = square(5, 5, 10);

    let intersections = find_all_intersections(&a, &b);
    // Two overlapping squares should have intersection points
    assert!(!intersections.is_empty());
}

#[test]
fn boolean_vertex_coordinates() {
    let v = Vertex::Original(Point2::new(-3_i64, 7));
    assert_eq!(v.x(), Rational::from_int(-3));
    assert_eq!(v.y(), Rational::from_int(7));
    let w = Vertex::Intersection(RationalPoint::new(Rational::new(1, 2), Rational::new(3, 4)));
    assert_eq!(w.x(), Rational::new(1, 2));
    assert_eq!(w.y(), Rational::new(3, 4));
    // Equality is on the stored numerators and denominators.
    let u = Vertex::Intersection(RationalPoint::new(Rational::new(2, 4), Rational::new(3, 4)));
    assert_ne!(u, w);
}

#[test]
fn boolean_vertex_count_and_empty() {
    let r = BooleanResult { polygons: vec![] };
    assert!(r.is_empty());
    assert_eq!(r.vertex_count(), 0);
    let a = square(0, 0, 10);
    let b = square(20, 0, 10);
    let u = polygon_union(&a, &b);
    assert_eq!(u.vertex_count(), 8);
}

#[test]
fn boolean_ensure_ccw_keeps_ccw_and_reverses_cw() {
    let ccw = square(0, 0, 4);
    assert_eq!(ensure_ccw(&ccw), ccw);
    let mut cw = ccw.clone();
    cw.reverse();
    assert_eq!(ensure_ccw(&cw), ccw);
}

#[test]
fn boolean_degenerate_inputs() {
    let a = square(0, 0, 10);
    let line = vec![Point2::new(0_i64, 0), Point2::new(5, 5)];
    // A union with a degenerate polygon keeps the other polygon, counter-clockwise.
    let u = polygon_union(&line, &a);
    assert_eq!(u.polygons, vec![originals(&a)]);
    let d = polygon_difference(&a, &line);
    assert_eq!(d.polygons, vec![originals(&a)]);
    assert!(polygon_intersection(&a, &line).is_empty());
    assert!(polygon_union(&line, &line).is_empty());
}

#[test]
fn boolean_degenerate_inputs_made_counter_clockwise() {
    let empty: Vec<Point2<i64>> = vec![];
    let cw = vec![Point2::new(0_i64, 0), Point2::new(0, 10), Point2::new(10, 10), Point2::new(10, 0)];
    let ccw = vec![Point2::new(10_i64, 0), Point2::new(10, 10), Point2::new(0, 10), Point2::new(0, 0)];
    assert_eq!(polygon_union(&empty, &cw).polygons, vec![originals(&ccw)]);
    assert_eq!(polygon_union(&cw, &empty).polygons, vec![originals(&ccw)]);
    assert_eq!(polygon_difference(&cw, &empty).polygons, vec![originals(&ccw)]);
}

#[test]
fn boolean_disjoint_and_nested_results_are_the_inputs() {
    let a = square(0, 0, 10);
    let b = square(20, 0, 10);
    let u = polygon_union(&a, &b);
    assert_eq!(u.polygons, vec![originals(&a), originals(&b)]);
    let outer = square(0, 0, 20);
    let inner = square(5, 5, 10);
    assert_eq!(polygon_union(&outer, &inner).polygons, vec![originals(&outer)]);
    assert_eq!(polygon_intersection(&outer, &inner).polygons, vec![originals(&inner)]);
    assert!(polygon_difference(&inner, &outer).is_empty());
}

#[test]
fn boolean_crossing_points_of_overlapping_squares() {
    let a = square(0, 0, 10);
    let b = square(5, 5, 10);
    let found = find_all_intersections(&a, &b);
    // Edge 1 of a (x = 10) meets edge 0 of b (y = 5) at (10, 5), and
    // edge 2 of a (y = 10) meets edge 3 of b (x = 5) at (5, 10).
    assert_eq!(found.len(), 2);
    let pts: Vec<(usize, usize, f64, f64)> = found
        .iter()
        .map(|i| {
            (
                i.edge_a,
                i.edge_b,
                i.point.x.num as f64 / i.point.x.denom as f64,
                i.point.y.num as f64 / i.point.y.denom as f64,
            )
        })
        .collect();
    assert_eq!(pts[0].0, 1);
    assert_eq!(pts[0].1, 0);
    assert!((pts[0].2 - 10.0).abs() < 1e-9 && (pts[0].3 - 5.0).abs() < 1e-9);
    assert_eq!(pts[1].0, 2);
    assert_eq!(pts[1].1, 3);
    assert!((pts[1].2 - 5.0).abs() < 1e-9 && (pts[1].3 - 10.0).abs() < 1e-9);
}

fn area_2x(poly: &[Vertex]) -> f64 {
    let n = poly.len();
    let mut s = 0.0;
    for i in 0..n {
        let (p, q) = (&poly[i], &poly[(i + 1) % n]);
        let (px, py) = (p.x().num as f64 / p.x().denom as f64, p.y().num as f64 / p.y().denom as f64);
        let (qx, qy) = (q.x().num as f64 / q.x().denom as f64, q.y().num as f64 / q.y().denom as f64);
        s += px * qy - qx * py;
    }
    s
}

#[test]
fn boolean_splits_follow_edge_direction() {
    // The top edge of `a` runs from (10, 10) back to (0, 10); `b` crosses it
    // at (7, 10) and then (3, 10).
    let a = square(0, 0, 10);
    let b = vec![Point2::new(3_i64, 5), Point2::new(7, 5), Point2::new(7, 15), Point2::new(3, 15)];
    let union = polygon_union(&a, &b);
    assert_eq!(union.polygons.len(), 1);
    assert_eq!(union.polygons[0].len(), 8);
    assert_eq!(area_2x(&union.polygons[0]), 240.0);
    let inter = polygon_intersection(&a, &b);
    assert_eq!(inter.polygons.len(), 1);
    assert_eq!(inter.polygons[0].len(), 4);
    assert_eq!(area_2x(&inter.polygons[0]), 40.0);
    let diff = polygon_difference(&a, &b);
    assert_eq!(diff.polygons.len(), 1);
    assert_eq!(area_2x(&diff.polygons[0]), 160.0);
}
