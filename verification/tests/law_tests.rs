use std::cmp::Ordering;

use exactum::algo::boolean::{polygon_difference, polygon_intersection, polygon_union, Vertex};
use exactum::algo::{delaunay, graham_scan};
use exactum::algo::sweep::{find_intersections, Segment};
use exactum::algo::voronoi::circumcenter;
use exactum::ops::{
    distance_squared, distance_squared_3d, point_in_polygon, point_in_triangle, polygon_area_2x,
    segment_intersection, Containment, RationalPoint, SegmentIntersection,
};
use exactum::predicates::{coplanar, incircle, orient2d, orient3d};
use exactum::{Point2, Point3, Rational};

/// `(q - o) x (p - o)` over `p`'s common denominator, as in the library's `on_line`.
fn on_line(o: Point2<i64>, q: Point2<i64>, p: RationalPoint) -> bool {
    let d = p.x.denom;
    assert_eq!(d, p.y.denom);
    let (ox, oy, qx, qy) = (o.x as i128, o.y as i128, q.x as i128, q.y as i128);
    (qx - ox) * (p.y.num - oy * d) - (qy - oy) * (p.x.num - ox * d) == 0
}

#[test]
fn law_orient2d_symmetry() {
    let (a, b, c) = (Point2::new(1_i64, 2), Point2::new(7, -3), Point2::new(-4, 5));
    let o = orient2d(a, b, c);
    assert_eq!(orient2d(a, c, b), o.reverse());
    assert_eq!(orient2d(b, c, a), o);
    assert_eq!(orient2d(c, a, b), o);
}

#[test]
fn law_incircle_symmetry() {
    let (a, b, c) = (Point2::new(0_i64, 0), Point2::new(10, 0), Point2::new(0, 10));
    for d in [Point2::new(3_i64, 3), Point2::new(20, 20), Point2::new(10, 10)] {
        let o = incircle(a, b, c, d);
        assert_eq!(incircle(b, c, a, d), o);
        assert_eq!(incircle(b, a, c, d), o.reverse());
    }
}

#[test]
fn law_orient3d_swap() {
    let a = Point3::new(0_i64, 0, 0);
    let b = Point3::new(1, 0, 0);
    let c = Point3::new(0, 1, 0);
    let d = Point3::new(0, 0, 1);
    assert_eq!(orient3d(a, b, c, d), Ordering::Greater);
    assert_eq!(orient3d(a, b, d, c), Ordering::Less);
}

#[test]
fn law_orient3d_transpositions() {
    let a = Point3::new(1_i64, -2, 3);
    let b = Point3::new(4, 0, -1);
    let c = Point3::new(-3, 5, 2);
    let d = Point3::new(2, 2, 7);
    let o = orient3d(a, b, c, d);
    assert_ne!(o, Ordering::Equal);
    assert_eq!(orient3d(b, a, c, d), o.reverse());
    assert_eq!(orient3d(a, c, b, d), o.reverse());
    assert_eq!(orient3d(a, b, d, c), o.reverse());
}

#[test]
fn law_coplanar_symmetry() {
    let a = Point3::new(0_i64, 0, 5);
    let b = Point3::new(3, 1, 5);
    let c = Point3::new(-2, 4, 5);
    let d = Point3::new(7, 7, 5);
    let e = Point3::new(7, 7, 6);
    assert!(coplanar(a, b, c, d));
    assert!(coplanar(b, a, c, d) && coplanar(a, c, b, d) && coplanar(a, b, d, c));
    assert!(coplanar(d, c, b, a));
    assert!(!coplanar(a, b, c, e));
    assert!(!coplanar(e, c, b, a));
}

#[test]
fn law_rational_order() {
    let a = Rational::new(1, 3);
    let b = Rational::new(2, 5);
    let c = Rational::new(3, 4);
    assert_eq!(a.cmp(&b), Ordering::Less);
    assert_eq!(b.cmp(&a), Ordering::Greater);
    assert_eq!(b.cmp(&c), Ordering::Less);
    assert_eq!(a.cmp(&c), Ordering::Less);
    assert_eq!(Rational::new(2, 4).cmp(&Rational::new(1, 2)), Ordering::Equal);
    assert_eq!(Rational::from_int(-7).cmp(&Rational::from_int(3)), Ordering::Less);
    let s1 = a + b;
    let s2 = b + a;
    assert_eq!((s1.num, s1.denom), (s2.num, s2.denom));
    let p1 = a * c;
    let p2 = c * a;
    assert_eq!((p1.num, p1.denom), (p2.num, p2.denom));
}

#[test]
fn law_distance_symmetric_and_zero() {
    let a = Point2::new(-3_i64, 4);
    let b = Point2::new(5_i64, -2);
    assert_eq!(distance_squared(a, b), distance_squared(b, a));
    assert_eq!(distance_squared(a, b), 100);
    assert_eq!(distance_squared(a, a), 0);
    let p = Point3::new(1_i64, 2, 3);
    let q = Point3::new(-1_i64, 0, 4);
    assert_eq!(distance_squared_3d(p, q), distance_squared_3d(q, p));
    assert_eq!(distance_squared_3d(p, q), 9);
    assert_eq!(distance_squared_3d(p, p), 0);
}

#[test]
fn law_polygon_vertices_on_boundary() {
    let poly = vec![
        Point2::new(0_i64, 0),
        Point2::new(6, 0),
        Point2::new(6, 2),
        Point2::new(3, 5),
        Point2::new(0, 2),
    ];
    for &v in &poly {
        assert_eq!(point_in_polygon(v, &poly), Containment::OnBoundary);
    }
    let (a, b, c) = (Point2::new(0_i64, 0), Point2::new(4, 1), Point2::new(1, 5));
    assert_eq!(point_in_triangle(a, a, b, c), Containment::OnBoundary);
    assert_eq!(point_in_triangle(b, a, b, c), Containment::OnBoundary);
}

#[test]
fn law_reversed_polygon_negates_area() {
    let poly = vec![
        Point2::new(0_i64, 0),
        Point2::new(6, 0),
        Point2::new(6, 2),
        Point2::new(3, 5),
        Point2::new(0, 2),
    ];
    let mut rev = poly.clone();
    rev.reverse();
    assert_eq!(polygon_area_2x(&rev), -polygon_area_2x(&poly));
    assert_eq!(polygon_area_2x(&poly), 42);
}

#[test]
fn law_segment_point_on_both_lines() {
    let cases = [
        (Point2::new(0_i64, 0), Point2::new(7, 3), Point2::new(1, 5), Point2::new(4, -2)),
        (Point2::new(0_i64, 0), Point2::new(4, 0), Point2::new(4, 0), Point2::new(9, 9)),
        (Point2::new(-5_i64, 1), Point2::new(5, 2), Point2::new(0, -3), Point2::new(1, 8)),
    ];
    for (a1, a2, b1, b2) in cases {
        match segment_intersection(a1, a2, b1, b2) {
            SegmentIntersection::Point(p) => {
                assert!(on_line(a1, a2, p));
                assert!(on_line(b1, b2, p));
            }
            other => panic!("expected a point, got {:?}", other),
        }
    }
}

#[test]
fn law_sweep_reports_points_on_both_lines() {
    let segments = vec![
        Segment::new(Point2::new(0_i64, 0), Point2::new(9, 4)),
        Segment::new(Point2::new(1_i64, 6), Point2::new(8, -1)),
        Segment::new(Point2::new(2_i64, -3), Point2::new(3, 9)),
    ];
    let found = find_intersections(&segments);
    assert!(!found.is_empty());
    for i in &found {
        let (a, b) = i.segments;
        assert!(a < b);
        assert!(on_line(segments[a].p1, segments[a].p2, i.point));
        assert!(on_line(segments[b].p1, segments[b].p2, i.point));
    }
}

#[test]
fn law_circumcenter_equidistant() {
    let (a, b, c) = (Point2::new(1_i64, 2), Point2::new(9, -1), Point2::new(4, 7));
    let cc = circumcenter(a, b, c);
    let d = cc.x.denom;
    assert_eq!(d, cc.y.denom);
    let dist = |p: Point2<i64>| {
        let dx = cc.x.num - p.x as i128 * d;
        let dy = cc.y.num - p.y as i128 * d;
        dx * dx + dy * dy
    };
    assert_eq!(dist(a), dist(b));
    assert_eq!(dist(a), dist(c));
}

#[test]
fn law_boolean_with_itself_and_degenerate() {
    let sq = vec![
        Point2::new(0_i64, 0),
        Point2::new(0, 4),
        Point2::new(4, 4),
        Point2::new(4, 0),
    ];
    let ccw: Vec<Vertex> = sq.iter().rev().map(|&p| Vertex::Original(p)).collect();
    assert_eq!(polygon_union(&sq, &sq).polygons, vec![ccw.clone()]);
    assert_eq!(polygon_intersection(&sq, &sq).polygons, vec![ccw.clone()]);
    assert!(polygon_difference(&sq, &sq).is_empty());
    let two = vec![Point2::new(0_i64, 0), Point2::new(1, 1)];
    assert!(polygon_intersection(&sq, &two).is_empty());
    // The polygon kept from a degenerate case is counter-clockwise too.
    assert_eq!(polygon_difference(&sq, &two).polygons, vec![ccw]);
}

#[test]
fn law_delaunay_triangles_counter_clockwise() {
    let points = vec![
        Point2::new(0_i64, 0),
        Point2::new(10, 0),
        Point2::new(10, 10),
        Point2::new(0, 10),
        Point2::new(4, 6),
        Point2::new(7, 2),
    ];
    let tri = delaunay(&points).unwrap();
    assert!(!tri.triangles.is_empty());
    for t in &tri.triangles {
        let [a, b, c] = t.vertices;
        assert!(a < points.len() && b < points.len() && c < points.len());
        assert_ne!(orient2d(points[a], points[b], points[c]), Ordering::Less);
    }
}

#[test]
fn law_two_crossing_segments_reported() {
    // each segment starts strictly before the other ends, and they meet once
    let segments = vec![
        Segment::new(Point2::new(0_i64, 0), Point2::new(10, 6)),
        Segment::new(Point2::new(3_i64, 8), Point2::new(12, -2)),
    ];
    let found = find_intersections(&segments);
    assert_eq!(found.len(), 1);
    assert_eq!(found[0].segments, (0, 1));
    assert!(on_line(segments[0].p1, segments[0].p2, found[0].point));
    assert!(on_line(segments[1].p1, segments[1].p2, found[0].point));
}

#[test]
fn law_crossing_point_within_first_segment() {
    let cases = [
        (Point2::new(0_i64, 0), Point2::new(10, 6), Point2::new(3_i64, 8), Point2::new(12, -2)),
        (Point2::new(9_i64, 1), Point2::new(-4, 5), Point2::new(0_i64, 0), Point2::new(2, 7)),
        (Point2::new(0_i64, 0), Point2::new(8, 8), Point2::new(4_i64, 4), Point2::new(9, 0)),
    ];
    for (a1, a2, b1, b2) in cases {
        match segment_intersection(a1, a2, b1, b2) {
            SegmentIntersection::Point(p) => {
                let (lo, hi) = if a1.x <= a2.x { (a1.x, a2.x) } else { (a2.x, a1.x) };
                assert!(p.x.denom > 0);
                assert!(lo as i128 * p.x.denom <= p.x.num);
                assert!(p.x.num <= hi as i128 * p.x.denom);
            }
            _ => panic!("expected a crossing point"),
        }
    }
}

#[test]
fn law_hull_angle_holds_points() {
    let points = vec![
        Point2::new(3_i64, 1),
        Point2::new(0, 0),
        Point2::new(7, 2),
        Point2::new(5, 5),
        Point2::new(1, 6),
        Point2::new(2, 3),
        Point2::new(-2, 4),
        Point2::new(4, 4),
        Point2::new(6, 0),
    ];
    let hull = graham_scan(&points);
    assert!(hull.len() >= 3);
    let (first, second, last) = (hull[0], hull[1], hull[hull.len() - 1]);
    for q in &points {
        assert_ne!(orient2d(first, second, *q), Ordering::Less);
        assert_ne!(orient2d(last, first, *q), Ordering::Less);
    }
}

#[test]
fn law_hull_holds_points() {
    let points = vec![
        Point2::new(3_i64, 1),
        Point2::new(0, 0),
        Point2::new(7, 2),
        Point2::new(5, 5),
        Point2::new(1, 6),
        Point2::new(2, 3),
        Point2::new(-2, 4),
        Point2::new(4, 4),
        Point2::new(6, 0),
        Point2::new(2, 2),
        Point2::new(6, 3),
    ];
    let hull = graham_scan(&points);
    assert!(hull.len() >= 3);
    for i in 0..hull.len() {
        let (a, b) = (hull[i], hull[(i + 1) % hull.len()]);
        for q in &points {
            assert_ne!(orient2d(a, b, *q), Ordering::Less);
        }
    }
}
