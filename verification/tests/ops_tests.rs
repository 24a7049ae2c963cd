use exactum::ops::{
    distance_squared, distance_squared_3d, line_segment_intersection, point_in_polygon,
    point_in_triangle, polygon_area_2x, ray_segment_intersection, segment_intersection, Containment,
    LineIntersection, RationalPoint, RayIntersection, SegmentIntersection,
};
use exactum::{Point2, Point3, Rational, Vector2};

fn to_f64(p: RationalPoint) -> (f64, f64) {
    (
        p.x.num as f64 / p.x.denom as f64,
        p.y.num as f64 / p.y.denom as f64,
    )
}

#[test]
fn distance_squared_basic() {
    let a = Point2::new(0_i64, 0);
    let b = Point2::new(3, 4);
    assert_eq!(distance_squared(a, b), 25_i128);
}

#[test]
fn distance_squared_same_point() {
    let a = Point2::new(5_i64, 5);
    assert_eq!(distance_squared(a, a), 0_i128);
}

#[test]
fn distance_squared_i32() {
    let a = Point2::new(0_i32, 0);
    let b = Point2::new(3, 4);
    assert_eq!(distance_squared(a, b), 25_i64);
}

#[test]
fn distance_squared_negative() {
    let a = Point2::new(-3_i64, -4);
    let b = Point2::new(0, 0);
    assert_eq!(distance_squared(a, b), 25_i128);
}

#[test]
fn distance_squared_3d_exact() {
    let a = Point3::new(1_i64, 2, 3);
    let b = Point3::new(4, 6, 15);
    assert_eq!(distance_squared_3d(a, b), 9 + 16 + 144);
}

#[test]
fn polygon_area_square_orientation() {
    let ccw = vec![
        Point2::new(0_i64, 0),
        Point2::new(10, 0),
        Point2::new(10, 10),
        Point2::new(0, 10),
    ];
    assert_eq!(polygon_area_2x(&ccw), 200);
    let cw: Vec<Point2<i64>> = ccw.iter().rev().copied().collect();
    assert_eq!(polygon_area_2x(&cw), -200);
}

#[test]
fn point_in_triangle_inside() {
    let a = Point2::new(0_i64, 0);
    let b = Point2::new(10, 0);
    let c = Point2::new(5, 10);
    assert_eq!(point_in_triangle(Point2::new(5, 3), a, b, c), Containment::Inside);
}

#[test]
fn point_in_triangle_outside() {
    let a = Point2::new(0_i64, 0);
    let b = Point2::new(10, 0);
    let c = Point2::new(5, 10);
    assert_eq!(point_in_triangle(Point2::new(20, 20), a, b, c), Containment::Outside);
}

#[test]
fn point_in_triangle_on_vertex() {
    let a = Point2::new(0_i64, 0);
    let b = Point2::new(10, 0);
    let c = Point2::new(5, 10);
    assert_eq!(point_in_triangle(a, a, b, c), Containment::OnBoundary);
}

#[test]
fn point_in_triangle_on_edge() {
    let a = Point2::new(0_i64, 0);
    let b = Point2::new(10, 0);
    let c = Point2::new(5, 10);
    assert_eq!(point_in_triangle(Point2::new(5, 0), a, b, c), Containment::OnBoundary);
}

#[test]
fn point_in_triangle_cw_order() {
    let a = Point2::new(0_i64, 0);
    let b = Point2::new(5, 10);
    let c = Point2::new(10, 0);
    assert_eq!(point_in_triangle(Point2::new(5, 3), a, b, c), Containment::Inside);
}

#[test]
fn point_in_triangle_on_extended_edge_is_outside() {
    let a = Point2::new(0_i64, 0);
    let b = Point2::new(10, 0);
    let c = Point2::new(5, 10);
    assert_eq!(point_in_triangle(Point2::new(20, 0), a, b, c), Containment::Outside);
}

#[test]
fn segment_intersection_crossing() {
    let a1 = Point2::new(0_i64, 0);
    let a2 = Point2::new(10, 10);
    let b1 = Point2::new(0, 10);
    let b2 = Point2::new(10, 0);

    match segment_intersection(a1, a2, b1, b2) {
        SegmentIntersection::Point(p) => {
            let (x, y) = to_f64(p);
            assert!((x - 5.0).abs() < 0.001, "x = {}", x);
            assert!((y - 5.0).abs() < 0.001, "y = {}", y);
        }
        other => panic!("Expected Point, got {:?}", other),
    }
}

#[test]
fn segment_intersection_exact_rational_point() {
    let a1 = Point2::new(0_i64, 0);
    let a2 = Point2::new(3, 1);
    let b1 = Point2::new(0, 1);
    let b2 = Point2::new(1, 0);
    match segment_intersection(a1, a2, b1, b2) {
        SegmentIntersection::Point(p) => {
            // (3/4, 1/4)
            assert!(p.x.denom > 0 && p.y.denom > 0);
            assert_eq!(p.x.num * 4, 3 * p.x.denom);
            assert_eq!(p.y.num * 4, 1 * p.y.denom);
        }
        other => panic!("Expected Point, got {:?}", other),
    }
}

#[test]
fn segment_intersection_no_intersect() {
    let a1 = Point2::new(0_i64, 0);
    let a2 = Point2::new(1, 1);
    let b1 = Point2::new(2, 2);
    let b2 = Point2::new(3, 3);
    assert!(matches!(
        segment_intersection(a1, a2, b1, b2),
        SegmentIntersection::CollinearDisjoint
    ));
}

#[test]
fn segment_intersection_parallel_no_intersect() {
    let a1 = Point2::new(0_i64, 0);
    let a2 = Point2::new(10, 0);
    let b1 = Point2::new(0, 5);
    let b2 = Point2::new(10, 5);
    assert!(matches!(
        segment_intersection(a1, a2, b1, b2),
        SegmentIntersection::NoIntersection
    ));
}

#[test]
fn segment_intersection_collinear_overlap() {
    let a1 = Point2::new(0_i64, 0);
    let a2 = Point2::new(5, 0);
    let b1 = Point2::new(3, 0);
    let b2 = Point2::new(10, 0);
    assert!(matches!(
        segment_intersection(a1, a2, b1, b2),
        SegmentIntersection::Overlapping
    ));
}

#[test]
fn segment_intersection_t_junction() {
    let a1 = Point2::new(0_i64, 5);
    let a2 = Point2::new(10, 5);
    let b1 = Point2::new(5, 0);
    let b2 = Point2::new(5, 5);

    match segment_intersection(a1, a2, b1, b2) {
        SegmentIntersection::Point(p) => {
            let (x, y) = to_f64(p);
            assert!((x - 5.0).abs() < 0.001);
            assert!((y - 5.0).abs() < 0.001);
        }
        other => panic!("Expected Point, got {:?}", other),
    }
}

#[test]
fn line_segment_intersection_crossing() {
    let line_point = Point2::new(0_i64, 5);
    let line_dir = Vector2::new(1, 0);
    let seg_start = Point2::new(5, 0);
    let seg_end = Point2::new(5, 10);

    match line_segment_intersection(line_point, line_dir, seg_start, seg_end) {
        LineIntersection::Point(p) => {
            let (x, y) = to_f64(p);
            assert!((x - 5.0).abs() < 0.001);
            assert!((y - 5.0).abs() < 0.001);
        }
        other => panic!("Expected Point, got {:?}", other),
    }
}

#[test]
fn line_segment_intersection_parallel() {
    let line_point = Point2::new(0_i64, 0);
    let line_dir = Vector2::new(1, 0);
    let seg_start = Point2::new(0, 5);
    let seg_end = Point2::new(10, 5);
    assert!(matches!(
        line_segment_intersection(line_point, line_dir, seg_start, seg_end),
        LineIntersection::NoIntersection
    ));
}

#[test]
fn line_segment_intersection_collinear() {
    let line_point = Point2::new(0_i64, 0);
    let line_dir = Vector2::new(1, 0);
    let seg_start = Point2::new(5, 0);
    let seg_end = Point2::new(10, 0);
    assert!(matches!(
        line_segment_intersection(line_point, line_dir, seg_start, seg_end),
        LineIntersection::Collinear
    ));
}

#[test]
fn line_segment_intersection_endpoint() {
    let line_point = Point2::new(0_i64, 0);
    let line_dir = Vector2::new(1, 1);
    let seg_start = Point2::new(5, 5);
    let seg_end = Point2::new(5, 10);

    match line_segment_intersection(line_point, line_dir, seg_start, seg_end) {
        LineIntersection::Point(p) => {
            let (x, y) = to_f64(p);
            assert!((x - 5.0).abs() < 0.001);
            assert!((y - 5.0).abs() < 0.001);
        }
        other => panic!("Expected Point, got {:?}", other),
    }
}

#[test]
fn ray_segment_intersection_crossing() {
    let ray_origin = Point2::new(0_i64, 5);
    let ray_dir = Vector2::new(1, 0);
    let seg_start = Point2::new(5, 0);
    let seg_end = Point2::new(5, 10);

    match ray_segment_intersection(ray_origin, ray_dir, seg_start, seg_end) {
        RayIntersection::Point(p) => {
            let (x, y) = to_f64(p);
            assert!((x - 5.0).abs() < 0.001);
            assert!((y - 5.0).abs() < 0.001);
        }
        other => panic!("Expected Point, got {:?}", other),
    }
}

#[test]
fn ray_segment_intersection_behind() {
    let ray_origin = Point2::new(10_i64, 5);
    let ray_dir = Vector2::new(1, 0);
    let seg_start = Point2::new(5, 0);
    let seg_end = Point2::new(5, 10);
    assert!(matches!(
        ray_segment_intersection(ray_origin, ray_dir, seg_start, seg_end),
        RayIntersection::NoIntersection
    ));
}

#[test]
fn ray_segment_intersection_parallel() {
    let ray_origin = Point2::new(0_i64, 0);
    let ray_dir = Vector2::new(1, 0);
    let seg_start = Point2::new(0, 5);
    let seg_end = Point2::new(10, 5);
    assert!(matches!(
        ray_segment_intersection(ray_origin, ray_dir, seg_start, seg_end),
        RayIntersection::NoIntersection
    ));
}

#[test]
fn ray_segment_intersection_collinear_overlap() {
    let ray_origin = Point2::new(0_i64, 0);
    let ray_dir = Vector2::new(1, 0);
    let seg_start = Point2::new(5, 0);
    let seg_end = Point2::new(10, 0);
    assert!(matches!(
        ray_segment_intersection(ray_origin, ray_dir, seg_start, seg_end),
        RayIntersection::CollinearOverlap
    ));
}

#[test]
fn ray_segment_intersection_collinear_behind() {
    let ray_origin = Point2::new(10_i64, 0);
    let ray_dir = Vector2::new(1, 0);
    let seg_start = Point2::new(0, 0);
    let seg_end = Point2::new(5, 0);
    assert!(matches!(
        ray_segment_intersection(ray_origin, ray_dir, seg_start, seg_end),
        RayIntersection::CollinearDisjoint
    ));
}

#[test]
fn ray_segment_intersection_endpoint_on_ray() {
    let ray_origin = Point2::new(0_i64, 0);
    let ray_dir = Vector2::new(1, 0);
    let seg_start = Point2::new(4, 0);
    let seg_end = Point2::new(4, 7);
    match ray_segment_intersection(ray_origin, ray_dir, seg_start, seg_end) {
        RayIntersection::Point(p) => {
            assert_eq!(p, RationalPoint::from_ints(4, 0));
            assert_eq!(p.x, Rational::from_int(4));
        }
        other => panic!("Expected Point, got {:?}", other),
    }
}

fn square10() -> Vec<Point2<i64>> {
    vec![
        Point2::new(0_i64, 0),
        Point2::new(10, 0),
        Point2::new(10, 10),
        Point2::new(0, 10),
    ]
}

#[test]
fn point_in_polygon_square_inside() {
    let square = square10();
    assert_eq!(point_in_polygon(Point2::new(5, 5), &square), Containment::Inside);
}

#[test]
fn point_in_polygon_square_outside() {
    let square = square10();
    assert_eq!(point_in_polygon(Point2::new(-5, 5), &square), Containment::Outside);
}

#[test]
fn point_in_polygon_on_edge() {
    let square = square10();
    assert_eq!(point_in_polygon(Point2::new(0, 5), &square), Containment::OnBoundary);
}

#[test]
fn point_in_polygon_on_vertex() {
    let square = square10();
    assert_eq!(point_in_polygon(Point2::new(0, 0), &square), Containment::OnBoundary);
}

#[test]
fn point_in_polygon_concave() {
    let l_shape = vec![
        Point2::new(0_i64, 0),
        Point2::new(10, 0),
        Point2::new(10, 5),
        Point2::new(5, 5),
        Point2::new(5, 10),
        Point2::new(0, 10),
    ];
    assert_eq!(point_in_polygon(Point2::new(2, 2), &l_shape), Containment::Inside);
    assert_eq!(point_in_polygon(Point2::new(7, 7), &l_shape), Containment::Outside);
}

#[test]
fn point_in_polygon_triangle() {
    let triangle = vec![Point2::new(0_i64, 0), Point2::new(10, 0), Point2::new(5, 10)];
    assert_eq!(point_in_polygon(Point2::new(5, 3), &triangle), Containment::Inside);
    assert_eq!(point_in_polygon(Point2::new(0, 5), &triangle), Containment::Outside);
}

#[test]
fn point_in_polygon_degenerate_is_outside() {
    let two = vec![Point2::new(0_i64, 0), Point2::new(10, 0)];
    assert_eq!(point_in_polygon(Point2::new(5, 0), &two), Containment::Outside);
}
