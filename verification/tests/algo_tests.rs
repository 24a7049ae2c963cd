use std::cmp::Ordering;

use exactum::algo::voronoi::{circumcenter, compare_angles, quadrant};
use exactum::algo::{delaunay, graham_scan, voronoi, voronoi_from_delaunay, Triangle, Triangulation};
use exactum::predicates::{incircle, orient2d};
use exactum::{Point2, Rational};

fn rational_to_f64(r: Rational) -> f64 {
    r.num as f64 / r.denom as f64
}

#[test]
fn graham_scan_square_with_interior() {
    let points = vec![
        Point2::new(0_i64, 0),
        Point2::new(4, 0),
        Point2::new(4, 4),
        Point2::new(0, 4),
        Point2::new(2, 2),
    ];
    let hull = graham_scan(&points);
    assert_eq!(hull.len(), 4);
    assert!(hull.contains(&Point2::new(0, 0)));
    assert!(hull.contains(&Point2::new(4, 0)));
    assert!(hull.contains(&Point2::new(4, 4)));
    assert!(hull.contains(&Point2::new(0, 4)));
}

#[test]
fn graham_scan_triangle() {
    let points = vec![Point2::new(0_i64, 0), Point2::new(4, 0), Point2::new(2, 3)];
    let hull = graham_scan(&points);
    assert_eq!(hull.len(), 3);
}

#[test]
fn graham_scan_collinear() {
    let points = vec![
        Point2::new(0_i64, 0),
        Point2::new(1, 0),
        Point2::new(2, 0),
        Point2::new(3, 0),
    ];
    let hull = graham_scan(&points);
    assert_eq!(hull.len(), 2);
    assert!(hull.contains(&Point2::new(0, 0)));
    assert!(hull.contains(&Point2::new(3, 0)));
}

#[test]
fn graham_scan_single_point() {
    let points = vec![Point2::new(5_i64, 5)];
    let hull = graham_scan(&points);
    assert_eq!(hull.len(), 1);
}

#[test]
fn graham_scan_two_points() {
    let points = vec![Point2::new(0_i64, 0), Point2::new(1, 1)];
    let hull = graham_scan(&points);
    assert_eq!(hull.len(), 2);
}

#[test]
fn graham_scan_duplicate_points() {
    let points = vec![
        Point2::new(0_i64, 0),
        Point2::new(0, 0),
        Point2::new(4, 0),
        Point2::new(4, 4),
        Point2::new(0, 4),
    ];
    let hull = graham_scan(&points);
    assert_eq!(hull.len(), 4);
}

#[test]
fn graham_scan_ccw_order() {
    let points = vec![
        Point2::new(0_i64, 0),
        Point2::new(4, 0),
        Point2::new(4, 4),
        Point2::new(0, 4),
    ];
    let hull = graham_scan(&points);
    for i in 0..hull.len() {
        let a = hull[i];
        let b = hull[(i + 1) % hull.len()];
        let c = hull[(i + 2) % hull.len()];
        assert_eq!(orient2d(a, b, c), Ordering::Greater);
    }
}

#[test]
fn graham_scan_i32() {
    let points = vec![
        Point2::new(0_i32, 0),
        Point2::new(10, 0),
        Point2::new(10, 10),
        Point2::new(0, 10),
        Point2::new(5, 5),
    ];
    let hull = graham_scan(&points);
    assert_eq!(hull.len(), 4);
}

#[test]
fn graham_scan_starts_at_lowest_point() {
    let points = vec![
        Point2::new(3_i64, 5),
        Point2::new(-2, 1),
        Point2::new(4, -7),
        Point2::new(0, 0),
    ];
    let hull = graham_scan(&points);
    assert_eq!(hull[0], Point2::new(4, -7));
    for p in &hull {
        assert!(points.contains(p));
    }
}

#[test]
fn delaunay_triangle() {
    let points = vec![Point2::new(0_i64, 0), Point2::new(10, 0), Point2::new(5, 10)];
    let tri = delaunay(&points).unwrap();
    assert_eq!(tri.triangles.len(), 1);
}

#[test]
fn delaunay_square() {
    let points = vec![
        Point2::new(0_i64, 0),
        Point2::new(10, 0),
        Point2::new(10, 10),
        Point2::new(0, 10),
    ];
    let tri = delaunay(&points).unwrap();
    assert_eq!(tri.triangles.len(), 2);
}

#[test]
fn delaunay_with_interior_point() {
    let points = vec![
        Point2::new(0_i64, 0),
        Point2::new(10, 0),
        Point2::new(10, 10),
        Point2::new(0, 10),
        Point2::new(5, 5),
    ];
    let tri = delaunay(&points).unwrap();
    assert_eq!(tri.triangles.len(), 4);
}

#[test]
fn delaunay_empty() {
    let points: Vec<Point2<i64>> = vec![];
    assert!(delaunay(&points).is_none());
}

#[test]
fn delaunay_two_points() {
    let points = vec![Point2::new(0_i64, 0), Point2::new(10, 0)];
    assert!(delaunay(&points).is_none());
}

#[test]
fn delaunay_collinear() {
    let points = vec![Point2::new(0_i64, 0), Point2::new(5, 0), Point2::new(10, 0)];
    assert!(delaunay(&points).is_none());
}

#[test]
fn delaunay_property_check() {
    let points = vec![
        Point2::new(0_i64, 0),
        Point2::new(100, 0),
        Point2::new(100, 100),
        Point2::new(0, 100),
        Point2::new(50, 50),
        Point2::new(25, 75),
        Point2::new(75, 25),
    ];
    let tri = delaunay(&points).unwrap();
    for triangle in &tri.triangles {
        let [ai, bi, ci] = triangle.vertices;
        let a = tri.points[ai];
        let b = tri.points[bi];
        let c = tri.points[ci];
        for (i, p) in tri.points.iter().enumerate() {
            if i == ai || i == bi || i == ci {
                continue;
            }
            let result = incircle(a, b, c, *p);
            assert_ne!(
                result,
                Ordering::Greater,
                "Point {} is inside circumcircle of triangle {:?}",
                i,
                triangle
            );
        }
    }
}

#[test]
fn delaunay_triangles_are_ccw_and_point_triples_match() {
    let points = vec![
        Point2::new(0_i64, 0),
        Point2::new(10, 0),
        Point2::new(10, 10),
        Point2::new(0, 10),
        Point2::new(5, 5),
    ];
    let tri = delaunay(&points).unwrap();
    assert_eq!(tri.points, points);
    let triples = tri.triangle_points();
    assert_eq!(triples.len(), tri.triangles.len());
    for (t, triple) in tri.triangles.iter().zip(triples.iter()) {
        assert_eq!(triple[0], points[t.vertices[0]]);
        assert_eq!(orient2d(triple[0], triple[1], triple[2]), Ordering::Greater);
        assert!(t.contains_vertex(t.vertices[1]));
        assert_eq!(t.edges()[2], (t.vertices[2], t.vertices[0]));
    }
}

#[test]
fn voronoi_triangle() {
    let points = vec![Point2::new(0_i64, 0), Point2::new(10, 0), Point2::new(5, 10)];
    let diagram = voronoi(&points).unwrap();
    assert_eq!(diagram.vertices.len(), 1);
}

#[test]
fn voronoi_square() {
    let points = vec![
        Point2::new(0_i64, 0),
        Point2::new(10, 0),
        Point2::new(10, 10),
        Point2::new(0, 10),
    ];
    let diagram = voronoi(&points).unwrap();
    assert_eq!(diagram.vertices.len(), 2);
}

#[test]
fn voronoi_with_interior() {
    let points = vec![
        Point2::new(0_i64, 0),
        Point2::new(10, 0),
        Point2::new(10, 10),
        Point2::new(0, 10),
        Point2::new(5, 5),
    ];
    let diagram = voronoi(&points).unwrap();
    assert_eq!(diagram.vertices.len(), 4);
    assert_eq!(diagram.sites.len(), 5);
}

#[test]
fn voronoi_too_few_points() {
    let points = vec![Point2::new(0_i64, 0), Point2::new(10, 0)];
    assert!(voronoi(&points).is_none());
}

#[test]
fn voronoi_cells_and_edges_of_square_with_center() {
    let points = vec![
        Point2::new(0_i64, 0),
        Point2::new(10, 0),
        Point2::new(10, 10),
        Point2::new(0, 10),
        Point2::new(5, 5),
    ];
    let tri = delaunay(&points).unwrap();
    let diagram = voronoi_from_delaunay(&tri);
    assert_eq!(diagram.cells.len(), 5);
    // the center site touches all four triangles
    assert_eq!(diagram.cells[4].len(), 4);
    // four inner edges and four edges going to infinity
    let bounded = diagram.edges.iter().filter(|e| e.end.is_some()).count();
    let unbounded = diagram.edges.iter().filter(|e| e.end.is_none()).count();
    assert_eq!(bounded, 4);
    assert_eq!(unbounded, 4);
    // the center cell goes around counter-clockwise
    let site_x = Rational::from_int(5);
    let site_y = Rational::from_int(5);
    let cell = &diagram.cells[4];
    for w in cell.windows(2) {
        let a = diagram.vertices[w[0]];
        let b = diagram.vertices[w[1]];
        assert_eq!(
            compare_angles(a.x - site_x, a.y - site_y, b.x - site_x, b.y - site_y),
            Ordering::Less
        );
    }
}

#[test]
fn circumcenter_right_triangle() {
    let a = Point2::new(0_i64, 0);
    let b = Point2::new(10, 0);
    let c = Point2::new(0, 10);
    let cc = circumcenter(a, b, c);
    assert_eq!(cc.x.num, 5 * cc.x.denom);
    assert_eq!(cc.y.num, 5 * cc.y.denom);
}

#[test]
fn circumcenter_obtuse_triangle() {
    let a = Point2::new(0_i64, 0);
    let b = Point2::new(100, 0);
    let c = Point2::new(50, 10);
    let cc = circumcenter(a, b, c);
    let (x, y) = (rational_to_f64(cc.x), rational_to_f64(cc.y));
    assert!((x - 50.0).abs() < 1.0, "x = {}", x);
    assert!(y < 0.0, "y = {} should be negative (outside triangle)", y);
}

#[test]
fn circumcenter_equilateral() {
    let a = Point2::new(0_i64, 0);
    let b = Point2::new(100, 0);
    let c = Point2::new(50, 87);
    let cc = circumcenter(a, b, c);
    let (x, y) = (rational_to_f64(cc.x), rational_to_f64(cc.y));
    assert!((x - 50.0).abs() < 1.0, "x = {}", x);
    assert!(y > 0.0 && y < 87.0, "y = {} should be inside triangle", y);
}

#[test]
fn circumcenter_exact_value_and_degenerate() {
    // (0,0), (4,0), (0,2): circumcenter (2, 1)
    let cc = circumcenter(Point2::new(0, 0), Point2::new(4, 0), Point2::new(0, 2));
    assert_eq!(cc.x.num, 2 * cc.x.denom);
    assert_eq!(cc.y.num, cc.y.denom);
    assert!(cc.x.denom > 0);
    // collinear input: denominator 1, the numerators as they are
    let d = circumcenter(Point2::new(0, 0), Point2::new(1, 1), Point2::new(2, 2));
    assert_eq!((d.x.num, d.x.denom), (-4, 1));
    assert_eq!((d.y.num, d.y.denom), (4, 1));
}

#[test]
fn angle_comparison() {
    let ax = Rational::new(1, 1);
    let ay = Rational::new(0, 1);
    let bx = Rational::new(0, 1);
    let by = Rational::new(1, 1);
    assert_eq!(compare_angles(ax, ay, bx, by), Ordering::Less);
}

#[test]
fn angle_comparison_same_quadrant() {
    let ax = Rational::new(2, 1);
    let ay = Rational::new(1, 1);
    let bx = Rational::new(1, 1);
    let by = Rational::new(2, 1);
    assert_eq!(compare_angles(ax, ay, bx, by), Ordering::Less);
}

#[test]
fn angle_comparison_opposite_quadrants() {
    let ax = Rational::new(1, 1);
    let ay = Rational::new(1, 1);
    let bx = Rational::new(-1, 1);
    let by = Rational::new(-1, 1);
    assert_eq!(compare_angles(ax, ay, bx, by), Ordering::Less);
}

#[test]
fn angle_comparison_reversed_and_equal() {
    let one = Rational::new(1, 1);
    let two = Rational::new(2, 1);
    let zero = Rational::new(0, 1);
    assert_eq!(compare_angles(zero, one, one, zero), Ordering::Greater);
    assert_eq!(compare_angles(one, one, two, two), Ordering::Equal);
}

#[test]
fn quadrant_axes() {
    let one = Rational::new(1, 1);
    let m = Rational::new(-1, 1);
    let zero = Rational::new(0, 1);
    assert_eq!(quadrant(one, zero), 0);
    assert_eq!(quadrant(zero, one), 1);
    assert_eq!(quadrant(m, zero), 2);
    assert_eq!(quadrant(zero, m), 3);
    assert_eq!(quadrant(one, m), 3);
}

#[test]
fn voronoi_edges_of_two_triangles() {
    let points = vec![Point2::new(0_i64, 0), Point2::new(4, 0), Point2::new(0, 4), Point2::new(4, 4)];
    let triangulation = Triangulation {
        points: points.clone(),
        triangles: vec![Triangle::new(0, 1, 2), Triangle::new(1, 3, 2)],
    };
    let d = voronoi_from_delaunay(&triangulation);
    let got: Vec<(Option<usize>, Option<usize>, (usize, usize))> =
        d.edges.iter().map(|e| (e.start, e.end, e.sites)).collect();
    assert_eq!(
        got,
        vec![
            (Some(0), None, (0, 1)),
            (Some(0), Some(1), (1, 2)),
            (Some(0), None, (0, 2)),
            (Some(1), None, (1, 3)),
            (Some(1), None, (2, 3)),
        ]
    );
}
