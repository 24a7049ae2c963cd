//! Boolean operations on simple polygons: union, intersection, difference.
//!
//! This module provides exact boolean operations using a simplified Martinez-Rueda-Feito
//! algorithm variant adapted for rational arithmetic. Results may contain rational
//! coordinates where polygons intersect.
//!
//! Input coordinates are limited to `[-2^10, 2^10]`: crossing points,
//! edge midpoints and the ray-casting arithmetic on them then stay inside
//! `i128`.
use std::cmp::Ordering;
use vstd::prelude::*;
use vstd::std_specs::cmp::PartialEqSpecImpl;

use crate::algo::quadtree::half_toward_zero;
use crate::ops::{
    crossing_point, edge_end, lemma_vertex_on_boundary, lemma_proper_crossing_denom, param_num, point_in_polygon,
    polygon_area_2x, polygon_containment, polygon_fits, proper_crossing, segment_fits,
    segment_intersection, segment_intersection_spec, seg_denom, seg_numer, shoelace_fits,
    shoelace_sum, shoelace_term, Containment, RationalPoint, SegmentIntersection,
};
use crate::predicates::{abs_le, lemma_abs_mul_le, lemma_orient2d_small_fits};
use crate::rational::{fits_i128, Rational};
use crate::Point2;

verus! {

// ---------------------------------------------------------------------------
// Coordinate limits
// ---------------------------------------------------------------------------

/// Largest input coordinate magnitude accepted by the boolean operations (`2^10`).
pub open spec fn boolean_coord_bound() -> int {
    0x400
}

/// Both coordinates of `p` lie in `[-2^10, 2^10]`.
pub open spec fn point_in_boolean_range(p: Point2<i64>) -> bool {
    abs_le(p.x as int, boolean_coord_bound()) && abs_le(p.y as int, boolean_coord_bound())
}

/// Every vertex of `poly` has both coordinates in `[-2^10, 2^10]`.
pub open spec fn polygon_in_boolean_range(poly: Seq<Point2<i64>>) -> bool {
    forall|i: int| 0 <= i < poly.len() ==> #[trigger] point_in_boolean_range(poly[i])
}

/// Limit on the numerator of a vertex coordinate (`24 * 2^30`).
pub open spec fn vertex_num_bound() -> int {
    0x6_0000_0000
}

/// Limit on the denominator of a vertex coordinate (`2^23`).
pub open spec fn vertex_den_bound() -> int {
    0x80_0000
}

/// A vertex coordinate: positive denominator, both parts within their limits.
pub open spec fn vertex_coord_ok(r: Rational) -> bool {
    0 < r.denom <= vertex_den_bound() && abs_le(r.num as int, vertex_num_bound())
}

// ---------------------------------------------------------------------------
// Vertices
// ---------------------------------------------------------------------------

/// A vertex in a boolean operation result.
///
/// Can be either an original integer point or an intersection point with
/// rational coordinates.
#[derive(Debug, Clone, Copy)]
pub enum Vertex {
    /// Original vertex from input polygon (integer coordinates).
    Original(Point2<i64>),
    /// Intersection point (rational coordinates).
    Intersection(RationalPoint),
}

/// The x-coordinate of `v` as a rational (denominator 1 for an original vertex).
pub open spec fn vertex_x(v: Vertex) -> Rational {
    match v {
        Vertex::Original(p) => Rational { num: p.x as i128, denom: 1 },
        Vertex::Intersection(r) => r.x,
    }
}

/// The y-coordinate of `v` as a rational (denominator 1 for an original vertex).
pub open spec fn vertex_y(v: Vertex) -> Rational {
    match v {
        Vertex::Original(p) => Rational { num: p.y as i128, denom: 1 },
        Vertex::Intersection(r) => r.y,
    }
}

/// Two vertices are equal when their coordinates are the same rationals
/// (numerator and denominator alike).
pub open spec fn same_vertex(a: Vertex, b: Vertex) -> bool {
    vertex_x(a) == vertex_x(b) && vertex_y(a) == vertex_y(b)
}

/// Both coordinates of `v` are vertex coordinates.
pub open spec fn vertex_ok(v: Vertex) -> bool {
    vertex_coord_ok(vertex_x(v)) && vertex_coord_ok(vertex_y(v))
}

/// Structural equality of two rationals.
fn same_rational(a: Rational, b: Rational) -> (r: bool)
    ensures
        r == (a == b),
{
    a.num == b.num && a.denom == b.denom
}

impl Vertex {
    /// Gets the x-coordinate as a rational number.
    pub fn x(&self) -> (r: Rational)
        ensures
            r == vertex_x(*self),
    {
        match self {
            Vertex::Original(p) => Rational::from_int(p.x),
            Vertex::Intersection(r) => r.x,
        }
    }

    /// Gets the y-coordinate as a rational number.
    pub fn y(&self) -> (r: Rational)
        ensures
            r == vertex_y(*self),
    {
        match self {
            Vertex::Original(p) => Rational::from_int(p.y),
            Vertex::Intersection(r) => r.y,
        }
    }

    /// Lexicographic comparison: first by x, then by y.
    #[allow(dead_code)]
    fn cmp_lex(&self, other: &Self) -> (o: Ordering)
        requires
            vertex_ok(*self),
            vertex_ok(*other),
        ensures
            o == (if vertex_x(*self).cross_order(vertex_x(*other)) == Ordering::Equal {
                vertex_y(*self).cross_order(vertex_y(*other))
            } else {
                vertex_x(*self).cross_order(vertex_x(*other))
            }),
    {
        let sx = self.x();
        let ox = other.x();
        proof {
            lemma_vertex_coords_comparable(sx, ox);
            lemma_vertex_coords_comparable(vertex_y(*self), vertex_y(*other));
        }
        match sx.cmp(&ox) {
            Ordering::Equal => self.y().cmp(&other.y()),
            ord => ord,
        }
    }
}

impl PartialEq for Vertex {
    fn eq(&self, other: &Self) -> (r: bool) {
        same_rational(self.x(), other.x()) && same_rational(self.y(), other.y())
    }
}

impl PartialEqSpecImpl for Vertex {
    open spec fn obeys_eq_spec() -> bool {
        true
    }

    open spec fn eq_spec(&self, other: &Self) -> bool {
        same_vertex(*self, *other)
    }
}

impl Eq for Vertex {

}

/// Vertex coordinates can be compared without overflow.
proof fn lemma_vertex_coords_comparable(a: Rational, b: Rational)
    requires
        vertex_coord_ok(a),
        vertex_coord_ok(b),
    ensures
        fits_i128(a.num * b.denom),
        fits_i128(b.num * a.denom),
{
    lemma_abs_mul_le(a.num as int, b.denom as int, vertex_num_bound(), vertex_den_bound());
    lemma_abs_mul_le(b.num as int, a.denom as int, vertex_num_bound(), vertex_den_bound());
}

// ---------------------------------------------------------------------------
// Results
// ---------------------------------------------------------------------------

/// Result of a boolean operation.
///
/// The result may contain zero, one, or multiple polygons. Each polygon
/// is a list of vertices in counter-clockwise order.
#[derive(Debug, Clone)]
pub struct BooleanResult {
    /// The resulting polygon(s), each as a list of vertices in CCW order.
    pub polygons: Vec<Vec<Vertex>>,
}

/// Polygons as sequences of vertices.
pub open spec fn polygons_view(ps: Seq<Vec<Vertex>>) -> Seq<Seq<Vertex>> {
    ps.map_values(|p: Vec<Vertex>| p@)
}

/// The polygons of a result as sequences of vertices.
pub open spec fn result_polygons(r: BooleanResult) -> Seq<Seq<Vertex>> {
    polygons_view(r.polygons@)
}

/// Total number of vertices in the first `k` polygons of `ps`.
pub open spec fn total_vertices(ps: Seq<Seq<Vertex>>, k: int) -> int
    decreases k,
{
    if k <= 0 {
        0
    } else {
        total_vertices(ps, k - 1) + ps[k - 1].len()
    }
}

impl BooleanResult {
    /// Returns true if the result is empty (no polygons).
    pub fn is_empty(&self) -> (r: bool)
        ensures
            r == (result_polygons(*self).len() == 0),
    {
        self.polygons.len() == 0
    }

    /// Returns the total number of vertices across all result polygons.
    pub fn vertex_count(&self) -> (r: usize)
        requires
            total_vertices(result_polygons(*self), result_polygons(*self).len() as int) <= usize::MAX,
        ensures
            r == total_vertices(result_polygons(*self), result_polygons(*self).len() as int),
    {
        let ghost ps = result_polygons(*self);
        let mut total: usize = 0;
        let mut i: usize = 0;
        proof {
            lemma_total_monotone(ps, 0, ps.len() as int);
        }
        while i < self.polygons.len()
            invariant
                ps == result_polygons(*self),
                i <= ps.len(),
                total == total_vertices(ps, i as int),
                total_vertices(ps, ps.len() as int) <= usize::MAX,
            decreases ps.len() - i,
        {
            proof {
                lemma_total_monotone(ps, i + 1, ps.len() as int);
                assert(ps[i as int] == self.polygons@[i as int]@);
            }
            total = total + self.polygons[i].len();
            i = i + 1;
        }
        total
    }
}

/// Totals over more polygons are no smaller.
proof fn lemma_total_monotone(ps: Seq<Seq<Vertex>>, j: int, k: int)
    requires
        0 <= j <= k,
    ensures
        total_vertices(ps, j) <= total_vertices(ps, k),
    decreases k - j,
{
    if j < k {
        lemma_total_monotone(ps, j, k - 1);
    }
}

/// The vertices of `poly`, each as an original vertex.
pub open spec fn original_vertices(poly: Seq<Point2<i64>>) -> Seq<Vertex> {
    poly.map_values(|p: Point2<i64>| Vertex::Original(p))
}

/// The vertices of `poly` as original vertices, in order.
fn to_vertices(poly: &[Point2<i64>]) -> (r: Vec<Vertex>)
    ensures
        r@ == original_vertices(poly@),
{
    let mut r: Vec<Vertex> = Vec::new();
    let mut i: usize = 0;
    while i < poly.len()
        invariant
            i <= poly@.len(),
            r@ == original_vertices(poly@.subrange(0, i as int)),
        decreases poly@.len() - i,
    {
        r.push(Vertex::Original(poly[i]));
        i = i + 1;
        proof {
            assert(poly@.subrange(0, i as int) == poly@.subrange(0, i - 1).push(poly@[i - 1]));
        }
    }
    proof {
        assert(poly@.subrange(0, poly@.len() as int) == poly@);
    }
    r
}

// ---------------------------------------------------------------------------
// Whole-polygon tests
// ---------------------------------------------------------------------------

/// Partial shoelace sums of a polygon in range stay small.
proof fn lemma_shoelace_small(poly: Seq<Point2<i64>>, k: int)
    requires
        polygon_in_boolean_range(poly),
        0 <= k <= poly.len(),
    ensures
        abs_le(shoelace_sum(poly, k), k * 0x20_0000),
    decreases k,
{
    if k > 0 {
        lemma_shoelace_small(poly, k - 1);
        let n = poly.len() as int;
        let p = poly[k - 1];
        let q = poly[k % n];
        assert(point_in_boolean_range(p));
        assert(point_in_boolean_range(q));
        lemma_abs_mul_le(p.x as int, q.y as int, 0x400, 0x400);
        lemma_abs_mul_le(q.x as int, p.y as int, 0x400, 0x400);
    }
}

/// A polygon in range has a shoelace sum that cannot overflow.
proof fn lemma_shoelace_fits(poly: Seq<Point2<i64>>)
    requires
        polygon_in_boolean_range(poly),
        poly.len() <= usize::MAX,
    ensures
        shoelace_fits(poly),
{
    assert forall|k: int| 0 <= k < poly.len() implies {
        &&& fits_i128(#[trigger] shoelace_sum(poly, k + 1))
        &&& fits_i128(poly[k].x * poly[(k + 1) % (poly.len() as int)].y)
        &&& fits_i128(poly[(k + 1) % (poly.len() as int)].x * poly[k].y)
        &&& fits_i128(shoelace_term(poly[k], poly[(k + 1) % (poly.len() as int)]))
    } by {
        lemma_shoelace_small(poly, k + 1);
        assert(abs_le(shoelace_sum(poly, k + 1), (k + 1) * 0x20_0000)) by {
        }
        assert((k + 1) * 0x20_0000 <= 0x1_0000_0000_0000_0000 * 0x20_0000) by (nonlinear_arith)
            requires
                k + 1 <= 0x1_0000_0000_0000_0000,
        ;
        let q = poly[(k + 1) % (poly.len() as int)];
        assert(point_in_boolean_range(poly[k]));
        assert(point_in_boolean_range(q));
        lemma_abs_mul_le(poly[k].x as int, q.y as int, 0x400, 0x400);
        lemma_abs_mul_le(q.x as int, poly[k].y as int, 0x400, 0x400);
    }
}

/// Any point in range can be tested against a polygon in range.
proof fn lemma_polygon_fits(p: Point2<i64>, poly: Seq<Point2<i64>>)
    requires
        polygon_in_boolean_range(poly),
        abs_le(p.x as int, 0x1_0000),
        abs_le(p.y as int, 0x1_0000),
    ensures
        polygon_fits(p, poly),
{
    assert forall|i: int| 0 <= i < poly.len() implies #[trigger] crate::predicates::orient2d_fits(
        poly[i],
        edge_end(poly, i),
        p,
    ) by {
        let q = edge_end(poly, i);
        let j = (i + 1) % (poly.len() as int);
        assert(point_in_boolean_range(poly[i]));
        assert(point_in_boolean_range(poly[j]));
        lemma_orient2d_small_fits(poly[i], q, p);
    }
}

/// `polygon` in counter-clockwise order: reversed when its signed area is negative.
pub open spec fn ccw_order(polygon: Seq<Point2<i64>>) -> Seq<Point2<i64>> {
    if shoelace_sum(polygon, polygon.len() as int) < 0 {
        polygon.reverse()
    } else {
        polygon
    }
}

/// Ensures polygon is in counter-clockwise order.
pub fn ensure_ccw(polygon: &[Point2<i64>]) -> (r: Vec<Point2<i64>>)
    requires
        polygon_in_boolean_range(polygon@),
    ensures
        r@ == ccw_order(polygon@),
        shoelace_sum(r@, r@.len() as int) >= 0,
        polygon_in_boolean_range(r@),
{
    let n = polygon.len();
    proof {
        lemma_shoelace_fits(polygon@);
    }
    let area = polygon_area_2x(polygon);
    let mut r: Vec<Point2<i64>> = Vec::new();
    if area < 0 {
        // Clockwise, reverse to CCW
        let mut i: usize = n;
        while i > 0
            invariant
                n == polygon@.len(),
                i <= n,
                r@.len() == n - i,
                forall|k: int| 0 <= k < r@.len() ==> #[trigger] r@[k] == polygon@[n - 1 - k],
            decreases i,
        {
            i = i - 1;
            r.push(polygon[i]);
        }
        proof {
            assert(r@ =~= polygon@.reverse());
        }
    } else {
        let mut i: usize = 0;
        while i < n
            invariant
                n == polygon@.len(),
                i <= n,
                r@ == polygon@.subrange(0, i as int),
            decreases n - i,
        {
            r.push(polygon[i]);
            i = i + 1;
            proof {
                assert(polygon@.subrange(0, i as int) == polygon@.subrange(0, i - 1).push(polygon@[i - 1]));
            }
        }
        proof {
            assert(polygon@.subrange(0, n as int) == polygon@);
        }
    }
    proof {
        crate::ops::lemma_reversed_area(polygon@);
        assert forall|k: int| 0 <= k < r@.len() implies #[trigger] point_in_boolean_range(r@[k]) by {
            if area < 0 {
                assert(r@[k] == polygon@[n - 1 - k]);
            } else {
                assert(r@[k] == polygon@[k]);
            }
        }
    }
    r
}

/// The first index at or after `k` where `b` holds `p`, or -1.
pub open spec fn first_index_from(b: Seq<Point2<i64>>, p: Point2<i64>, k: int) -> int
    decreases b.len() - k,
{
    if k < 0 || k >= b.len() {
        -1
    } else if b[k] == p {
        k
    } else {
        first_index_from(b, p, k + 1)
    }
}

/// `b` read cyclically from `start` is `a`.
pub open spec fn rotation_from(a: Seq<Point2<i64>>, b: Seq<Point2<i64>>, start: int) -> bool {
    forall|i: int| 0 <= i < a.len() ==> #[trigger] a[i] == b[(start + i) % (b.len() as int)]
}

/// `a` and `b` list the same vertices in the same cyclic order, with `b`
/// read from the first occurrence of `a`'s first vertex.
pub open spec fn same_polygon(a: Seq<Point2<i64>>, b: Seq<Point2<i64>>) -> bool {
    &&& a.len() == b.len()
    &&& a.len() == 0 || (first_index_from(b, a[0], 0) >= 0 && rotation_from(
        a,
        b,
        first_index_from(b, a[0], 0),
    ))
}

/// Checks if two polygons have the same vertices (possibly rotated).
fn are_polygons_identical(a: &[Point2<i64>], b: &[Point2<i64>]) -> (r: bool)
    ensures
        r == same_polygon(a@, b@),
{
    if a.len() != b.len() {
        return false;
    }
    let n = a.len();
    if n == 0 {
        return true;
    }
    // Find starting point in b that matches a[0]
    let first = a[0];
    let mut start: usize = 0;
    while start < n
        invariant
            n == a@.len(),
            n == b@.len(),
            first == a@[0],
            start <= n,
            first_index_from(b@, first, 0) == first_index_from(b@, first, start as int),
        ensures
            start <= n,
            first_index_from(b@, first, 0) == first_index_from(b@, first, start as int),
            start < n ==> b@[start as int] == first,
        decreases n - start,
    {
        if b[start].x == first.x && b[start].y == first.y {
            break;
        }
        start = start + 1;
    }
    if start == n {
        return false;
    }
    proof {
        assert(first_index_from(b@, first, 0) == start);
    }
    // Check if all vertices match in order
    let mut i: usize = 0;
    while i < n
        invariant
            n == a@.len(),
            n == b@.len(),
            start < n,
            first_index_from(b@, a@[0], 0) == start,
            i <= n,
            forall|k: int| 0 <= k < i ==> #[trigger] a@[k] == b@[(start + k) % (n as int)],
        decreases n - i,
    {
        let j = if i < n - start {
            start + i
        } else {
            i - (n - start)
        };
        proof {
            if i < n - start {
                assert((start + i) % (n as int) == start + i) by {
                    vstd::arithmetic::div_mod::lemma_small_mod((start + i) as nat, n as nat);
                }
            } else {
                assert((start + i) % (n as int) == i - (n - start)) by {
                    vstd::arithmetic::div_mod::lemma_mod_add_multiples_vanish((start + i - n) as int, n as int);
                    vstd::arithmetic::div_mod::lemma_small_mod((start + i - n) as nat, n as nat);
                }
            }
        }
        if a[i].x != b[j].x || a[i].y != b[j].y {
            proof {
                assert(a@[i as int] != b@[(start + i) % (n as int)]);
                assert(!rotation_from(a@, b@, start as int));
            }
            return false;
        }
        i = i + 1;
    }
    true
}

/// The midpoint of integer points `p1` and `p2`, each coordinate halved toward zero.
pub open spec fn integer_midpoint(p1: Point2<i64>, p2: Point2<i64>) -> Point2<i64> {
    Point2 { x: half_toward_zero(p1.x + p2.x) as i64, y: half_toward_zero(p1.y + p2.y) as i64 }
}

/// The containment in `outer` of the first vertex of `inner` from index `k`
/// on that is not on `outer`'s boundary (`OnBoundary` if there is none).
pub open spec fn vertex_scan(inner: Seq<Point2<i64>>, outer: Seq<Point2<i64>>, k: int) -> Containment
    decreases inner.len() - k,
{
    if k < 0 || k >= inner.len() {
        Containment::OnBoundary
    } else {
        match polygon_containment(inner[k], outer) {
            Containment::OnBoundary => vertex_scan(inner, outer, k + 1),
            c => c,
        }
    }
}

/// The containment in `outer` of the first edge midpoint of `inner` from
/// edge `k` on that is not on `outer`'s boundary (`OnBoundary` if there is none).
pub open spec fn midpoint_scan(inner: Seq<Point2<i64>>, outer: Seq<Point2<i64>>, k: int) -> Containment
    decreases inner.len() - k,
{
    if k < 0 || k >= inner.len() {
        Containment::OnBoundary
    } else {
        match polygon_containment(integer_midpoint(inner[k], edge_end(inner, k)), outer) {
            Containment::OnBoundary => midpoint_scan(inner, outer, k + 1),
            c => c,
        }
    }
}

/// Where `inner` lies relative to `outer`: decided by its first vertex off
/// `outer`'s boundary, else by its first such edge midpoint, else `OnBoundary`.
pub open spec fn polygon_placement(inner: Seq<Point2<i64>>, outer: Seq<Point2<i64>>) -> Containment {
    match vertex_scan(inner, outer, 0) {
        Containment::OnBoundary => midpoint_scan(inner, outer, 0),
        c => c,
    }
}

/// Classifies whether one polygon is inside, outside, or on the boundary of another.
fn classify_polygon_containment(inner: &[Point2<i64>], outer: &[Point2<i64>]) -> (r: Containment)
    requires
        polygon_in_boolean_range(inner@),
        polygon_in_boolean_range(outer@),
    ensures
        r == polygon_placement(inner@, outer@),
{
    // Try each vertex - if any is inside, the polygon is inside
    // If any is outside, the polygon is outside
    // If all are on boundary, check midpoint of an edge
    let n = inner.len();
    let mut i: usize = 0;
    while i < n
        invariant
            n == inner@.len(),
            i <= n,
            polygon_in_boolean_range(inner@),
            polygon_in_boolean_range(outer@),
            vertex_scan(inner@, outer@, 0) == vertex_scan(inner@, outer@, i as int),
        decreases n - i,
    {
        let p = inner[i];
        proof {
            assert(point_in_boolean_range(inner@[i as int]));
            lemma_polygon_fits(p, outer@);
        }
        match point_in_polygon(p, outer) {
            Containment::Inside => {
                return Containment::Inside;
            },
            Containment::Outside => {
                return Containment::Outside;
            },
            Containment::OnBoundary => {},
        }
        i = i + 1;
    }
    // All vertices are on boundary - check edge midpoints
    let mut i: usize = 0;
    while i < n
        invariant
            n == inner@.len(),
            i <= n,
            polygon_in_boolean_range(inner@),
            polygon_in_boolean_range(outer@),
            vertex_scan(inner@, outer@, 0) == Containment::OnBoundary,
            midpoint_scan(inner@, outer@, 0) == midpoint_scan(inner@, outer@, i as int),
        decreases n - i,
    {
        let p1 = inner[i];
        let p2 = inner[(i + 1) % n];
        proof {
            assert(point_in_boolean_range(inner@[i as int]));
            assert(point_in_boolean_range(inner@[(i + 1) % (n as int)]));
        }
        let mid = Point2::new((p1.x + p2.x) / 2, (p1.y + p2.y) / 2);
        proof {
            assert(mid == integer_midpoint(inner@[i as int], edge_end(inner@, i as int)));
            lemma_polygon_fits(mid, outer@);
        }
        match point_in_polygon(mid, outer) {
            Containment::Inside => {
                return Containment::Inside;
            },
            Containment::Outside => {
                return Containment::Outside;
            },
            Containment::OnBoundary => {},
        }
        i = i + 1;
    }
    // Everything is on boundary - polygons are identical or share boundary
    Containment::OnBoundary
}

// ---------------------------------------------------------------------------
// Operations
// ---------------------------------------------------------------------------

/// The three boolean operations.
#[derive(Debug, Clone, Copy)]
pub enum BooleanOp {
    Union,
    Intersection,
    Difference,
}

/// The result when fewer than three vertices make one of the polygons
/// degenerate: a union keeps the other polygon (counter-clockwise), an intersection is empty,
/// a difference keeps `a` when `a` itself is not degenerate.
pub open spec fn degenerate_polygons(a: Seq<Point2<i64>>, b: Seq<Point2<i64>>, op: BooleanOp) -> Seq<
    Seq<Vertex>,
> {
    match op {
        BooleanOp::Union => if a.len() >= 3 {
            seq![original_vertices(ccw_order(a))]
        } else if b.len() >= 3 {
            seq![original_vertices(ccw_order(b))]
        } else {
            Seq::empty()
        },
        BooleanOp::Intersection => Seq::empty(),
        BooleanOp::Difference => if a.len() >= 3 {
            seq![original_vertices(ccw_order(a))]
        } else {
            Seq::empty()
        },
    }
}

/// The result when no edges of `a` and `b` cross: identical polygons give
/// `a` (or nothing for a difference); otherwise the answer follows from
/// whether one polygon lies inside the other.
pub open spec fn separate_polygons(a: Seq<Point2<i64>>, b: Seq<Point2<i64>>, op: BooleanOp) -> Seq<
    Seq<Vertex>,
> {
    if same_polygon(a, b) {
        match op {
            BooleanOp::Difference => Seq::empty(),
            _ => seq![original_vertices(a)],
        }
    } else {
        let a_in_b = polygon_placement(a, b) == Containment::Inside;
        let b_in_a = polygon_placement(b, a) == Containment::Inside;
        match op {
            BooleanOp::Union => if a_in_b {
                seq![original_vertices(b)]
            } else if b_in_a {
                seq![original_vertices(a)]
            } else {
                seq![original_vertices(a), original_vertices(b)]
            },
            BooleanOp::Intersection => if a_in_b {
                seq![original_vertices(a)]
            } else if b_in_a {
                seq![original_vertices(b)]
            } else {
                Seq::empty()
            },
            BooleanOp::Difference => if a_in_b {
                Seq::empty()
            } else {
                seq![original_vertices(a)]
            },
        }
    }
}

/// A result holding the listed polygons, each as original vertices.
fn result_of(first: Option<&[Point2<i64>]>, second: Option<&[Point2<i64>]>) -> (r: BooleanResult)
    ensures
        result_polygons(r) == (match (first, second) {
            (Some(p), Some(q)) => seq![original_vertices(p@), original_vertices(q@)],
            (Some(p), None) => seq![original_vertices(p@)],
            (None, Some(q)) => seq![original_vertices(q@)],
            (None, None) => Seq::<Seq<Vertex>>::empty(),
        }),
{
    let mut polygons: Vec<Vec<Vertex>> = Vec::new();
    if let Some(p) = first {
        polygons.push(to_vertices(p));
    }
    if let Some(q) = second {
        polygons.push(to_vertices(q));
    }
    let r = BooleanResult { polygons };
    proof {
        assert(result_polygons(r) =~= (match (first, second) {
            (Some(p), Some(q)) => seq![original_vertices(p@), original_vertices(q@)],
            (Some(p), None) => seq![original_vertices(p@)],
            (None, Some(q)) => seq![original_vertices(q@)],
            (None, None) => Seq::<Seq<Vertex>>::empty(),
        }));
    }
    r
}

/// Handles the case where polygons don't intersect (or have only boundary contact).
fn handle_no_intersection(a: &[Point2<i64>], b: &[Point2<i64>], op: BooleanOp) -> (r: BooleanResult)
    requires
        polygon_in_boolean_range(a@),
        polygon_in_boolean_range(b@),
    ensures
        result_polygons(r) == separate_polygons(a@, b@, op),
{
    // Check if polygons are identical (same vertices)
    if are_polygons_identical(a, b) {
        return match op {
            BooleanOp::Union | BooleanOp::Intersection => result_of(Some(a), None),
            BooleanOp::Difference => result_of(None, None),
        };
    }
    // Check if A is inside B or B is inside A using a point that's not on B's boundary
    let a_containment = classify_polygon_containment(a, b);
    let b_containment = classify_polygon_containment(b, a);
    let a_in_b = matches!(a_containment, Containment::Inside);
    let b_in_a = matches!(b_containment, Containment::Inside);
    match op {
        BooleanOp::Union => {
            if a_in_b {
                // A is inside B, union is B
                result_of(Some(b), None)
            } else if b_in_a {
                // B is inside A, union is A
                result_of(Some(a), None)
            } else {
                // Disjoint, union is both polygons
                result_of(Some(a), Some(b))
            }
        },
        BooleanOp::Intersection => {
            if a_in_b {
                // A is inside B, intersection is A
                result_of(Some(a), None)
            } else if b_in_a {
                // B is inside A, intersection is B
                result_of(Some(b), None)
            } else {
                // Disjoint, no intersection
                result_of(None, None)
            }
        },
        BooleanOp::Difference => {
            if a_in_b {
                // A is inside B, difference is empty
                result_of(None, None)
            } else {
                // B inside A (the hole is not represented) or disjoint: A
                result_of(Some(a), None)
            }
        },
    }
}

// ---------------------------------------------------------------------------
// Edge crossings
// ---------------------------------------------------------------------------

/// For edges in range, `segment_intersection` cannot overflow, and a point
/// it reports has vertex coordinates.
proof fn lemma_edge_crossing_bounds(a1: Point2<i64>, a2: Point2<i64>, b1: Point2<i64>, b2: Point2<i64>)
    requires
        point_in_boolean_range(a1),
        point_in_boolean_range(a2),
        point_in_boolean_range(b1),
        point_in_boolean_range(b2),
    ensures
        segment_fits(a1, a2, b1, b2),
        segment_intersection_spec(a1, a2, b1, b2) is Point ==> {
            let p = segment_intersection_spec(a1, a2, b1, b2)->Point_0;
            vertex_coord_ok(p.x) && vertex_coord_ok(p.y)
        },
{
    lemma_orient2d_small_fits(a1, a2, b1);
    lemma_orient2d_small_fits(a1, a2, b2);
    lemma_orient2d_small_fits(b1, b2, a1);
    lemma_orient2d_small_fits(b1, b2, a2);
    let m = 0x800int;
    let dax = a2.x - a1.x;
    let day = a2.y - a1.y;
    let dbx = b2.x - b1.x;
    let dby = b2.y - b1.y;
    let ex = b1.x - a1.x;
    let ey = b1.y - a1.y;
    lemma_abs_mul_le(dax, dby, m, m);
    lemma_abs_mul_le(day, dbx, m, m);
    lemma_abs_mul_le(ex, dby, m, m);
    lemma_abs_mul_le(ey, dbx, m, m);
    let denom = seg_denom(a1, a2, b1, b2);
    let numer = seg_numer(a1, a2, b1, b2);
    let d2 = 0x80_0000int;
    assert(abs_le(denom, d2));
    assert(abs_le(numer, d2));
    lemma_abs_mul_le(a1.x as int, denom, 0x400, d2);
    lemma_abs_mul_le(a1.y as int, denom, 0x400, d2);
    lemma_abs_mul_le(numer, dax, d2, m);
    lemma_abs_mul_le(numer, day, d2, m);
    if proper_crossing(a1, a2, b1, b2) {
        lemma_proper_crossing_denom(a1, a2, b1, b2);
        assert(abs_le(param_num(a1.x as int, dax, numer, denom), vertex_num_bound()));
        assert(abs_le(param_num(a1.y as int, day, numer, denom), vertex_num_bound()));
    }
}

/// An intersection between two edges.
#[derive(Debug, Clone, Copy)]
pub struct Intersection {
    /// The intersection point.
    pub point: RationalPoint,
    /// Index of edge in polygon A.
    pub edge_a: usize,
    /// Index of edge in polygon B.
    pub edge_b: usize,
}

/// The rational point `pt` is (structurally) one of the integer points `p1`, `p2`.
pub open spec fn is_endpoint_of(pt: RationalPoint, p1: Point2<i64>, p2: Point2<i64>) -> bool {
    (pt.x == Rational { num: p1.x as i128, denom: 1 } && pt.y == Rational { num: p1.y as i128, denom: 1 })
        || (pt.x == Rational { num: p2.x as i128, denom: 1 } && pt.y == Rational {
        num: p2.y as i128,
        denom: 1,
    })
}

/// The crossing recorded for edge `i` of `a` and edge `j` of `b`: their
/// meeting point, unless they meet in a single point that is an endpoint of both.
pub open spec fn edge_crossing(a: Seq<Point2<i64>>, b: Seq<Point2<i64>>, i: int, j: int) -> Seq<Intersection> {
    match segment_intersection_spec(a[i], edge_end(a, i), b[j], edge_end(b, j)) {
        SegmentIntersection::Point(pt) => if !is_endpoint_of(pt, a[i], edge_end(a, i)) || !is_endpoint_of(
            pt,
            b[j],
            edge_end(b, j),
        ) {
            seq![Intersection { point: pt, edge_a: i as usize, edge_b: j as usize }]
        } else {
            Seq::empty()
        },
        _ => Seq::empty(),
    }
}

/// The crossings of edge `i` of `a` with the first `j` edges of `b`.
pub open spec fn crossings_of_edge(a: Seq<Point2<i64>>, b: Seq<Point2<i64>>, i: int, j: int) -> Seq<Intersection>
    decreases j,
{
    if j <= 0 {
        Seq::empty()
    } else {
        crossings_of_edge(a, b, i, j - 1) + edge_crossing(a, b, i, j - 1)
    }
}

/// The crossings of the first `i` edges of `a` with all edges of `b`, by edge of `a`, then of `b`.
pub open spec fn all_crossings(a: Seq<Point2<i64>>, b: Seq<Point2<i64>>, i: int) -> Seq<Intersection>
    decreases i,
{
    if i <= 0 {
        Seq::empty()
    } else {
        all_crossings(a, b, i - 1) + crossings_of_edge(a, b, i - 1, b.len() as int)
    }
}

/// The crossing names edges of polygons with `na` and `nb` edges and has vertex coordinates.
pub open spec fn crossing_ok(na: nat, nb: nat, x: Intersection) -> bool {
    x.edge_a < na && x.edge_b < nb && point_ok(x.point)
}

/// Every crossing names edges of `a` and `b` and has vertex coordinates.
pub open spec fn crossings_ok(a: Seq<Point2<i64>>, b: Seq<Point2<i64>>, s: Seq<Intersection>) -> bool {
    forall|k: int| 0 <= k < s.len() ==> #[trigger] crossing_ok(a.len(), b.len(), s[k])
}

/// Checks if a rational point equals an integer point.
fn is_endpoint(pt: &RationalPoint, p1: Point2<i64>, p2: Point2<i64>) -> (r: bool)
    ensures
        r == is_endpoint_of(*pt, p1, p2),
{
    let r1 = RationalPoint::from_ints(p1.x, p1.y);
    let r2 = RationalPoint::from_ints(p2.x, p2.y);
    (same_rational(pt.x, r1.x) && same_rational(pt.y, r1.y)) || (same_rational(pt.x, r2.x)
        && same_rational(pt.y, r2.y))
}

/// Finds all intersection points between edges of polygons A and B.
pub fn find_all_intersections(a: &[Point2<i64>], b: &[Point2<i64>]) -> (r: Vec<Intersection>)
    requires
        polygon_in_boolean_range(a@),
        polygon_in_boolean_range(b@),
    ensures
        r@ == all_crossings(a@, b@, a@.len() as int),
        crossings_ok(a@, b@, r@),
{
    let mut intersections: Vec<Intersection> = Vec::new();
    let na = a.len();
    let nb = b.len();
    let mut i: usize = 0;
    while i < na
        invariant
            na == a@.len(),
            nb == b@.len(),
            i <= na,
            polygon_in_boolean_range(a@),
            polygon_in_boolean_range(b@),
            intersections@ == all_crossings(a@, b@, i as int),
            crossings_ok(a@, b@, intersections@),
        decreases na - i,
    {
        let a1 = a[i];
        let a2 = a[(i + 1) % na];
        let mut j: usize = 0;
        while j < nb
            invariant
                na == a@.len(),
                nb == b@.len(),
                i < na,
                j <= nb,
                a1 == a@[i as int],
                a2 == edge_end(a@, i as int),
                polygon_in_boolean_range(a@),
                polygon_in_boolean_range(b@),
                intersections@ == all_crossings(a@, b@, i as int) + crossings_of_edge(a@, b@, i as int, j as int),
                crossings_ok(a@, b@, intersections@),
            decreases nb - j,
        {
            let b1 = b[j];
            let b2 = b[(j + 1) % nb];
            proof {
                assert(point_in_boolean_range(a@[i as int]));
                assert(point_in_boolean_range(a@[(i + 1) % (na as int)]));
                assert(point_in_boolean_range(b@[j as int]));
                assert(point_in_boolean_range(b@[(j + 1) % (nb as int)]));
                lemma_edge_crossing_bounds(a1, a2, b1, b2);
            }
            let ghost before = intersections@;
            match segment_intersection(a1, a2, b1, b2) {
                SegmentIntersection::Point(pt) => {
                    // Skip if the intersection is at endpoints (will be handled as vertices)
                    let is_a_endpoint = is_endpoint(&pt, a1, a2);
                    let is_b_endpoint = is_endpoint(&pt, b1, b2);
                    // Only add if it's a proper intersection in the interior
                    if !is_a_endpoint || !is_b_endpoint {
                        intersections.push(Intersection { point: pt, edge_a: i, edge_b: j });
                    }
                },
                SegmentIntersection::Overlapping => {
                    // Overlapping edges add no crossing here
                },
                _ => {},
            }
            proof {
                assert(intersections@ == before + edge_crossing(a@, b@, i as int, j as int));
                assert(all_crossings(a@, b@, i as int) + crossings_of_edge(a@, b@, i as int, j + 1) =~= before
                    + edge_crossing(a@, b@, i as int, j as int));
                assert forall|k: int| 0 <= k < intersections@.len() implies #[trigger] crossing_ok(
                    a@.len(),
                    b@.len(),
                    intersections@[k],
                ) by {
                    if k < before.len() {
                        assert(intersections@[k] == before[k]);
                        assert(crossing_ok(a@.len(), b@.len(), before[k]));
                    } else {
                        let res = segment_intersection_spec(a1, a2, b1, b2);
                        assert(edge_crossing(a@, b@, i as int, j as int).len() > 0);
                        assert(res is Point);
                        assert(intersections@[k].point == res->Point_0);
                    }
                }
            }
            j = j + 1;
        }
        i = i + 1;
    }
    intersections
}

// ---------------------------------------------------------------------------
// Split edges
// ---------------------------------------------------------------------------

/// Which polygon an edge belongs to.
#[derive(Debug, Clone, Copy, PartialEq, Eq, Structural)]
enum PolygonId {
    A,
    B,
}

/// Classification of an edge relative to the other polygon.
#[derive(Debug, Clone, Copy, PartialEq, Eq, Structural)]
#[allow(dead_code)]
enum EdgeClass {
    /// Edge is outside the other polygon.
    Outside,
    /// Edge is inside the other polygon.
    Inside,
    /// Edge overlaps with an edge of the other polygon (same direction).
    SharedSame,
    /// Edge overlaps with an edge of the other polygon (opposite direction).
    SharedOpposite,
}

/// An edge with its start and end vertices.
#[derive(Debug, Clone, Copy)]
struct Edge {
    start: Vertex,
    end: Vertex,
    polygon: PolygonId,
    classification: Option<EdgeClass>,
}

/// An unclassified edge.
spec fn edge_of(start: Vertex, end: Vertex, polygon: PolygonId) -> Edge {
    Edge { start, end, polygon, classification: None }
}

impl Edge {
    fn new(start: Vertex, end: Vertex, polygon: PolygonId) -> (r: Self)
        ensures
            r == edge_of(start, end, polygon),
    {
        Self { start, end, polygon, classification: None }
    }
}

/// `a` comes before `b` on an axis walked forward (increasing) or backward.
spec fn coord_before(a: Rational, b: Rational, forward: bool) -> bool {
    if forward {
        a.value_lt(b)
    } else {
        b.value_lt(a)
    }
}

/// The directions in which the edge `p1`-`p2` walks the x and y axes
/// (forward when the coordinate does not decrease).
pub open spec fn edge_dir(p1: Point2<i64>, p2: Point2<i64>) -> (bool, bool) {
    (p1.x <= p2.x, p1.y <= p2.y)
}

/// `p` comes strictly after `q` along an edge walked in direction `dir`: by
/// x in the edge's x direction, then by y in its y direction (by value), so
/// that points of the edge come in order of distance from its start.
spec fn point_after(p: RationalPoint, q: RationalPoint, dir: (bool, bool)) -> bool {
    coord_before(q.x, p.x, dir.0) || (q.x.same_value(p.x) && coord_before(q.y, p.y, dir.1))
}

/// `x` inserted into `s` after every entry that does not sort strictly after it.
spec fn insert_sorted(s: Seq<RationalPoint>, x: RationalPoint, dir: (bool, bool)) -> Seq<RationalPoint>
    decreases s.len(),
{
    if s.len() == 0 {
        seq![x]
    } else if point_after(s.last(), x, dir) {
        insert_sorted(s.drop_last(), x, dir).push(s.last())
    } else {
        s.push(x)
    }
}

/// `s` stably sorted by position along the edge (x, then y).
spec fn sorted_points(s: Seq<RationalPoint>, dir: (bool, bool)) -> Seq<RationalPoint>
    decreases s.len(),
{
    if s.len() == 0 {
        s
    } else {
        insert_sorted(sorted_points(s.drop_last(), dir), s.last(), dir)
    }
}

/// The crossing points recorded on edge `i` of polygon `a` (when `on_a`) or `b`, in order.
spec fn splits_of(isecs: Seq<Intersection>, i: int, on_a: bool) -> Seq<RationalPoint>
    decreases isecs.len(),
{
    if isecs.len() == 0 {
        Seq::empty()
    } else {
        let rest = splits_of(isecs.drop_last(), i, on_a);
        let x = isecs.last();
        if (if on_a {
            x.edge_a
        } else {
            x.edge_b
        }) == i {
            rest.push(x.point)
        } else {
            rest
        }
    }
}

/// The pieces from `prev` through each split point to `end`, skipping
/// pieces whose ends are equal.
spec fn pieces_from(prev: Vertex, splits: Seq<RationalPoint>, end: Vertex, polygon: PolygonId) -> Seq<Edge>
    decreases splits.len(),
{
    if splits.len() == 0 {
        if same_vertex(prev, end) {
            Seq::empty()
        } else {
            seq![edge_of(prev, end, polygon)]
        }
    } else {
        let curr = Vertex::Intersection(splits[0]);
        (if same_vertex(prev, curr) {
            Seq::empty()
        } else {
            seq![edge_of(prev, curr, polygon)]
        }) + pieces_from(curr, splits.drop_first(), end, polygon)
    }
}

/// Edge `p1`-`p2` split at the given points: the whole edge when there are
/// none, else the pieces between the sorted split points.
spec fn split_edge(p1: Point2<i64>, p2: Point2<i64>, splits: Seq<RationalPoint>, polygon: PolygonId) -> Seq<Edge> {
    if splits.len() == 0 {
        seq![edge_of(Vertex::Original(p1), Vertex::Original(p2), polygon)]
    } else {
        pieces_from(Vertex::Original(p1), sorted_points(splits, edge_dir(p1, p2)), Vertex::Original(p2), polygon)
    }
}

/// The split edges of the first `i` edges of `poly`.
spec fn split_polygon(poly: Seq<Point2<i64>>, isecs: Seq<Intersection>, polygon: PolygonId, i: int) -> Seq<Edge>
    decreases i,
{
    if i <= 0 {
        Seq::empty()
    } else {
        split_polygon(poly, isecs, polygon, i - 1) + split_edge(
            poly[i - 1],
            edge_end(poly, i - 1),
            splits_of(isecs, i - 1, polygon == PolygonId::A),
            polygon,
        )
    }
}

/// All edges of `a` and then of `b`, split at the recorded crossings.
spec fn split_edges(a: Seq<Point2<i64>>, b: Seq<Point2<i64>>, isecs: Seq<Intersection>) -> Seq<Edge> {
    split_polygon(a, isecs, PolygonId::A, a.len() as int) + split_polygon(b, isecs, PolygonId::B, b.len() as int)
}

/// Both ends of every edge have vertex coordinates.
spec fn edges_ok(edges: Seq<Edge>) -> bool {
    forall|k: int| 0 <= k < edges.len() ==> vertex_ok(#[trigger] edges[k].start) && vertex_ok(edges[k].end)
}

/// Both coordinates of `p` are vertex coordinates.
pub open spec fn point_ok(p: RationalPoint) -> bool {
    vertex_coord_ok(p.x) && vertex_coord_ok(p.y)
}

/// Every point has vertex coordinates.
spec fn points_ok(s: Seq<RationalPoint>) -> bool {
    forall|k: int| 0 <= k < s.len() ==> #[trigger] point_ok(s[k])
}

/// An original vertex in range has vertex coordinates.
proof fn lemma_original_ok(p: Point2<i64>)
    requires
        point_in_boolean_range(p),
    ensures
        vertex_ok(Vertex::Original(p)),
{
}

/// `start` is an original vertex in range, as a rational point.
spec fn origin_ok(start: RationalPoint) -> bool {
    &&& start.x.denom == 1
    &&& start.y.denom == 1
    &&& abs_le(start.x.num as int, boolean_coord_bound())
    &&& abs_le(start.y.num as int, boolean_coord_bound())
}

/// The first `k` entries of `s`.
spec fn prefix(s: Seq<RationalPoint>, k: usize) -> Seq<RationalPoint> {
    s.subrange(0, k as int)
}

/// One step of the insertion sort: inserting the next split point where
/// the backward scan stopped extends the sorted prefix.
proof fn lemma_sort_step(splits: Seq<RationalPoint>, sorted: Seq<RationalPoint>, k: usize, j: usize, dir: (bool, bool))
    requires
        k < splits.len(),
        splits.len() <= usize::MAX,
        points_ok(splits),
        sorted == sorted_points(prefix(splits, k), dir),
        points_ok(sorted),
        j <= sorted.len(),
        forall|m: int| j <= m < sorted.len() ==> point_after(#[trigger] sorted[m], splits[k as int], dir),
        j == 0 || !point_after(sorted[j - 1], splits[k as int], dir),
    ensures
        sorted.insert(j as int, splits[k as int]) == sorted_points(prefix(splits, (k + 1) as usize), dir),
        points_ok(sorted.insert(j as int, splits[k as int])),
{
    let x = splits[k as int];
    assert(point_ok(x));
    lemma_insert_sorted(sorted, x, j as int, dir);
    lemma_insert_sorted_points(sorted, x, dir);
    let pre = prefix(splits, (k + 1) as usize);
    assert(pre.drop_last() =~= prefix(splits, k));
    assert(pre.last() == x);
}

/// Order of two split points along an edge from `start` walked in
/// direction `dir`: compares their offsets from `start` in x, then in y,
/// each in the edge's direction on that axis.
fn split_order(s1: &RationalPoint, s2: &RationalPoint, start: &RationalPoint, dir: (bool, bool)) -> (o: Ordering)
    requires
        vertex_coord_ok(s1.x),
        vertex_coord_ok(s1.y),
        vertex_coord_ok(s2.x),
        vertex_coord_ok(s2.y),
        origin_ok(*start),
    ensures
        (o == Ordering::Greater) == point_after(*s1, *s2, dir),
        (o == Ordering::Less) == point_after(*s2, *s1, dir),
{
    proof {
        lemma_offset_order(s1.x, s2.x, start.x);
        lemma_offset_order(s1.y, s2.y, start.y);
    }
    let d1x = s1.x - start.x;
    let d2x = s2.x - start.x;
    let ox = if dir.0 {
        d1x.cmp(&d2x)
    } else {
        d2x.cmp(&d1x)
    };
    match ox {
        Ordering::Equal => {
            let d1y = s1.y - start.y;
            let d2y = s2.y - start.y;
            if dir.1 {
                d1y.cmp(&d2y)
            } else {
                d2y.cmp(&d1y)
            }
        },
        ord => ord,
    }
}

/// Offsets from a common integer origin compare like the values themselves,
/// and can be formed and compared without overflow.
proof fn lemma_offset_order(p: Rational, q: Rational, o: Rational)
    requires
        vertex_coord_ok(p),
        vertex_coord_ok(q),
        o.denom == 1,
        abs_le(o.num as int, boolean_coord_bound()),
    ensures
        ({
            let dp = Rational { num: (p.num * 1 - o.num * p.denom) as i128, denom: (p.denom * 1) as i128 };
            let dq = Rational { num: (q.num * 1 - o.num * q.denom) as i128, denom: (q.denom * 1) as i128 };
            &&& crate::rational::sub_fits(p, o)
            &&& crate::rational::sub_fits(q, o)
            &&& fits_i128(dp.num * dq.denom)
            &&& fits_i128(dq.num * dp.denom)
            &&& dp.num * dq.denom - dq.num * dp.denom == p.num * q.denom - q.num * p.denom
        }),
{
    lemma_abs_mul_le(o.num as int, p.denom as int, boolean_coord_bound(), vertex_den_bound());
    lemma_abs_mul_le(o.num as int, q.denom as int, boolean_coord_bound(), vertex_den_bound());
    let dpn = p.num - o.num * p.denom;
    let dqn = q.num - o.num * q.denom;
    lemma_abs_mul_le(dpn, q.denom as int, 0x8_0000_0000, vertex_den_bound());
    lemma_abs_mul_le(dqn, p.denom as int, 0x8_0000_0000, vertex_den_bound());
    assert(dpn * q.denom - dqn * p.denom == p.num * q.denom - q.num * p.denom) by (nonlinear_arith)
        requires
            dpn == p.num - o.num * p.denom,
            dqn == q.num - o.num * q.denom,
    ;
}

/// Inserting `x` where a backward scan stops gives `insert_sorted`.
proof fn lemma_insert_sorted(s: Seq<RationalPoint>, x: RationalPoint, j: int, dir: (bool, bool))
    requires
        0 <= j <= s.len(),
        forall|k: int| j <= k < s.len() ==> point_after(#[trigger] s[k], x, dir),
        j == 0 || !point_after(s[j - 1], x, dir),
    ensures
        insert_sorted(s, x, dir) == s.insert(j, x),
    decreases s.len(),
{
    if s.len() == 0 {
        assert(s.insert(0, x) =~= seq![x]);
    } else if j == s.len() {
        assert(s.insert(j, x) =~= s.push(x));
    } else {
        assert(point_after(s.last(), x, dir));
        let t = s.drop_last();
        assert forall|k: int| j <= k < t.len() implies point_after(#[trigger] t[k], x, dir) by {
            assert(t[k] == s[k]);
        }
        lemma_insert_sorted(t, x, j, dir);
        assert(t.insert(j, x).push(s.last()) =~= s.insert(j, x));
    }
}

/// The entries of `insert_sorted(s, x, dir)` are those of `s` and `x`.
proof fn lemma_insert_sorted_points(s: Seq<RationalPoint>, x: RationalPoint, dir: (bool, bool))
    requires
        points_ok(s),
        vertex_coord_ok(x.x) && vertex_coord_ok(x.y),
    ensures
        points_ok(insert_sorted(s, x, dir)),
        insert_sorted(s, x, dir).len() == s.len() + 1,
    decreases s.len(),
{
    if s.len() > 0 && point_after(s.last(), x, dir) {
        let t = s.drop_last();
        assert(points_ok(t)) by {
            assert forall|k: int| 0 <= k < t.len() implies #[trigger] point_ok(t[k]) by {
                assert(t[k] == s[k]);
            }
        }
        lemma_insert_sorted_points(t, x, dir);
        let r = insert_sorted(t, x, dir).push(s.last());
        assert forall|k: int| 0 <= k < r.len() implies #[trigger] point_ok(r[k]) by {
            if k < r.len() - 1 {
                assert(r[k] == insert_sorted(t, x, dir)[k]);
            } else {
                assert(r[k] == s[s.len() - 1]);
            }
        }
    } else if s.len() > 0 {
        let r = s.push(x);
        assert forall|k: int| 0 <= k < r.len() implies #[trigger] point_ok(r[k]) by {
            if k < s.len() {
                assert(r[k] == s[k]);
            }
        }
    }
}

/// Stable insertion sort of split points along an edge from `start`
/// walked in direction `dir`.
fn sort_splits(splits: &Vec<RationalPoint>, start: &RationalPoint, dir: (bool, bool)) -> (r: Vec<RationalPoint>)
    requires
        points_ok(splits@),
        origin_ok(*start),
    ensures
        r@ == sorted_points(splits@, dir),
        points_ok(r@),
{
    let mut sorted: Vec<RationalPoint> = Vec::new();
    let mut k: usize = 0;
    while k < splits.len()
        invariant
            k <= splits@.len(),
            points_ok(splits@),
            origin_ok(*start),
            sorted@ == sorted_points(prefix(splits@, k), dir),
            points_ok(sorted@),
        decreases splits@.len() - k,
    {
        let x = splits[k];
        proof {
            assert(point_ok(splits@[k - 0]));
        }
        let mut j = sorted.len();
        while j > 0
            invariant
                j <= sorted@.len(),
                points_ok(sorted@),
                vertex_coord_ok(x.x) && vertex_coord_ok(x.y),
                origin_ok(*start),
                forall|m: int| j <= m < sorted@.len() ==> point_after(#[trigger] sorted@[m], x, dir),
            ensures
                j <= sorted@.len(),
                forall|m: int| j <= m < sorted@.len() ==> point_after(#[trigger] sorted@[m], x, dir),
                j == 0 || !point_after(sorted@[j - 1], x, dir),
            decreases j,
        {
            proof {
                assert(point_ok(sorted@[j - 1]));
            }
            let o = split_order(&sorted[j - 1], &x, start, dir);
            if !matches!(o, Ordering::Greater) {
                break;
            }
            j = j - 1;
        }
        proof {
            lemma_sort_step(splits@, sorted@, k, j, dir);
        }
        sorted.insert(j, x);
        k = k + 1;
    }
    proof {
        lemma_prefix_all(splits@);
    }
    sorted
}

/// The prefix of all entries is the whole sequence.
proof fn lemma_prefix_all(s: Seq<RationalPoint>)
    requires
        s.len() <= usize::MAX,
    ensures
        prefix(s, s.len() as usize) == s,
{
    assert(s.subrange(0, s.len() as int) =~= s);
}

/// Every crossing has a point with vertex coordinates.
spec fn crossing_points_ok(isecs: Seq<Intersection>) -> bool {
    forall|k: int| 0 <= k < isecs.len() ==> #[trigger] point_ok(isecs[k].point)
}

/// The crossing points recorded on edge `i` of the given polygon, in order.
fn collect_splits(intersections: &Vec<Intersection>, i: usize, polygon: PolygonId) -> (r: Vec<RationalPoint>)
    requires
        crossing_points_ok(intersections@),
    ensures
        r@ == splits_of(intersections@, i as int, polygon == PolygonId::A),
        points_ok(r@),
{
    let mut r: Vec<RationalPoint> = Vec::new();
    let mut k: usize = 0;
    while k < intersections.len()
        invariant
            k <= intersections@.len(),
            crossing_points_ok(intersections@),
            r@ == splits_of(intersections@.subrange(0, k as int), i as int, polygon == PolygonId::A),
            points_ok(r@),
        decreases intersections@.len() - k,
    {
        let isec = intersections[k];
        let edge = match polygon {
            PolygonId::A => isec.edge_a,
            PolygonId::B => isec.edge_b,
        };
        let ghost before = r@;
        if edge == i {
            r.push(isec.point);
        }
        proof {
            let pre = intersections@.subrange(0, k + 1);
            assert(pre.drop_last() =~= intersections@.subrange(0, k as int));
            assert(pre.last() == isec);
            assert(point_ok(intersections@[k as int].point));
            assert forall|m: int| 0 <= m < r@.len() implies #[trigger] point_ok(r@[m]) by {
                if m < before.len() {
                    assert(r@[m] == before[m]);
                }
            }
        }
        k = k + 1;
    }
    proof {
        assert(intersections@.subrange(0, intersections@.len() as int) =~= intersections@);
    }
    r
}

/// Appends the edges of `poly`, each split at its recorded crossings.
fn push_split_edges(
    edges: &mut Vec<Edge>,
    poly: &[Point2<i64>],
    intersections: &Vec<Intersection>,
    polygon: PolygonId,
)
    requires
        polygon_in_boolean_range(poly@),
        crossing_points_ok(intersections@),
        edges_ok(old(edges)@),
    ensures
        final(edges)@ == old(edges)@ + split_polygon(poly@, intersections@, polygon, poly@.len() as int),
        edges_ok(final(edges)@),
{
    let n = poly.len();
    let mut i: usize = 0;
    while i < n
        invariant
            n == poly@.len(),
            i <= n,
            polygon_in_boolean_range(poly@),
            crossing_points_ok(intersections@),
            edges@ == old(edges)@ + split_polygon(poly@, intersections@, polygon, i as int),
            edges_ok(edges@),
        decreases n - i,
    {
        let p1 = poly[i];
        let p2 = poly[(i + 1) % n];
        proof {
            assert(point_in_boolean_range(poly@[i as int]));
            assert(point_in_boolean_range(poly@[(i + 1) % (n as int)]));
            lemma_original_ok(p1);
            lemma_original_ok(p2);
        }
        let ghost base = edges@;
        let splits = collect_splits(intersections, i, polygon);
        if splits.len() == 0 {
            edges.push(Edge::new(Vertex::Original(p1), Vertex::Original(p2), polygon));
            proof {
                assert forall|k: int| 0 <= k < edges@.len() implies vertex_ok(#[trigger] edges@[k].start)
                    && vertex_ok(edges@[k].end) by {
                    if k < base.len() {
                        assert(edges@[k] == base[k]);
                    }
                }
            }
        } else {
            // Sort splits along the edge direction
            let start = RationalPoint::from_ints(p1.x, p1.y);
            let dir = (p1.x <= p2.x, p1.y <= p2.y);
            let sorted = sort_splits(&splits, &start, dir);
            assert(dir == edge_dir(p1, p2));
            let ghost end_v = Vertex::Original(p2);
            let mut prev = Vertex::Original(p1);
            let mut k: usize = 0;
            proof {
                assert(sorted@.subrange(0, sorted@.len() as int) =~= sorted@);
            }
            while k < sorted.len()
                invariant
                    k <= sorted@.len(),
                    points_ok(sorted@),
                    vertex_ok(prev),
                    vertex_ok(end_v),
                    edges_ok(edges@),
                    edges@ + pieces_from(prev, sorted@.subrange(k as int, sorted@.len() as int), end_v, polygon)
                        == base + pieces_from(Vertex::Original(p1), sorted@, end_v, polygon),
                decreases sorted@.len() - k,
            {
                let curr = Vertex::Intersection(sorted[k]);
                let ghost before = edges@;
                let ghost rest = sorted@.subrange(k as int, sorted@.len() as int);
                proof {
                    assert(rest[0] == sorted@[k as int]);
                    assert(rest.drop_first() =~= sorted@.subrange(k + 1, sorted@.len() as int));
                    assert(point_ok(sorted@[k as int]));
                }
                if prev != curr {
                    edges.push(Edge::new(prev, curr, polygon));
                }
                proof {
                    assert forall|m: int| 0 <= m < edges@.len() implies vertex_ok(#[trigger] edges@[m].start)
                        && vertex_ok(edges@[m].end) by {
                        if m < before.len() {
                            assert(edges@[m] == before[m]);
                        }
                    }
                    assert(edges@ + pieces_from(curr, sorted@.subrange(k + 1, sorted@.len() as int), end_v, polygon)
                        =~= before + pieces_from(prev, rest, end_v, polygon));
                }
                prev = curr;
                k = k + 1;
            }
            let end = Vertex::Original(p2);
            let ghost before = edges@;
            if prev != end {
                edges.push(Edge::new(prev, end, polygon));
            }
            proof {
                assert(sorted@.subrange(sorted@.len() as int, sorted@.len() as int) =~= Seq::<RationalPoint>::empty());
                assert(edges@ =~= before + pieces_from(prev, Seq::<RationalPoint>::empty(), end_v, polygon));
                assert forall|m: int| 0 <= m < edges@.len() implies vertex_ok(#[trigger] edges@[m].start)
                    && vertex_ok(edges@[m].end) by {
                    if m < before.len() {
                        assert(edges@[m] == before[m]);
                    }
                }
            }
        }
        proof {
            assert(split_polygon(poly@, intersections@, polygon, i + 1) == split_polygon(
                poly@,
                intersections@,
                polygon,
                i as int,
            ) + split_edge(
                poly@[i as int],
                edge_end(poly@, i as int),
                splits_of(intersections@, i as int, polygon == PolygonId::A),
                polygon,
            ));
            assert(edges@ =~= old(edges)@ + split_polygon(poly@, intersections@, polygon, i + 1));
        }
        i = i + 1;
    }
}

/// Builds edges split at intersection points.
fn build_split_edges(a: &[Point2<i64>], b: &[Point2<i64>], intersections: &Vec<Intersection>) -> (r: Vec<Edge>)
    requires
        polygon_in_boolean_range(a@),
        polygon_in_boolean_range(b@),
        crossing_points_ok(intersections@),
    ensures
        r@ == split_edges(a@, b@, intersections@),
        edges_ok(r@),
{
    let mut edges: Vec<Edge> = Vec::new();
    // Build edges for polygon A
    push_split_edges(&mut edges, a, intersections, PolygonId::A);
    // Build edges for polygon B
    push_split_edges(&mut edges, b, intersections, PolygonId::B);
    proof {
        assert(edges@ =~= split_edges(a@, b@, intersections@));
    }
    edges
}

// ---------------------------------------------------------------------------
// Edge classification
// ---------------------------------------------------------------------------

/// Limit on the numerator of a midpoint coordinate (`48 * 2^53`).
pub open spec fn mid_num_bound() -> int {
    0x600_0000_0000_0000
}

/// Limit on the denominator of a midpoint coordinate (`2^47`).
pub open spec fn mid_den_bound() -> int {
    0x8000_0000_0000
}

/// A midpoint coordinate: positive denominator, both parts within their limits.
pub open spec fn mid_coord_ok(r: Rational) -> bool {
    0 < r.denom <= mid_den_bound() && abs_le(r.num as int, mid_num_bound())
}

/// Both coordinates of `p` are midpoint coordinates.
spec fn mid_point_ok(p: RationalPoint) -> bool {
    mid_coord_ok(p.x) && mid_coord_ok(p.y)
}

/// Half the sum of two rationals, `(a + b) * (1/2)`, unreduced.
spec fn half_sum(a: Rational, b: Rational) -> Rational {
    Rational { num: (a.num * b.denom + b.num * a.denom) as i128, denom: (a.denom * b.denom * 2) as i128 }
}

/// The midpoint of an edge.
spec fn edge_midpoint(e: Edge) -> RationalPoint {
    RationalPoint {
        x: half_sum(vertex_x(e.start), vertex_x(e.end)),
        y: half_sum(vertex_y(e.start), vertex_y(e.end)),
    }
}

/// Half the sum of two vertex coordinates is a midpoint coordinate and its
/// computation cannot overflow.
proof fn lemma_half_sum(a: Rational, b: Rational)
    requires
        vertex_coord_ok(a),
        vertex_coord_ok(b),
    ensures
        fits_i128(a.num * b.denom),
        fits_i128(b.num * a.denom),
        fits_i128(a.num * b.denom + b.num * a.denom),
        fits_i128(a.denom * b.denom),
        fits_i128(a.denom * b.denom * 2),
        mid_coord_ok(half_sum(a, b)),
{
    lemma_abs_mul_le(a.num as int, b.denom as int, vertex_num_bound(), vertex_den_bound());
    lemma_abs_mul_le(b.num as int, a.denom as int, vertex_num_bound(), vertex_den_bound());
    lemma_abs_mul_le(a.denom as int, b.denom as int, vertex_den_bound(), vertex_den_bound());
    assert(a.denom * b.denom > 0) by (nonlinear_arith)
        requires
            a.denom > 0,
            b.denom > 0,
    ;
}

impl Edge {
    /// Computes the midpoint of this edge as a RationalPoint.
    fn midpoint(&self) -> (r: RationalPoint)
        requires
            vertex_ok(self.start),
            vertex_ok(self.end),
        ensures
            r == edge_midpoint(*self),
            mid_point_ok(r),
    {
        proof {
            lemma_half_sum(vertex_x(self.start), vertex_x(self.end));
            lemma_half_sum(vertex_y(self.start), vertex_y(self.end));
        }
        let mx = (self.start.x() + self.end.x()) * Rational::new(1, 2);
        let my = (self.start.y() + self.end.y()) * Rational::new(1, 2);
        RationalPoint::new(mx, my)
    }
}

/// The cross product `(v2 - v1) x (pt - v1)` scaled by both denominators of `pt`.
pub open spec fn scaled_orient(v1: Point2<i64>, v2: Point2<i64>, pt: RationalPoint) -> int {
    (v2.x - v1.x) * (pt.y.num - v1.y * pt.y.denom) * pt.x.denom - (v2.y - v1.y) * (pt.x.num - v1.x
        * pt.x.denom) * pt.y.denom
}

/// The smaller of two integers.
pub open spec fn min_int(a: int, b: int) -> int {
    if a < b {
        a
    } else {
        b
    }
}

/// The larger of two integers.
pub open spec fn max_int(a: int, b: int) -> int {
    if a > b {
        a
    } else {
        b
    }
}

/// The rational point `pt` lies on the closed segment `v1`-`v2`.
pub open spec fn on_segment_rational(pt: RationalPoint, v1: Point2<i64>, v2: Point2<i64>) -> bool {
    &&& scaled_orient(v1, v2, pt) == 0
    &&& min_int(v1.x as int, v2.x as int) * pt.x.denom <= pt.x.num <= max_int(v1.x as int, v2.x as int)
        * pt.x.denom
    &&& min_int(v1.y as int, v2.y as int) * pt.y.denom <= pt.y.num <= max_int(v1.y as int, v2.y as int)
        * pt.y.denom
}

/// The horizontal ray from `pt` to the right crosses edge `v1`-`v2`
/// (half-open in y, so a vertex is counted once).
pub open spec fn ray_crosses_rational(pt: RationalPoint, v1: Point2<i64>, v2: Point2<i64>) -> bool {
    let py = pt.y;
    let spans_y = (v1.y * py.denom <= py.num && v2.y * py.denom > py.num) || (v2.y * py.denom <= py.num
        && v1.y * py.denom > py.num);
    spans_y && (if v1.y < v2.y {
        scaled_orient(v1, v2, pt) > 0
    } else {
        scaled_orient(v1, v2, pt) < 0
    })
}

/// Number of the first `k` edges of `poly` that the ray from `pt` crosses.
pub open spec fn rational_crossing_count(pt: RationalPoint, poly: Seq<Point2<i64>>, k: int) -> nat
    decreases k,
{
    if k <= 0 {
        0
    } else {
        rational_crossing_count(pt, poly, k - 1) + if ray_crosses_rational(pt, poly[k - 1], edge_end(poly, k - 1)) {
            1nat
        } else {
            0nat
        }
    }
}

/// Containment of the rational point `pt` in `poly` by the even-odd rule.
pub open spec fn rational_containment(pt: RationalPoint, poly: Seq<Point2<i64>>) -> Containment {
    if poly.len() < 3 {
        Containment::Outside
    } else if exists|i: int| 0 <= i < poly.len() && #[trigger] on_segment_rational(pt, poly[i], edge_end(poly, i)) {
        Containment::OnBoundary
    } else if rational_crossing_count(pt, poly, poly.len() as int) % 2 == 1 {
        Containment::Inside
    } else {
        Containment::Outside
    }
}

/// Bounds for the offsets of a midpoint coordinate from an integer in range.
proof fn lemma_offset_bound(p: Rational, v: int)
    requires
        mid_coord_ok(p),
        abs_le(v, boolean_coord_bound()),
    ensures
        abs_le(v * p.denom, 0x200_0000_0000_0000),
        abs_le(p.num - v * p.denom, 0x1000_0000_0000_0000),
{
    lemma_abs_mul_le(v, p.denom as int, boolean_coord_bound(), mid_den_bound());
}

/// Checks if a rational point lies on an integer segment.
fn point_on_segment_rational(pt: &RationalPoint, v1: Point2<i64>, v2: Point2<i64>) -> (r: bool)
    requires
        mid_point_ok(*pt),
        point_in_boolean_range(v1),
        point_in_boolean_range(v2),
    ensures
        r == on_segment_rational(*pt, v1, v2),
{
    let v1r = RationalPoint::from_ints(v1.x, v1.y);
    let v2r = RationalPoint::from_ints(v2.x, v2.y);
    proof {
        lemma_offset_bound(pt.x, v1.x as int);
        lemma_offset_bound(pt.y, v1.y as int);
    }
    // Check collinearity using cross product
    // (v2 - v1) x (pt - v1) = 0
    let dx1 = v2r.x - v1r.x;
    let dy1 = v2r.y - v1r.y;
    let dx2 = pt.x - v1r.x;
    let dy2 = pt.y - v1r.y;
    let ghost ex: int = v2.x - v1.x;
    let ghost ey: int = v2.y - v1.y;
    let ghost fx: int = pt.x.num - v1.x * pt.x.denom;
    let ghost fy: int = pt.y.num - v1.y * pt.y.denom;
    proof {
        assert(dx1.num == ex && dx1.denom == 1);
        assert(dy1.num == ey && dy1.denom == 1);
        assert(dx2.num == fx && dx2.denom == pt.x.denom);
        assert(dy2.num == fy && dy2.denom == pt.y.denom);
        lemma_abs_mul_le(ex, fy, 0x800, 0x1000_0000_0000_0000);
        lemma_abs_mul_le(ey, fx, 0x800, 0x1000_0000_0000_0000);
    }
    let p1 = dx1 * dy2;
    let p2 = dy1 * dx2;
    proof {
        assert(p1.num == ex * fy && p1.denom == pt.y.denom);
        assert(p2.num == ey * fx && p2.denom == pt.x.denom);
        lemma_abs_mul_le(ex * fy, pt.x.denom as int, 0x8000_0000_0000_0000_00, mid_den_bound());
        lemma_abs_mul_le(ey * fx, pt.y.denom as int, 0x8000_0000_0000_0000_00, mid_den_bound());
        lemma_abs_mul_le(pt.y.denom as int, pt.x.denom as int, mid_den_bound(), mid_den_bound());
        assert(ex * fy * pt.x.denom - ey * fx * pt.y.denom == scaled_orient(v1, v2, *pt)) by (nonlinear_arith)
            requires
                ex == v2.x - v1.x,
                ey == v2.y - v1.y,
                fx == pt.x.num - v1.x * pt.x.denom,
                fy == pt.y.num - v1.y * pt.y.denom,
        ;
    }
    let cross = p1 - p2;
    if cross.num != 0 {
        return false;
    }
    proof {
        lemma_abs_mul_le(v2.x as int, pt.x.denom as int, boolean_coord_bound(), mid_den_bound());
        lemma_abs_mul_le(v2.y as int, pt.y.denom as int, boolean_coord_bound(), mid_den_bound());
    }
    // Check if point is within bounding box
    let min_x = if v1r.x < v2r.x {
        v1r.x
    } else {
        v2r.x
    };
    let max_x = if v1r.x > v2r.x {
        v1r.x
    } else {
        v2r.x
    };
    let min_y = if v1r.y < v2r.y {
        v1r.y
    } else {
        v2r.y
    };
    let max_y = if v1r.y > v2r.y {
        v1r.y
    } else {
        v2r.y
    };
    pt.x >= min_x && pt.x <= max_x && pt.y >= min_y && pt.y <= max_y
}

/// Whether the horizontal ray from `pt` crosses edge `v1`-`v2`, by computing
/// where the edge meets the ray's line.
fn ray_crosses_edge(pt: &RationalPoint, v1: Point2<i64>, v2: Point2<i64>) -> (r: bool)
    requires
        mid_point_ok(*pt),
        point_in_boolean_range(v1),
        point_in_boolean_range(v2),
    ensures
        r == ray_crosses_rational(*pt, v1, v2),
{
    proof {
        lemma_offset_bound(pt.x, v1.x as int);
        lemma_offset_bound(pt.y, v1.y as int);
        lemma_abs_mul_le(v2.y as int, pt.y.denom as int, boolean_coord_bound(), mid_den_bound());
    }
    // Ray casting
    let y1 = Rational::from_int(v1.y);
    let y2 = Rational::from_int(v2.y);
    let py = pt.y;
    let spans_y = (y1 <= py && y2 > py) || (y2 <= py && y1 > py);
    if !spans_y {
        return false;
    }
    // Compute x-coordinate of intersection of edge with horizontal line at py
    // x_intersect = x1 + (py - y1) * (x2 - x1) / (y2 - y1)
    let x1 = Rational::from_int(v1.x);
    let x2 = Rational::from_int(v2.x);
    let dy = y2 - y1;
    let t_num = py - y1;
    let dx = x2 - x1;
    let ghost fy: int = pt.y.num - v1.y * pt.y.denom;
    let ghost ex: int = v2.x - v1.x;
    let ghost ey: int = v2.y - v1.y;
    proof {
        assert(ey != 0);
        assert(t_num.num == fy && t_num.denom == pt.y.denom);
        assert(dx.num == ex && dx.denom == 1);
        assert(dy.num == ey && dy.denom == 1);
        lemma_abs_mul_le(fy, ex, 0x1000_0000_0000_0000, 0x800);
    }
    let prod = t_num * dx;
    let scaled = prod * Rational::new(1, 1);
    proof {
        assert(scaled.num == fy * ex && scaled.denom == pt.y.denom);
        lemma_abs_mul_le(pt.y.denom as int, ey, mid_den_bound(), 0x800);
    }
    let q = scaled / dy;
    let ghost dd: int = pt.y.denom * ey;
    proof {
        assert(dd != 0) by (nonlinear_arith)
            requires
                dd == pt.y.denom * ey,
                pt.y.denom > 0,
                ey != 0,
        ;
        assert(dd < 0 <==> ey < 0) by (nonlinear_arith)
            requires
                dd == pt.y.denom * ey,
                pt.y.denom > 0,
                ey != 0,
        ;
        assert(q.denom > 0);
        lemma_abs_mul_le(v1.x as int, q.denom as int, boolean_coord_bound(), 0x400_0000_0000_0000);
    }
    let x_intersect = x1 + q;
    proof {
        lemma_abs_mul_le(pt.x.num as int, x_intersect.denom as int, mid_num_bound(), 0x400_0000_0000_0000);
        assert(abs_le(x_intersect.num as int, 0x100_0000_0000_0000_0000));
        lemma_abs_mul_le(x_intersect.num as int, pt.x.denom as int, 0x100_0000_0000_0000_0000, mid_den_bound());
        lemma_ray_side(
            pt.x.num as int,
            pt.x.denom as int,
            pt.y.num as int,
            pt.y.denom as int,
            v1.x as int,
            v1.y as int,
            ex,
            ey,
            q.num as int,
            q.denom as int,
        );
    }
    pt.x < x_intersect
}

/// Comparing `pt.x` with the edge's x at `pt.y` gives the side of the edge on
/// which `pt` lies, oriented by the edge's direction in y.
proof fn lemma_ray_side(
    pxn: int,
    pxd: int,
    pyn: int,
    pyd: int,
    x1: int,
    y1: int,
    ex: int,
    ey: int,
    qn: int,
    qd: int,
)
    requires
        pxd > 0,
        pyd > 0,
        ey != 0,
        ey > 0 ==> qn == (pyn - y1 * pyd) * ex && qd == pyd * ey,
        ey < 0 ==> qn == -((pyn - y1 * pyd) * ex) && qd == -(pyd * ey),
    ensures
        (pxn * qd < (x1 * qd + qn) * pxd) == (if ey > 0 {
            ex * (pyn - y1 * pyd) * pxd - ey * (pxn - x1 * pxd) * pyd > 0
        } else {
            ex * (pyn - y1 * pyd) * pxd - ey * (pxn - x1 * pxd) * pyd < 0
        }),
{
    let u = pxn - x1 * pxd;
    let n = (pyn - y1 * pyd) * ex;
    assert(pxn * qd - (x1 * qd + qn) * pxd == u * qd - qn * pxd) by (nonlinear_arith)
        requires
            u == pxn - x1 * pxd,
    ;
    assert(ex * (pyn - y1 * pyd) * pxd == n * pxd) by (nonlinear_arith)
        requires
            n == (pyn - y1 * pyd) * ex,
    ;
    assert(ey * (pxn - x1 * pxd) * pyd == u * (pyd * ey)) by (nonlinear_arith)
        requires
            u == pxn - x1 * pxd,
    ;
    if ey < 0 {
        assert(qn * pxd == -(n * pxd)) by (nonlinear_arith)
            requires
                qn == -n,
        ;
        assert(u * qd == -(u * (pyd * ey))) by (nonlinear_arith)
            requires
                qd == -(pyd * ey),
        ;
    }
}

/// Classifies a rational point's containment in an integer polygon.
fn classify_point_in_polygon(pt: &RationalPoint, polygon: &[Point2<i64>]) -> (r: Containment)
    requires
        mid_point_ok(*pt),
        polygon_in_boolean_range(polygon@),
    ensures
        r == rational_containment(*pt, polygon@),
{
    let n = polygon.len();
    if n < 3 {
        return Containment::Outside;
    }
    let mut crossings: usize = 0;
    let mut i: usize = 0;
    while i < n
        invariant
            n == polygon@.len(),
            n >= 3,
            i <= n,
            mid_point_ok(*pt),
            polygon_in_boolean_range(polygon@),
            crossings == rational_crossing_count(*pt, polygon@, i as int),
            crossings <= i,
            forall|k: int| 0 <= k < i ==> !#[trigger] on_segment_rational(*pt, polygon@[k], edge_end(polygon@, k)),
        decreases n - i,
    {
        let v1 = polygon[i];
        let v2 = polygon[(i + 1) % n];
        proof {
            assert(point_in_boolean_range(polygon@[i as int]));
            assert(point_in_boolean_range(polygon@[(i + 1) % (n as int)]));
        }
        // Check if point is on this edge
        if point_on_segment_rational(pt, v1, v2) {
            proof {
                assert(on_segment_rational(*pt, polygon@[i as int], edge_end(polygon@, i as int)));
            }
            return Containment::OnBoundary;
        }
        if ray_crosses_edge(pt, v1, v2) {
            crossings = crossings + 1;
        }
        i = i + 1;
    }
    if crossings % 2 == 1 {
        Containment::Inside
    } else {
        Containment::Outside
    }
}

/// The class of an edge whose midpoint has the given containment in the other polygon.
spec fn class_of(c: Containment) -> EdgeClass {
    match c {
        Containment::Inside => EdgeClass::Inside,
        Containment::Outside => EdgeClass::Outside,
        Containment::OnBoundary => EdgeClass::SharedSame,
    }
}

/// `e` classified by the containment of its midpoint in the other polygon.
spec fn classified_edge(e: Edge, a: Seq<Point2<i64>>, b: Seq<Point2<i64>>) -> Edge {
    let other = match e.polygon {
        PolygonId::A => b,
        PolygonId::B => a,
    };
    Edge { classification: Some(class_of(rational_containment(edge_midpoint(e), other))), ..e }
}

/// Classifies each edge as inside/outside the other polygon.
fn classify_edges(edges: &mut Vec<Edge>, a: &[Point2<i64>], b: &[Point2<i64>])
    requires
        edges_ok(old(edges)@),
        polygon_in_boolean_range(a@),
        polygon_in_boolean_range(b@),
    ensures
        final(edges)@.len() == old(edges)@.len(),
        forall|k: int|
            0 <= k < old(edges)@.len() ==> #[trigger] final(edges)@[k] == classified_edge(
                old(edges)@[k],
                a@,
                b@,
            ),
{
    let mut i: usize = 0;
    while i < edges.len()
        invariant
            edges@.len() == old(edges)@.len(),
            i <= edges@.len(),
            edges_ok(old(edges)@),
            polygon_in_boolean_range(a@),
            polygon_in_boolean_range(b@),
            forall|k: int| 0 <= k < i ==> #[trigger] edges@[k] == classified_edge(old(edges)@[k], a@, b@),
            forall|k: int| i <= k < edges@.len() ==> #[trigger] edges@[k] == old(edges)@[k],
        decreases edges@.len() - i,
    {
        let edge = edges[i];
        proof {
            assert(edge == old(edges)@[i as int]);
            assert(vertex_ok(old(edges)@[i as int].start) && vertex_ok(old(edges)@[i as int].end));
        }
        let mid = edge.midpoint();
        let other_polygon = match edge.polygon {
            PolygonId::A => b,
            PolygonId::B => a,
        };
        // Use rational midpoint for accurate testing
        let containment = classify_point_in_polygon(&mid, other_polygon);
        let class = match containment {
            Containment::Inside => EdgeClass::Inside,
            Containment::Outside => EdgeClass::Outside,
            Containment::OnBoundary => {
                // Edge is on boundary
                EdgeClass::SharedSame
            },
        };
        edges.set(i, Edge { classification: Some(class), ..edge });
        i = i + 1;
    }
}

// ---------------------------------------------------------------------------
// Edge selection and tracing
// ---------------------------------------------------------------------------

/// Whether the operation keeps edge `e`: by its class (unclassified edges
/// count as outside), and for a difference by the polygon it came from.
spec fn edge_kept(e: Edge, op: BooleanOp) -> bool {
    let class = match e.classification {
        Some(c) => c,
        None => EdgeClass::Outside,
    };
    match op {
        BooleanOp::Union => class == EdgeClass::Outside || class == EdgeClass::SharedSame,
        BooleanOp::Intersection => class == EdgeClass::Inside || class == EdgeClass::SharedSame,
        BooleanOp::Difference => match e.polygon {
            PolygonId::A => class == EdgeClass::Outside,
            PolygonId::B => class == EdgeClass::Inside,
        },
    }
}

/// The kept edge as a directed pair; a difference reverses the edges of `b`.
spec fn directed_edge(e: Edge, op: BooleanOp) -> (Vertex, Vertex) {
    if op is Difference && e.polygon == PolygonId::B {
        (e.end, e.start)
    } else {
        (e.start, e.end)
    }
}

/// The kept edges among `edges`, in order, as directed pairs.
spec fn selected_edges(edges: Seq<Edge>, op: BooleanOp) -> Seq<(Vertex, Vertex)>
    decreases edges.len(),
{
    if edges.len() == 0 {
        Seq::empty()
    } else {
        selected_edges(edges.drop_last(), op) + if edge_kept(edges.last(), op) {
            seq![directed_edge(edges.last(), op)]
        } else {
            Seq::empty()
        }
    }
}

/// Selects edges that should be in the result based on the operation.
/// Returns (start, end) pairs with proper direction (B edges reversed for difference).
fn select_edges(edges: &Vec<Edge>, op: BooleanOp) -> (r: Vec<(Vertex, Vertex)>)
    ensures
        r@ == selected_edges(edges@, op),
{
    let mut selected: Vec<(Vertex, Vertex)> = Vec::new();
    let mut i: usize = 0;
    while i < edges.len()
        invariant
            i <= edges@.len(),
            selected@ == selected_edges(edges@.subrange(0, i as int), op),
        decreases edges@.len() - i,
    {
        let e = edges[i];
        let class = match e.classification {
            Some(c) => c,
            None => EdgeClass::Outside,
        };
        let keep = match op {
            BooleanOp::Union => {
                // Include edges outside the other polygon, or shared same-direction
                class == EdgeClass::Outside || class == EdgeClass::SharedSame
            },
            BooleanOp::Intersection => {
                // Include edges inside the other polygon, or shared same-direction
                class == EdgeClass::Inside || class == EdgeClass::SharedSame
            },
            BooleanOp::Difference => match e.polygon {
                PolygonId::A => class == EdgeClass::Outside,
                PolygonId::B => class == EdgeClass::Inside,
            },
        };
        if keep {
            // For difference, reverse B edges since they form the "cutting" boundary
            let pair = if matches!(op, BooleanOp::Difference) && e.polygon == PolygonId::B {
                (e.end, e.start)
            } else {
                (e.start, e.end)
            };
            selected.push(pair);
        }
        proof {
            let pre = edges@.subrange(0, i + 1);
            assert(pre.drop_last() =~= edges@.subrange(0, i as int));
            assert(pre.last() == e);
        }
        i = i + 1;
    }
    proof {
        assert(edges@.subrange(0, edges@.len() as int) =~= edges@);
    }
    selected
}

/// Number of unused edges.
spec fn count_unused(used: Seq<bool>) -> nat
    decreases used.len(),
{
    if used.len() == 0 {
        0
    } else {
        count_unused(used.drop_last()) + if !used.last() {
            1nat
        } else {
            0nat
        }
    }
}

/// Marking an unused edge used lowers the count by one; marking any edge
/// used never raises it.
proof fn lemma_mark_used(used: Seq<bool>, i: int)
    requires
        0 <= i < used.len(),
    ensures
        !used[i] ==> count_unused(used.update(i, true)) + 1 == count_unused(used),
        used[i] ==> count_unused(used.update(i, true)) == count_unused(used),
    decreases used.len(),
{
    let u2 = used.update(i, true);
    if i == used.len() - 1 {
        assert(u2.drop_last() =~= used.drop_last());
    } else {
        lemma_mark_used(used.drop_last(), i);
        assert(u2.drop_last() =~= used.drop_last().update(i, true));
    }
}

/// The first unused edge at or after `k`, or -1.
spec fn first_unused_from(used: Seq<bool>, k: int) -> int
    decreases used.len() - k,
{
    if k < 0 || k >= used.len() {
        -1
    } else if !used[k] {
        k
    } else {
        first_unused_from(used, k + 1)
    }
}

/// The first unused edge at or after `k`, other than `cur`, that starts at `end`; or -1.
spec fn next_edge_from(edges: Seq<(Vertex, Vertex)>, used: Seq<bool>, cur: int, end: Vertex, k: int) -> int
    decreases edges.len() - k,
{
    if k < 0 || k >= edges.len() || k >= used.len() {
        -1
    } else if !used[k] && k != cur && same_vertex(edges[k].0, end) {
        k
    } else {
        next_edge_from(edges, used, cur, end, k + 1)
    }
}

/// The found index is in range and unused.
proof fn lemma_next_edge(edges: Seq<(Vertex, Vertex)>, used: Seq<bool>, cur: int, end: Vertex, k: int)
    ensures
        next_edge_from(edges, used, cur, end, k) >= 0 ==> {
            let j = next_edge_from(edges, used, cur, end, k);
            &&& k <= j < edges.len()
            &&& j < used.len()
            &&& !used[j]
        },
    decreases edges.len() - k,
{
    if !(k < 0 || k >= edges.len() || k >= used.len()) && !(!used[k] && k != cur && same_vertex(edges[k].0, end)) {
        lemma_next_edge(edges, used, cur, end, k + 1);
    }
}

/// Follows edges from `cur`: marks it used, appends its start vertex, and
/// continues with the first unused edge that starts where it ends.
/// Returns the final marks and the traced vertices.
spec fn trace_from(edges: Seq<(Vertex, Vertex)>, used: Seq<bool>, cur: int, poly: Seq<Vertex>) -> (Seq<bool>, Seq<Vertex>)
    decreases count_unused(used),
{
    if cur < 0 || cur >= used.len() || cur >= edges.len() || used[cur] {
        (used, poly)
    } else {
        let u2 = used.update(cur, true);
        let p2 = poly.push(edges[cur].0);
        let nx = next_edge_from(edges, u2, cur, edges[cur].1, 0);
        proof {
            lemma_mark_used(used, cur);
        }
        if nx < 0 {
            (u2, p2)
        } else {
            trace_from(edges, u2, nx, p2)
        }
    }
}

/// Tracing keeps the length of the marks, never unmarks, and marks `cur`.
proof fn lemma_trace_from(edges: Seq<(Vertex, Vertex)>, used: Seq<bool>, cur: int, poly: Seq<Vertex>)
    ensures
        trace_from(edges, used, cur, poly).0.len() == used.len(),
        count_unused(trace_from(edges, used, cur, poly).0) <= count_unused(used),
        0 <= cur < used.len() && cur < edges.len() && !used[cur] ==> count_unused(
            trace_from(edges, used, cur, poly).0,
        ) < count_unused(used),
    decreases count_unused(used),
{
    if cur < 0 || cur >= used.len() || cur >= edges.len() || used[cur] {
    } else {
        let u2 = used.update(cur, true);
        let p2 = poly.push(edges[cur].0);
        let nx = next_edge_from(edges, u2, cur, edges[cur].1, 0);
        lemma_mark_used(used, cur);
        if nx >= 0 {
            lemma_trace_from(edges, u2, nx, p2);
        }
    }
}

/// Traces polygons from the first unused edge until every edge is used,
/// keeping those with at least three vertices.
spec fn trace_all(edges: Seq<(Vertex, Vertex)>, used: Seq<bool>, polys: Seq<Seq<Vertex>>) -> Seq<Seq<Vertex>>
    decreases count_unused(used),
{
    let s = first_unused_from(used, 0);
    if s < 0 || s >= edges.len() {
        polys
    } else {
        let t = trace_from(edges, used, s, Seq::empty());
        proof {
            lemma_first_unused(used, 0);
            lemma_trace_from(edges, used, s, Seq::empty());
        }
        trace_all(edges, t.0, if t.1.len() >= 3 {
            polys.push(t.1)
        } else {
            polys
        })
    }
}

/// The first unused index is in range and unused; none before it is unused.
proof fn lemma_first_unused(used: Seq<bool>, k: int)
    requires
        0 <= k,
    ensures
        first_unused_from(used, k) >= 0 ==> {
            let j = first_unused_from(used, k);
            k <= j < used.len() && !used[j]
        },
        first_unused_from(used, k) < 0 ==> forall|j: int| k <= j < used.len() ==> #[trigger] used[j],
        first_unused_from(used, k) >= 0 ==> forall|j: int|
            k <= j < first_unused_from(used, k) ==> #[trigger] used[j],
    decreases used.len() - k,
{
    if k < used.len() && used[k] {
        lemma_first_unused(used, k + 1);
    }
}

/// All edges unused.
spec fn all_unused(n: nat) -> Seq<bool> {
    Seq::new(n, |i: int| false)
}

/// Compares two vertices for equality.
fn vertices_equal(a: &Vertex, b: &Vertex) -> (r: bool)
    ensures
        r == same_vertex(*a, *b),
{
    same_rational(a.x(), b.x()) && same_rational(a.y(), b.y())
}

/// Traces selected edges into closed polygons.
fn trace_polygons(edges: Vec<(Vertex, Vertex)>) -> (r: Vec<Vec<Vertex>>)
    ensures
        polygons_view(r@) == trace_all(edges@, all_unused(edges@.len()), Seq::empty()),
{
    if edges.len() == 0 {
        let empty: Vec<Vec<Vertex>> = Vec::new();
        proof {
            assert(polygons_view(empty@) =~= Seq::<Seq<Vertex>>::empty());
            assert(first_unused_from(all_unused(edges@.len()), 0) == -1);
        }
        return empty;
    }
    let n = edges.len();
    // Build the used flags
    let mut used: Vec<bool> = Vec::new();
    let mut k: usize = 0;
    while k < n
        invariant
            n == edges@.len(),
            k <= n,
            used@ == all_unused(k as nat),
        decreases n - k,
    {
        used.push(false);
        k = k + 1;
        proof {
            assert(used@ =~= all_unused(k as nat));
        }
    }
    let ghost target = trace_all(edges@, all_unused(n as nat), Seq::empty());
    let mut polygons: Vec<Vec<Vertex>> = Vec::new();
    proof {
        assert(polygons_view(polygons@) =~= Seq::<Seq<Vertex>>::empty());
    }
    loop
        invariant
            n == edges@.len(),
            used@.len() == n,
            trace_all(edges@, used@, polygons_view(polygons@)) == target,
        ensures
            polygons_view(polygons@) == target,
        decreases count_unused(used@),
    {
        // Find an unused edge
        let mut start: usize = 0;
        while start < n
            invariant
                n == edges@.len(),
                used@.len() == n,
                start <= n,
                first_unused_from(used@, 0) == first_unused_from(used@, start as int),
            ensures
                start <= n,
                first_unused_from(used@, 0) == first_unused_from(used@, start as int),
                start < n ==> !used@[start as int],
            decreases n - start,
        {
            if !used[start] {
                break;
            }
            start = start + 1;
        }
        if start == n {
            proof {
                assert(first_unused_from(used@, 0) == -1);
                assert(trace_all(edges@, used@, polygons_view(polygons@)) == polygons_view(polygons@));
            }
            break;
        }
        proof {
            assert(first_unused_from(used@, 0) == start);
        }
        let ghost used0 = used@;
        let mut polygon: Vec<Vertex> = Vec::new();
        let mut current = start;
        loop
            invariant_except_break
                !used@[current as int],
                trace_from(edges@, used@, current as int, polygon@) == trace_from(
                    edges@,
                    used0,
                    start as int,
                    Seq::empty(),
                ),
            invariant
                n == edges@.len(),
                used@.len() == n,
                current < n,
                count_unused(used@) <= count_unused(used0),
            ensures
                trace_from(edges@, used0, start as int, Seq::empty()) == (used@, polygon@),
                count_unused(used@) < count_unused(used0),
            decreases count_unused(used@),
        {
            // Check if already used
            if used[current] {
                break;
            }
            proof {
                lemma_mark_used(used@, current as int);
            }
            // Mark as used and get vertex info
            used.set(current, true);
            let pair = edges[current];
            polygon.push(pair.0);
            // Find next edge starting from 'end'
            let mut i: usize = 0;
            while i < n
                invariant
                    n == edges@.len(),
                    used@.len() == n,
                    i <= n,
                    next_edge_from(edges@, used@, current as int, pair.1, 0) == next_edge_from(
                        edges@,
                        used@,
                        current as int,
                        pair.1,
                        i as int,
                    ),
                ensures
                    i <= n,
                    next_edge_from(edges@, used@, current as int, pair.1, 0) == next_edge_from(
                        edges@,
                        used@,
                        current as int,
                        pair.1,
                        i as int,
                    ),
                    i < n ==> !used@[i as int] && i != current && same_vertex(edges@[i as int].0, pair.1),
                decreases n - i,
            {
                if !used[i] && i != current && vertices_equal(&edges[i].0, &pair.1) {
                    break;
                }
                i = i + 1;
            }
            if i == n {
                break;
            }
            current = i;
        }
        let ghost before_polys = polygons@;
        let ghost traced = polygon@;
        if polygon.len() >= 3 {
            polygons.push(polygon);
        }
        proof {
            assert(polygons_view(polygons@) =~= (if traced.len() >= 3 {
                polygons_view(before_polys).push(traced)
            } else {
                polygons_view(before_polys)
            }));
        }
    }
    proof {
        assert(all_unused(n as nat) == all_unused(edges@.len()));
    }
    polygons
}

// ---------------------------------------------------------------------------
// The operation
// ---------------------------------------------------------------------------

/// The edges of `ccw_a` and `ccw_b`, split at their crossings and classified.
spec fn classified_edges(ccw_a: Seq<Point2<i64>>, ccw_b: Seq<Point2<i64>>) -> Seq<Edge> {
    let edges = split_edges(ccw_a, ccw_b, all_crossings(ccw_a, ccw_b, ccw_a.len() as int));
    Seq::new(edges.len(), |k: int| classified_edge(edges[k], ccw_a, ccw_b))
}

/// The polygons that the boolean operation `op` produces for `a` and `b`:
/// the degenerate answer when either has fewer than three vertices;
/// otherwise, with both put in counter-clockwise order, the answer for
/// polygons whose edges do not cross when no crossing is recorded, else the
/// polygons traced from the edges kept by `op` after splitting every edge at
/// its crossings and classifying each piece by its midpoint.
pub closed spec fn boolean_polygons(a: Seq<Point2<i64>>, b: Seq<Point2<i64>>, op: BooleanOp) -> Seq<
    Seq<Vertex>,
> {
    if a.len() < 3 || b.len() < 3 {
        degenerate_polygons(a, b, op)
    } else {
        let ccw_a = ccw_order(a);
        let ccw_b = ccw_order(b);
        if all_crossings(ccw_a, ccw_b, ccw_a.len() as int).len() == 0 {
            separate_polygons(ccw_a, ccw_b, op)
        } else {
            let kept = selected_edges(classified_edges(ccw_a, ccw_b), op);
            trace_all(kept, all_unused(kept.len()), Seq::empty())
        }
    }
}

/// Main boolean operation implementation.
fn boolean_operation(a: &[Point2<i64>], b: &[Point2<i64>], op: BooleanOp) -> (r: BooleanResult)
    requires
        polygon_in_boolean_range(a@),
        polygon_in_boolean_range(b@),
    ensures
        result_polygons(r) == boolean_polygons(a@, b@, op),
{
    // Handle degenerate cases
    if a.len() < 3 || b.len() < 3 {
        // The polygon kept is put in counter-clockwise order too
        return match op {
            BooleanOp::Union => {
                if a.len() >= 3 {
                    let a_ccw = ensure_ccw(a);
                    result_of(Some(a_ccw.as_slice()), None)
                } else if b.len() >= 3 {
                    let b_ccw = ensure_ccw(b);
                    result_of(Some(b_ccw.as_slice()), None)
                } else {
                    result_of(None, None)
                }
            },
            BooleanOp::Intersection => result_of(None, None),
            BooleanOp::Difference => {
                if a.len() >= 3 {
                    let a_ccw = ensure_ccw(a);
                    result_of(Some(a_ccw.as_slice()), None)
                } else {
                    result_of(None, None)
                }
            },
        };
    }
    // Normalize polygons to CCW
    let a_ccw = ensure_ccw(a);
    let b_ccw = ensure_ccw(b);
    // Find all intersections between edges
    let intersections = find_all_intersections(a_ccw.as_slice(), b_ccw.as_slice());
    // Check for disjoint or nested cases first
    if intersections.len() == 0 {
        return handle_no_intersection(a_ccw.as_slice(), b_ccw.as_slice(), op);
    }
    proof {
        assert forall|k: int| 0 <= k < intersections@.len() implies #[trigger] point_ok(intersections@[k].point) by {
            assert(crossing_ok(a_ccw@.len(), b_ccw@.len(), intersections@[k]));
        }
    }
    // Build edges with intersection points
    let mut edges = build_split_edges(a_ccw.as_slice(), b_ccw.as_slice(), &intersections);
    let ghost split = edges@;
    // Classify each edge
    classify_edges(&mut edges, a_ccw.as_slice(), b_ccw.as_slice());
    proof {
        assert(edges@ =~= classified_edges(a_ccw@, b_ccw@));
    }
    // Select edges based on operation
    let selected = select_edges(&edges, op);
    // Build result polygons by tracing edges
    let polygons = trace_polygons(selected);
    BooleanResult { polygons }
}

/// Computes the union of two simple polygons.
///
/// Returns all areas covered by either polygon A or polygon B (or both).
pub fn polygon_union(a: &[Point2<i64>], b: &[Point2<i64>]) -> (r: BooleanResult)
    requires
        polygon_in_boolean_range(a@),
        polygon_in_boolean_range(b@),
    ensures
        result_polygons(r) == boolean_polygons(a@, b@, BooleanOp::Union),
{
    boolean_operation(a, b, BooleanOp::Union)
}

/// Computes the intersection of two simple polygons.
///
/// Returns only the areas covered by both polygon A and polygon B.
pub fn polygon_intersection(a: &[Point2<i64>], b: &[Point2<i64>]) -> (r: BooleanResult)
    requires
        polygon_in_boolean_range(a@),
        polygon_in_boolean_range(b@),
    ensures
        result_polygons(r) == boolean_polygons(a@, b@, BooleanOp::Intersection),
{
    boolean_operation(a, b, BooleanOp::Intersection)
}

/// Computes the difference of two simple polygons (A - B).
///
/// Returns the areas covered by polygon A but not by polygon B.
pub fn polygon_difference(a: &[Point2<i64>], b: &[Point2<i64>]) -> (r: BooleanResult)
    requires
        polygon_in_boolean_range(a@),
        polygon_in_boolean_range(b@),
    ensures
        result_polygons(r) == boolean_polygons(a@, b@, BooleanOp::Difference),
{
    boolean_operation(a, b, BooleanOp::Difference)
}

// ---------------------------------------------------------------------------
// Laws
// ---------------------------------------------------------------------------

/// When either polygon has fewer than three vertices, the union is the other
/// polygon in counter-clockwise order (or nothing when both are degenerate),
/// the intersection is empty, and the difference is `a` in counter-clockwise
/// order when `a` itself has at least three vertices and empty otherwise.
pub proof fn lemma_boolean_degenerate(a: Seq<Point2<i64>>, b: Seq<Point2<i64>>)
    requires
        a.len() < 3 || b.len() < 3,
    ensures
        boolean_polygons(a, b, BooleanOp::Union) == (if a.len() >= 3 {
            seq![original_vertices(ccw_order(a))]
        } else if b.len() >= 3 {
            seq![original_vertices(ccw_order(b))]
        } else {
            Seq::<Seq<Vertex>>::empty()
        }),
        boolean_polygons(a, b, BooleanOp::Intersection) == Seq::<Seq<Vertex>>::empty(),
        boolean_polygons(a, b, BooleanOp::Difference) == (if a.len() >= 3 {
            seq![original_vertices(ccw_order(a))]
        } else {
            Seq::<Seq<Vertex>>::empty()
        }),
{
}

/// A polygon matches itself read from its first vertex.
proof fn lemma_same_polygon_refl(a: Seq<Point2<i64>>)
    ensures
        same_polygon(a, a),
{
    if a.len() > 0 {
        assert(first_index_from(a, a[0], 0) == 0);
        assert forall|i: int| 0 <= i < a.len() implies #[trigger] a[i] == a[(0 + i) % (a.len() as int)] by {
            vstd::arithmetic::div_mod::lemma_small_mod(i as nat, a.len());
        }
    }
}

/// Combining a polygon with itself: when no two of its edges cross (as for
/// a simple polygon), the union and the intersection are the polygon in
/// counter-clockwise order and the difference is empty.
pub proof fn lemma_boolean_with_itself(a: Seq<Point2<i64>>)
    requires
        a.len() >= 3,
        all_crossings(ccw_order(a), ccw_order(a), a.len() as int).len() == 0,
    ensures
        boolean_polygons(a, a, BooleanOp::Union) == seq![original_vertices(ccw_order(a))],
        boolean_polygons(a, a, BooleanOp::Intersection) == seq![original_vertices(ccw_order(a))],
        boolean_polygons(a, a, BooleanOp::Difference) == Seq::<Seq<Vertex>>::empty(),
{
    lemma_same_polygon_refl(ccw_order(a));
    assert(ccw_order(a).len() == a.len());
}

/// `v` is an original vertex lying inside (or on the boundary of) both `a` and `b`.
pub open spec fn corner_within(v: Vertex, a: Seq<Point2<i64>>, b: Seq<Point2<i64>>) -> bool {
    match v {
        Vertex::Original(q) => polygon_containment(q, a) != Containment::Outside && polygon_containment(q, b)
            != Containment::Outside,
        Vertex::Intersection(_) => false,
    }
}

/// The result polygon `poly` is made of original vertices and some vertex of
/// `p` lies inside it (or on its boundary).
pub open spec fn covers_vertex_of(poly: Seq<Vertex>, p: Seq<Point2<i64>>) -> bool {
    exists|s: Seq<Point2<i64>>, k: int|
        #![trigger original_vertices(s), p[k]]
        poly == original_vertices(s) && 0 <= k < p.len() && polygon_containment(p[k], s)
            != Containment::Outside
}

/// A polygon placed inside another has its first vertex inside (or on the
/// boundary of) the other.
proof fn lemma_placed_first_vertex(inner: Seq<Point2<i64>>, outer: Seq<Point2<i64>>)
    requires
        inner.len() >= 1,
        polygon_placement(inner, outer) == Containment::Inside,
    ensures
        polygon_containment(inner[0], outer) != Containment::Outside,
{
}

/// The index found by `first_index_from` holds the point searched for.
proof fn lemma_first_index_holds(b: Seq<Point2<i64>>, p: Point2<i64>, k: int)
    requires
        first_index_from(b, p, k) >= 0,
    ensures
        0 <= first_index_from(b, p, k) < b.len(),
        b[first_index_from(b, p, k)] == p,
    decreases b.len() - k,
{
    if k >= 0 && k < b.len() && b[k] != p {
        lemma_first_index_holds(b, p, k + 1);
    }
}

/// Every polygon of `r` has a vertex inside (or on the boundary of) both `a` and `b`.
pub open spec fn each_within_both(r: Seq<Seq<Vertex>>, a: Seq<Point2<i64>>, b: Seq<Point2<i64>>) -> bool {
    forall|i: int|
        #![trigger r[i]]
        0 <= i < r.len() ==> exists|k: int| 0 <= k < r[i].len() && #[trigger] corner_within(r[i][k], a, b)
}

/// `v` is an original vertex inside (or on the boundary of) `a` and not
/// strictly inside `b`.
pub open spec fn corner_left_over(v: Vertex, a: Seq<Point2<i64>>, b: Seq<Point2<i64>>) -> bool {
    match v {
        Vertex::Original(q) => polygon_containment(q, a) != Containment::Outside && polygon_containment(q, b)
            != Containment::Inside,
        Vertex::Intersection(_) => false,
    }
}

/// Every polygon of `r` has a vertex inside (or on the boundary of) `a` and
/// not strictly inside `b`.
pub open spec fn each_left_over(r: Seq<Seq<Vertex>>, a: Seq<Point2<i64>>, b: Seq<Point2<i64>>) -> bool {
    forall|i: int|
        #![trigger r[i]]
        0 <= i < r.len() ==> exists|k: int| 0 <= k < r[i].len() && #[trigger] corner_left_over(r[i][k], a, b)
}

/// Some polygon of `r` holds a vertex of `p` inside it (or on its boundary).
pub open spec fn some_covers(r: Seq<Seq<Vertex>>, p: Seq<Point2<i64>>) -> bool {
    exists|i: int| 0 <= i < r.len() && #[trigger] covers_vertex_of(r[i], p)
}

/// For polygons whose edges do not cross: every polygon of the intersection
/// has a vertex inside (or on the boundary of) both polygons; each of the
/// two polygons has a vertex inside (or on the boundary of) some polygon of
/// the union; and every polygon of the difference has a vertex inside (or
/// on the boundary of) `a` and not strictly inside `b`. So a polygon nested
/// in the other is the intersection, the outer one is the union, and
/// nothing is left of a polygon nested in `b`.
pub proof fn lemma_separate_polygons_placed(a: Seq<Point2<i64>>, b: Seq<Point2<i64>>)
    requires
        a.len() >= 3,
        b.len() >= 3,
    ensures
        each_within_both(separate_polygons(a, b, BooleanOp::Intersection), a, b),
        some_covers(separate_polygons(a, b, BooleanOp::Union), a),
        some_covers(separate_polygons(a, b, BooleanOp::Union), b),
        each_left_over(separate_polygons(a, b, BooleanOp::Difference), a, b),
{
    let ri = separate_polygons(a, b, BooleanOp::Intersection);
    let ru = separate_polygons(a, b, BooleanOp::Union);
    let rd = separate_polygons(a, b, BooleanOp::Difference);
    lemma_vertex_on_boundary(a, 0);
    lemma_vertex_on_boundary(b, 0);
    assert(original_vertices(a)[0] == Vertex::Original(a[0]));
    assert(original_vertices(b)[0] == Vertex::Original(b[0]));
    if same_polygon(a, b) {
        let j = first_index_from(b, a[0], 0);
        lemma_first_index_holds(b, a[0], 0);
        lemma_vertex_on_boundary(b, j);
        assert(ri == seq![original_vertices(a)]);
        assert(corner_within(ri[0][0], a, b));
        assert(ru == seq![original_vertices(a)]);
        assert(covers_vertex_of(ru[0], a));
        assert(polygon_containment(b[j], a) != Containment::Outside);
        assert(covers_vertex_of(ru[0], b));
    } else {
        let a_in_b = polygon_placement(a, b) == Containment::Inside;
        let b_in_a = polygon_placement(b, a) == Containment::Inside;
        if a_in_b {
            lemma_placed_first_vertex(a, b);
            assert(corner_within(ri[0][0], a, b));
            assert(covers_vertex_of(ru[0], a));
            assert(covers_vertex_of(ru[0], b));
        } else if b_in_a {
            lemma_placed_first_vertex(b, a);
            assert(corner_within(ri[0][0], a, b));
            assert(covers_vertex_of(ru[0], a));
            assert(covers_vertex_of(ru[0], b));
        } else {
            assert(ri.len() == 0);
            assert(covers_vertex_of(ru[0], a));
            assert(covers_vertex_of(ru[1], b));
        }
        if !a_in_b {
            assert(polygon_containment(a[0], b) != Containment::Inside);
            assert(corner_left_over(rd[0][0], a, b));
        }
    }
}

/// For polygons with at least three vertices whose edges, put in
/// counter-clockwise order, do not cross: every polygon of their
/// intersection has a vertex inside (or on the boundary of) both, each of
/// them has a vertex inside (or on the boundary of) some polygon of their
/// union, and every polygon of the difference has a vertex inside (or on
/// the boundary of) `a` and not strictly inside `b` (both polygons taken in
/// counter-clockwise order).
pub proof fn lemma_boolean_separate_placed(a: Seq<Point2<i64>>, b: Seq<Point2<i64>>)
    requires
        a.len() >= 3,
        b.len() >= 3,
        all_crossings(ccw_order(a), ccw_order(b), a.len() as int).len() == 0,
    ensures
        each_within_both(boolean_polygons(a, b, BooleanOp::Intersection), ccw_order(a), ccw_order(b)),
        some_covers(boolean_polygons(a, b, BooleanOp::Union), ccw_order(a)),
        some_covers(boolean_polygons(a, b, BooleanOp::Union), ccw_order(b)),
        each_left_over(boolean_polygons(a, b, BooleanOp::Difference), ccw_order(a), ccw_order(b)),
{
    assert(ccw_order(a).len() == a.len());
    assert(ccw_order(b).len() == b.len());
    lemma_separate_polygons_placed(ccw_order(a), ccw_order(b));
    assert(boolean_polygons(a, b, BooleanOp::Intersection) == separate_polygons(
        ccw_order(a),
        ccw_order(b),
        BooleanOp::Intersection,
    ));
    assert(boolean_polygons(a, b, BooleanOp::Union) == separate_polygons(
        ccw_order(a),
        ccw_order(b),
        BooleanOp::Union,
    ));
    assert(boolean_polygons(a, b, BooleanOp::Difference) == separate_polygons(
        ccw_order(a),
        ccw_order(b),
        BooleanOp::Difference,
    ));
}

} // verus!
