//! Primitive geometric operations: intersections, distances, and containment.
//!
//! Results are either integers (for distances) or rationals (for
//! intersection points).
use std::cmp::Ordering;
use vstd::prelude::*;

use crate::predicates::{orient2d, orient2d_det, orient2d_fits};
use crate::rational::{fits_i128, Rational};
use crate::widen::{sign_of, Wide, Widen};
use crate::{Point2, Point3, Vector2};

verus! {

/// A point with exact rational coordinates.
#[derive(Debug, Clone, Copy, PartialEq, Eq)]
pub struct RationalPoint {
    pub x: Rational,
    pub y: Rational,
}

impl RationalPoint {
    /// Creates a new rational point.
    pub fn new(x: Rational, y: Rational) -> (r: Self)
        ensures
            r.x == x,
            r.y == y,
    {
        Self { x, y }
    }

    /// Creates a rational point from integer coordinates.
    pub fn from_ints(x: i64, y: i64) -> (r: Self)
        ensures
            r == rational_point_of(x, y),
    {
        Self { x: Rational::from_int(x), y: Rational::from_int(y) }
    }
}

/// The rational point with integer coordinates `(x, y)` (denominators 1).
pub open spec fn rational_point_of(x: i64, y: i64) -> RationalPoint {
    RationalPoint { x: Rational { num: x as i128, denom: 1 }, y: Rational { num: y as i128, denom: 1 } }
}

/// Result of a containment test.
#[derive(Debug, Clone, Copy, PartialEq, Eq)]
pub enum Containment {
    /// Point is strictly inside the region.
    Inside,
    /// Point is strictly outside the region.
    Outside,
    /// Point is exactly on the boundary.
    OnBoundary,
}

/// Result of segment-segment intersection.
#[derive(Debug, Clone, Copy, PartialEq, Eq)]
pub enum SegmentIntersection {
    /// Segments do not intersect.
    NoIntersection,
    /// Segments intersect at a single point.
    Point(RationalPoint),
    /// Segments are collinear and overlap.
    Overlapping,
    /// Segments are collinear but do not overlap.
    CollinearDisjoint,
}

/// Result of line-segment intersection.
#[derive(Debug, Clone, Copy, PartialEq, Eq)]
pub enum LineIntersection {
    /// Line and segment are parallel (no intersection).
    NoIntersection,
    /// Line and segment intersect at a single point.
    Point(RationalPoint),
    /// Segment lies entirely on the line.
    Collinear,
}

/// Result of ray-segment intersection.
#[derive(Debug, Clone, Copy, PartialEq, Eq)]
pub enum RayIntersection {
    /// Ray and segment do not intersect.
    NoIntersection,
    /// Ray and segment intersect at a single point.
    Point(RationalPoint),
    /// Ray and segment are collinear with overlap.
    CollinearOverlap,
    /// Ray and segment are collinear but do not overlap.
    CollinearDisjoint,
}

/// `a` and `b` are the same ordering.
fn same_ordering(a: Ordering, b: Ordering) -> (r: bool)
    ensures
        r == (a == b),
{
    match (a, b) {
        (Ordering::Less, Ordering::Less) => true,
        (Ordering::Equal, Ordering::Equal) => true,
        (Ordering::Greater, Ordering::Greater) => true,
        _ => false,
    }
}

/// `o` is `Equal`.
fn is_equal(o: Ordering) -> (r: bool)
    ensures
        r == (o == Ordering::Equal),
{
    match o {
        Ordering::Equal => true,
        _ => false,
    }
}

// ---------------------------------------------------------------------------
// Distance
// ---------------------------------------------------------------------------

/// Squared Euclidean distance over the integers.
pub open spec fn dist2<T: Widen>(a: Point2<T>, b: Point2<T>) -> int {
    (b.x.value() - a.x.value()) * (b.x.value() - a.x.value()) + (b.y.value() - a.y.value()) * (
    b.y.value() - a.y.value())
}

/// Both squares and their sum fit in the wide type.
pub open spec fn dist2_fits<T: Widen>(a: Point2<T>, b: Point2<T>) -> bool {
    &&& <T::Wide as Wide>::wide_min() <= dist2(a, b) <= <T::Wide as Wide>::wide_max()
}

/// Squares are non-negative and bounded by their sum.
proof fn lemma_sum_squares(dx: int, dy: int)
    ensures
        0 <= dx * dx <= dx * dx + dy * dy,
        0 <= dy * dy <= dx * dx + dy * dy,
{
    assert(dx * dx >= 0) by (nonlinear_arith);
    assert(dy * dy >= 0) by (nonlinear_arith);
}

/// Computes the squared distance between two points, in the widened type.
pub fn distance_squared<T: Widen>(a: Point2<T>, b: Point2<T>) -> (r: T::Wide)
    requires
        dist2_fits(a, b),
    ensures
        r.wide_value() == dist2(a, b),
{
    proof {
        a.x.value_in_range();
        a.y.value_in_range();
        b.x.value_in_range();
        b.y.value_in_range();
        lemma_sum_squares(b.x.value() - a.x.value(), b.y.value() - a.y.value());
    }
    let dx = b.x.to_wide().wide_sub(a.x.to_wide());
    let dy = b.y.to_wide().wide_sub(a.y.to_wide());
    proof {
        dx.wide_in_range();
    }
    let sx = dx.wide_mul(dx);
    let sy = dy.wide_mul(dy);
    sx.wide_add(sy)
}

/// Squared Euclidean distance between 3D points over the integers.
pub open spec fn dist2_3d(a: Point3<i64>, b: Point3<i64>) -> int {
    (b.x - a.x) * (b.x - a.x) + (b.y - a.y) * (b.y - a.y) + (b.z - a.z) * (b.z - a.z)
}

/// Computes the squared distance between two 3D points.
pub fn distance_squared_3d(a: Point3<i64>, b: Point3<i64>) -> (r: i128)
    requires
        fits_i128(dist2_3d(a, b)),
    ensures
        r == dist2_3d(a, b),
{
    let dx = b.x as i128 - a.x as i128;
    let dy = b.y as i128 - a.y as i128;
    let dz = b.z as i128 - a.z as i128;
    proof {
        lemma_sum_squares(dx as int, dy as int);
        lemma_sum_squares(dx * dx + dy * dy, dz as int);
        lemma_sum_squares(dz as int, 0);
    }
    dx * dx + dy * dy + dz * dz
}

// ---------------------------------------------------------------------------
// Polygon area
// ---------------------------------------------------------------------------

/// Cross term `x_i * y_j - x_j * y_i` of the shoelace formula.
pub open spec fn shoelace_term(p: Point2<i64>, q: Point2<i64>) -> int {
    p.x * q.y - q.x * p.y
}

/// Sum of the shoelace terms of the first `k` edges of a closed polygon.
pub open spec fn shoelace_sum(poly: Seq<Point2<i64>>, k: int) -> int
    decreases k,
{
    if k <= 0 {
        0
    } else {
        shoelace_sum(poly, k - 1) + shoelace_term(poly[k - 1], poly[k % (poly.len() as int)])
    }
}

/// Every partial shoelace sum and every term fits in an `i128`.
pub open spec fn shoelace_fits(poly: Seq<Point2<i64>>) -> bool {
    forall|k: int|
        0 <= k < poly.len() ==> {
            &&& fits_i128(#[trigger] shoelace_sum(poly, k + 1))
            &&& fits_i128(poly[k].x * poly[(k + 1) % (poly.len() as int)].y)
            &&& fits_i128(poly[(k + 1) % (poly.len() as int)].x * poly[k].y)
            &&& fits_i128(shoelace_term(poly[k], poly[(k + 1) % (poly.len() as int)]))
        }
}

/// Twice the signed area of a polygon (shoelace formula); positive for
/// counter-clockwise vertex order.
pub fn polygon_area_2x(polygon: &[Point2<i64>]) -> (r: i128)
    requires
        shoelace_fits(polygon@),
    ensures
        r == shoelace_sum(polygon@, polygon@.len() as int),
{
    let n = polygon.len();
    let mut sum: i128 = 0;
    let mut i: usize = 0;
    while i < n
        invariant
            n == polygon@.len(),
            i <= n,
            shoelace_fits(polygon@),
            sum == shoelace_sum(polygon@, i as int),
        decreases n - i,
    {
        let p = polygon[i];
        let q = polygon[(i + 1) % n];
        proof {
            assert(fits_i128(shoelace_sum(polygon@, i + 1)));
        }
        let t = (p.x as i128) * (q.y as i128) - (q.x as i128) * (p.y as i128);
        sum = sum + t;
        i = i + 1;
    }
    sum
}

// ---------------------------------------------------------------------------
// Point-in-triangle
// ---------------------------------------------------------------------------

/// Classification of a point against a triangle from the three edge orientations.
pub open spec fn triangle_class(o1: Ordering, o2: Ordering, o3: Ordering) -> Containment {
    if o1 == Ordering::Equal || o2 == Ordering::Equal || o3 == Ordering::Equal {
        // the non-zero orientations must agree
        let consistent = (o1 == Ordering::Equal || o2 == Ordering::Equal || o1 == o2) && (o1
            == Ordering::Equal || o3 == Ordering::Equal || o1 == o3) && (o2 == Ordering::Equal || o3
            == Ordering::Equal || o2 == o3);
        if consistent {
            Containment::OnBoundary
        } else {
            Containment::Outside
        }
    } else if o1 == o2 && o2 == o3 {
        Containment::Inside
    } else {
        Containment::Outside
    }
}

/// Tests if a point lies inside, outside, or on the boundary of a triangle.
///
/// The triangle vertices can be in either clockwise or counter-clockwise order.
pub fn point_in_triangle<T: Widen>(p: Point2<T>, a: Point2<T>, b: Point2<T>, c: Point2<T>) -> (r:
    Containment)
    requires
        orient2d_fits(a, b, p),
        orient2d_fits(b, c, p),
        orient2d_fits(c, a, p),
    ensures
        r == triangle_class(
            sign_of(orient2d_det(a, b, p)),
            sign_of(orient2d_det(b, c, p)),
            sign_of(orient2d_det(c, a, p)),
        ),
{
    let o1 = orient2d(a, b, p);
    let o2 = orient2d(b, c, p);
    let o3 = orient2d(c, a, p);

    let e1 = is_equal(o1);
    let e2 = is_equal(o2);
    let e3 = is_equal(o3);
    if e1 || e2 || e3 {
        // first non-zero orientation, if any; every other non-zero one must match it
        let consistent = if !e1 {
            (e2 || same_ordering(o1, o2)) && (e3 || same_ordering(o1, o3))
        } else if !e2 {
            e3 || same_ordering(o2, o3)
        } else {
            true
        };
        if consistent {
            return Containment::OnBoundary;
        }
        return Containment::Outside;
    }
    if same_ordering(o1, o2) && same_ordering(o2, o3) {
        Containment::Inside
    } else {
        Containment::Outside
    }
}

// ---------------------------------------------------------------------------
// Parametric points
// ---------------------------------------------------------------------------

/// `|v|`.
pub open spec fn abs_int(v: int) -> int {
    if v < 0 {
        -v
    } else {
        v
    }
}

/// Numerator of `o + (numer / denom) * d` over the denominator `|denom|`.
pub open spec fn param_num(o: int, d: int, numer: int, denom: int) -> int {
    if denom < 0 {
        -(o * denom + numer * d)
    } else {
        o * denom + numer * d
    }
}

/// The point `o + (numer / denom) * d` with positive denominator `|denom|`.
pub open spec fn param_point(ox: int, oy: int, dx: int, dy: int, numer: int, denom: int) -> RationalPoint {
    RationalPoint {
        x: Rational { num: param_num(ox, dx, numer, denom) as i128, denom: abs_int(denom) as i128 },
        y: Rational { num: param_num(oy, dy, numer, denom) as i128, denom: abs_int(denom) as i128 },
    }
}

/// The arithmetic of `param_point` fits in `i128`.
pub open spec fn param_fits(ox: int, oy: int, dx: int, dy: int, numer: int, denom: int) -> bool {
    &&& fits_i128(ox * denom) && fits_i128(numer * dx) && fits_i128(ox * denom + numer * dx)
    &&& fits_i128(-(ox * denom + numer * dx))
    &&& fits_i128(oy * denom) && fits_i128(numer * dy) && fits_i128(oy * denom + numer * dy)
    &&& fits_i128(-(oy * denom + numer * dy))
    &&& fits_i128(denom) && fits_i128(-denom)
}

/// Builds `o + (numer / denom) * d` exactly.
fn make_param_point(ox: i128, oy: i128, dx: i128, dy: i128, numer: i128, denom: i128) -> (r:
    RationalPoint)
    requires
        denom != 0,
        param_fits(ox as int, oy as int, dx as int, dy as int, numer as int, denom as int),
    ensures
        r == param_point(ox as int, oy as int, dx as int, dy as int, numer as int, denom as int),
        r.x.wf(),
        r.y.wf(),
{
    let abs_denom = if denom < 0 {
        -denom
    } else {
        denom
    };
    let s: i128 = if denom < 0 {
        -1
    } else {
        1
    };
    let x_num = s * (ox * denom + numer * dx);
    let y_num = s * (oy * denom + numer * dy);
    RationalPoint::new(Rational::new(x_num, abs_denom), Rational::new(y_num, abs_denom))
}

/// The rational point `p` satisfies `(q - o) x (p - o) == 0`: it lies on the
/// line through integer points `o` and `q` (tested with `p`'s common denominator).
pub open spec fn on_line(o: Point2<i64>, q: Point2<i64>, p: RationalPoint) -> bool {
    p.x.denom == p.y.denom && (q.x - o.x) * (p.y.num - o.y * p.y.denom) - (q.y - o.y) * (p.x.num
        - o.x * p.x.denom) == 0
}

// ---------------------------------------------------------------------------
// Segment-segment intersection
// ---------------------------------------------------------------------------

/// Cross product `(a2 - a1) x (b2 - b1)`.
pub open spec fn seg_denom(a1: Point2<i64>, a2: Point2<i64>, b1: Point2<i64>, b2: Point2<i64>) -> int {
    (a2.x - a1.x) * (b2.y - b1.y) - (a2.y - a1.y) * (b2.x - b1.x)
}

/// Cross product `(b1 - a1) x (b2 - b1)`.
pub open spec fn seg_numer(a1: Point2<i64>, a2: Point2<i64>, b1: Point2<i64>, b2: Point2<i64>) -> int {
    (b1.x - a1.x) * (b2.y - b1.y) - (b1.y - a1.y) * (b2.x - b1.x)
}

/// The crossing point `a1 + (numer / denom) * (a2 - a1)` of two properly crossing segments.
pub open spec fn crossing_point(a1: Point2<i64>, a2: Point2<i64>, b1: Point2<i64>, b2: Point2<i64>) -> RationalPoint {
    param_point(
        a1.x as int,
        a1.y as int,
        a2.x - a1.x,
        a2.y - a1.y,
        seg_numer(a1, a2, b1, b2),
        seg_denom(a1, a2, b1, b2),
    )
}

/// `[min(a1,a2), max(a1,a2)]` and `[min(b1,b2), max(b1,b2)]` overlap.
pub open spec fn overlap_1d(a1: i64, a2: i64, b1: i64, b2: i64) -> bool {
    let a_min = if a1 <= a2 {
        a1
    } else {
        a2
    };
    let a_max = if a1 <= a2 {
        a2
    } else {
        a1
    };
    let b_min = if b1 <= b2 {
        b1
    } else {
        b2
    };
    let b_max = if b1 <= b2 {
        b2
    } else {
        b1
    };
    a_max >= b_min && b_max >= a_min
}

/// The four orientations of a segment pair are proper-crossing ones:
/// the endpoints of each segment lie strictly on opposite sides of the other.
pub open spec fn proper_crossing(a1: Point2<i64>, a2: Point2<i64>, b1: Point2<i64>, b2: Point2<i64>) -> bool {
    let o1 = sign_of(orient2d_det(a1, a2, b1));
    let o2 = sign_of(orient2d_det(a1, a2, b2));
    let o3 = sign_of(orient2d_det(b1, b2, a1));
    let o4 = sign_of(orient2d_det(b1, b2, a2));
    o1 != o2 && o3 != o4 && o1 != Ordering::Equal && o2 != Ordering::Equal && o3
        != Ordering::Equal && o4 != Ordering::Equal
}

/// Every intermediate value of `segment_intersection` fits its machine type.
pub open spec fn segment_fits(a1: Point2<i64>, a2: Point2<i64>, b1: Point2<i64>, b2: Point2<i64>) -> bool {
    &&& orient2d_fits(a1, a2, b1)
    &&& orient2d_fits(a1, a2, b2)
    &&& orient2d_fits(b1, b2, a1)
    &&& orient2d_fits(b1, b2, a2)
    &&& proper_crossing(a1, a2, b1, b2) ==> {
        &&& fits_i128((a2.x - a1.x) * (b2.y - b1.y))
        &&& fits_i128((a2.y - a1.y) * (b2.x - b1.x))
        &&& fits_i128(seg_denom(a1, a2, b1, b2))
        &&& fits_i128((b1.x - a1.x) * (b2.y - b1.y))
        &&& fits_i128((b1.y - a1.y) * (b2.x - b1.x))
        &&& fits_i128(seg_numer(a1, a2, b1, b2))
        &&& param_fits(
            a1.x as int,
            a1.y as int,
            a2.x - a1.x,
            a2.y - a1.y,
            seg_numer(a1, a2, b1, b2),
            seg_denom(a1, a2, b1, b2),
        )
    }
}

/// The classification computed by `segment_intersection`.
pub open spec fn segment_intersection_spec(
    a1: Point2<i64>,
    a2: Point2<i64>,
    b1: Point2<i64>,
    b2: Point2<i64>,
) -> SegmentIntersection {
    let o1 = sign_of(orient2d_det(a1, a2, b1));
    let o2 = sign_of(orient2d_det(a1, a2, b2));
    let o3 = sign_of(orient2d_det(b1, b2, a1));
    let o4 = sign_of(orient2d_det(b1, b2, a2));
    if o1 != o2 && o3 != o4 {
        if o1 == Ordering::Equal {
            SegmentIntersection::Point(rational_point_of(b1.x, b1.y))
        } else if o2 == Ordering::Equal {
            SegmentIntersection::Point(rational_point_of(b2.x, b2.y))
        } else if o3 == Ordering::Equal {
            SegmentIntersection::Point(rational_point_of(a1.x, a1.y))
        } else if o4 == Ordering::Equal {
            SegmentIntersection::Point(rational_point_of(a2.x, a2.y))
        } else {
            SegmentIntersection::Point(crossing_point(a1, a2, b1, b2))
        }
    } else if o1 == Ordering::Equal && o2 == Ordering::Equal {
        if overlap_1d(a1.x, a2.x, b1.x, b2.x) && overlap_1d(a1.y, a2.y, b1.y, b2.y) {
            SegmentIntersection::Overlapping
        } else {
            SegmentIntersection::CollinearDisjoint
        }
    } else {
        SegmentIntersection::NoIntersection
    }
}

/// Computes the crossing point of two properly crossing segments.
fn segment_crossing_point(a1: Point2<i64>, a2: Point2<i64>, b1: Point2<i64>, b2: Point2<i64>) -> (r:
    RationalPoint)
    requires
        seg_denom(a1, a2, b1, b2) != 0,
        fits_i128((a2.x - a1.x) * (b2.y - b1.y)),
        fits_i128((a2.y - a1.y) * (b2.x - b1.x)),
        fits_i128(seg_denom(a1, a2, b1, b2)),
        fits_i128((b1.x - a1.x) * (b2.y - b1.y)),
        fits_i128((b1.y - a1.y) * (b2.x - b1.x)),
        fits_i128(seg_numer(a1, a2, b1, b2)),
        param_fits(
            a1.x as int,
            a1.y as int,
            a2.x - a1.x,
            a2.y - a1.y,
            seg_numer(a1, a2, b1, b2),
            seg_denom(a1, a2, b1, b2),
        ),
    ensures
        r == crossing_point(a1, a2, b1, b2),
{
    let a1x = a1.x as i128;
    let a1y = a1.y as i128;
    let a2x = a2.x as i128;
    let a2y = a2.y as i128;
    let b1x = b1.x as i128;
    let b1y = b1.y as i128;
    let b2x = b2.x as i128;
    let b2y = b2.y as i128;

    let denom = (a2x - a1x) * (b2y - b1y) - (a2y - a1y) * (b2x - b1x);
    let numer = (b1x - a1x) * (b2y - b1y) - (b1y - a1y) * (b2x - b1x);
    make_param_point(a1x, a1y, a2x - a1x, a2y - a1y, numer, denom)
}

/// A proper crossing has non-zero denominator: the segments are not parallel.
pub(crate) proof fn lemma_proper_crossing_denom(a1: Point2<i64>, a2: Point2<i64>, b1: Point2<i64>, b2: Point2<i64>)
    requires
        proper_crossing(a1, a2, b1, b2),
    ensures
        seg_denom(a1, a2, b1, b2) != 0,
{
    // orient(a1,a2,b2) - orient(a1,a2,b1) == seg_denom
    assert(orient2d_det(a1, a2, b2) - orient2d_det(a1, a2, b1) == seg_denom(a1, a2, b1, b2))
        by (nonlinear_arith);
}

/// Computes the intersection of two line segments `a1-a2` and `b1-b2`.
pub fn segment_intersection(a1: Point2<i64>, a2: Point2<i64>, b1: Point2<i64>, b2: Point2<i64>) -> (r:
    SegmentIntersection)
    requires
        segment_fits(a1, a2, b1, b2),
    ensures
        r == segment_intersection_spec(a1, a2, b1, b2),
{
    let o1 = orient2d(a1, a2, b1);
    let o2 = orient2d(a1, a2, b2);
    let o3 = orient2d(b1, b2, a1);
    let o4 = orient2d(b1, b2, a2);

    if !same_ordering(o1, o2) && !same_ordering(o3, o4) {
        if is_equal(o1) {
            return SegmentIntersection::Point(RationalPoint::from_ints(b1.x, b1.y));
        }
        if is_equal(o2) {
            return SegmentIntersection::Point(RationalPoint::from_ints(b2.x, b2.y));
        }
        if is_equal(o3) {
            return SegmentIntersection::Point(RationalPoint::from_ints(a1.x, a1.y));
        }
        if is_equal(o4) {
            return SegmentIntersection::Point(RationalPoint::from_ints(a2.x, a2.y));
        }
        proof {
            lemma_proper_crossing_denom(a1, a2, b1, b2);
        }
        return SegmentIntersection::Point(segment_crossing_point(a1, a2, b1, b2));
    }
    if is_equal(o1) && is_equal(o2) {
        if segments_overlap_1d(a1.x, a2.x, b1.x, b2.x) && segments_overlap_1d(
            a1.y,
            a2.y,
            b1.y,
            b2.y,
        ) {
            return SegmentIntersection::Overlapping;
        }
        return SegmentIntersection::CollinearDisjoint;
    }
    SegmentIntersection::NoIntersection
}

/// Checks whether the 1D intervals spanned by `a1,a2` and `b1,b2` overlap.
fn segments_overlap_1d(a1: i64, a2: i64, b1: i64, b2: i64) -> (r: bool)
    ensures
        r == overlap_1d(a1, a2, b1, b2),
{
    let (a_min, a_max) = if a1 <= a2 {
        (a1, a2)
    } else {
        (a2, a1)
    };
    let (b_min, b_max) = if b1 <= b2 {
        (b1, b2)
    } else {
        (b2, b1)
    };
    a_max >= b_min && b_max >= a_min
}


// ---------------------------------------------------------------------------
// Line-segment intersection
// ---------------------------------------------------------------------------

/// The second point `p + d` of a line or ray given by a point and a direction.
pub open spec fn offset_point(p: Point2<i64>, d: Vector2<i64>) -> Point2<i64> {
    Point2 { x: (p.x + d.x) as i64, y: (p.y + d.y) as i64 }
}

/// `p + d` is representable.
pub open spec fn offset_fits(p: Point2<i64>, d: Vector2<i64>) -> bool {
    i64::MIN <= p.x + d.x <= i64::MAX && i64::MIN <= p.y + d.y <= i64::MAX
}

/// Cross product `d x (q - p)` of a direction with a segment direction.
pub open spec fn dir_cross(d: Vector2<i64>, s1: Point2<i64>, s2: Point2<i64>) -> int {
    d.x * (s2.y - s1.y) - d.y * (s2.x - s1.x)
}

/// Cross product `(s1 - p) x d`: the line parameter numerator of the crossing on the segment.
pub open spec fn line_numer(p: Point2<i64>, d: Vector2<i64>, s1: Point2<i64>) -> int {
    (s1.x - p.x) * d.y - (s1.y - p.y) * d.x
}

/// The point where the line through `p` with direction `d` crosses segment `s1-s2`.
pub open spec fn line_crossing_point(
    p: Point2<i64>,
    d: Vector2<i64>,
    s1: Point2<i64>,
    s2: Point2<i64>,
) -> RationalPoint {
    param_point(
        s1.x as int,
        s1.y as int,
        s2.x - s1.x,
        s2.y - s1.y,
        line_numer(p, d, s1),
        dir_cross(d, s1, s2),
    )
}

/// The arithmetic of `line_crossing_point` fits in `i128`.
pub open spec fn line_crossing_fits(p: Point2<i64>, d: Vector2<i64>, s1: Point2<i64>, s2: Point2<i64>) -> bool {
    &&& fits_i128(d.x * (s2.y - s1.y)) && fits_i128(d.y * (s2.x - s1.x)) && fits_i128(
        dir_cross(d, s1, s2),
    )
    &&& fits_i128((s1.x - p.x) * d.y) && fits_i128((s1.y - p.y) * d.x) && fits_i128(
        line_numer(p, d, s1),
    )
    &&& param_fits(
        s1.x as int,
        s1.y as int,
        s2.x - s1.x,
        s2.y - s1.y,
        line_numer(p, d, s1),
        dir_cross(d, s1, s2),
    )
}

/// The segment endpoints lie strictly on opposite sides of the line `p`, `q`.
pub open spec fn strictly_straddles(p: Point2<i64>, q: Point2<i64>, s1: Point2<i64>, s2: Point2<i64>) -> bool {
    let o1 = sign_of(orient2d_det(p, q, s1));
    let o2 = sign_of(orient2d_det(p, q, s2));
    o1 != Ordering::Equal && o2 != Ordering::Equal && o1 != o2
}

/// Every intermediate value of `line_segment_intersection` fits its machine type.
pub open spec fn line_fits(p: Point2<i64>, d: Vector2<i64>, s1: Point2<i64>, s2: Point2<i64>) -> bool {
    &&& offset_fits(p, d)
    &&& orient2d_fits(p, offset_point(p, d), s1)
    &&& orient2d_fits(p, offset_point(p, d), s2)
    &&& strictly_straddles(p, offset_point(p, d), s1, s2) ==> line_crossing_fits(p, d, s1, s2)
}

/// The classification computed by `line_segment_intersection`.
pub open spec fn line_segment_intersection_spec(
    p: Point2<i64>,
    d: Vector2<i64>,
    s1: Point2<i64>,
    s2: Point2<i64>,
) -> LineIntersection {
    let q = offset_point(p, d);
    let o1 = sign_of(orient2d_det(p, q, s1));
    let o2 = sign_of(orient2d_det(p, q, s2));
    if (o1 == Ordering::Greater && o2 == Ordering::Greater) || (o1 == Ordering::Less && o2
        == Ordering::Less) {
        LineIntersection::NoIntersection
    } else if o1 == Ordering::Equal && o2 == Ordering::Equal {
        LineIntersection::Collinear
    } else if o1 == Ordering::Equal {
        LineIntersection::Point(rational_point_of(s1.x, s1.y))
    } else if o2 == Ordering::Equal {
        LineIntersection::Point(rational_point_of(s2.x, s2.y))
    } else if dir_cross(d, s1, s2) == 0 {
        LineIntersection::NoIntersection
    } else {
        LineIntersection::Point(line_crossing_point(p, d, s1, s2))
    }
}

/// `p + d`, computed in `i64`.
fn make_offset_point(p: Point2<i64>, d: Vector2<i64>) -> (r: Point2<i64>)
    requires
        offset_fits(p, d),
    ensures
        r == offset_point(p, d),
{
    Point2::new(p.x + d.x, p.y + d.y)
}

/// Computes the crossing of the line `p + t d` with segment `s1-s2`.
fn line_crossing(p: Point2<i64>, d: Vector2<i64>, s1: Point2<i64>, s2: Point2<i64>) -> (r: Option<
    RationalPoint,
>)
    requires
        line_crossing_fits(p, d, s1, s2),
    ensures
        dir_cross(d, s1, s2) == 0 ==> r is None,
        dir_cross(d, s1, s2) != 0 ==> r == Some(line_crossing_point(p, d, s1, s2)),
{
    let lpx = p.x as i128;
    let lpy = p.y as i128;
    let ldx = d.x as i128;
    let ldy = d.y as i128;
    let s1x = s1.x as i128;
    let s1y = s1.y as i128;
    let s2x = s2.x as i128;
    let s2y = s2.y as i128;

    let sdx = s2x - s1x;
    let sdy = s2y - s1y;
    let denom = ldx * sdy - ldy * sdx;
    if denom == 0 {
        return None;
    }
    let s_numer = (s1x - lpx) * ldy - (s1y - lpy) * ldx;
    Some(make_param_point(s1x, s1y, sdx, sdy, s_numer, denom))
}

/// Computes the intersection of a line (point `line_point`, direction `line_dir`)
/// and the segment `seg_start-seg_end`.
pub fn line_segment_intersection(
    line_point: Point2<i64>,
    line_dir: Vector2<i64>,
    seg_start: Point2<i64>,
    seg_end: Point2<i64>,
) -> (r: LineIntersection)
    requires
        line_fits(line_point, line_dir, seg_start, seg_end),
    ensures
        r == line_segment_intersection_spec(line_point, line_dir, seg_start, seg_end),
{
    let line_point2 = make_offset_point(line_point, line_dir);
    let o1 = orient2d(line_point, line_point2, seg_start);
    let o2 = orient2d(line_point, line_point2, seg_end);

    let both_above = match (o1, o2) {
        (Ordering::Greater, Ordering::Greater) => true,
        _ => false,
    };
    let both_below = match (o1, o2) {
        (Ordering::Less, Ordering::Less) => true,
        _ => false,
    };
    if both_above || both_below {
        return LineIntersection::NoIntersection;
    }
    if is_equal(o1) && is_equal(o2) {
        return LineIntersection::Collinear;
    }
    if is_equal(o1) {
        return LineIntersection::Point(RationalPoint::from_ints(seg_start.x, seg_start.y));
    }
    if is_equal(o2) {
        return LineIntersection::Point(RationalPoint::from_ints(seg_end.x, seg_end.y));
    }
    match line_crossing(line_point, line_dir, seg_start, seg_end) {
        Some(pt) => LineIntersection::Point(pt),
        None => LineIntersection::NoIntersection,
    }
}

// ---------------------------------------------------------------------------
// Ray-segment intersection
// ---------------------------------------------------------------------------

/// Dot product `(p - o) . d`: proportional to the ray parameter of `p`.
pub open spec fn ray_dot(o: Point2<i64>, d: Vector2<i64>, p: Point2<i64>) -> int {
    (p.x - o.x) * d.x + (p.y - o.y) * d.y
}

/// `ray_dot` and its parts fit their machine types (the differences in `i64`).
pub open spec fn ray_dot_fits(o: Point2<i64>, d: Vector2<i64>, p: Point2<i64>) -> bool {
    &&& i64::MIN <= p.x - o.x <= i64::MAX && i64::MIN <= p.y - o.y <= i64::MAX
    &&& fits_i128((p.x - o.x) * d.x) && fits_i128((p.y - o.y) * d.y) && fits_i128(ray_dot(o, d, p))
}

/// Ray numerator `(s1 - o) x (s2 - s1)`.
pub open spec fn ray_numer(o: Point2<i64>, s1: Point2<i64>, s2: Point2<i64>) -> int {
    (s1.x - o.x) * (s2.y - s1.y) - (s1.y - o.y) * (s2.x - s1.x)
}

/// The ray parameter `t_numer / denom` is non-negative.
pub open spec fn ray_param_nonneg(numer: int, denom: int) -> bool {
    (numer >= 0 && denom > 0) || (numer <= 0 && denom < 0)
}

/// The point `o + (t_numer / denom) d` where the ray meets the segment's line.
pub open spec fn ray_crossing_point(o: Point2<i64>, d: Vector2<i64>, s1: Point2<i64>, s2: Point2<i64>) -> RationalPoint {
    param_point(o.x as int, o.y as int, d.x as int, d.y as int, ray_numer(o, s1, s2), dir_cross(d, s1, s2))
}

/// Classification of a segment collinear with a ray.
pub open spec fn collinear_ray_class(
    o: Point2<i64>,
    d: Vector2<i64>,
    s1: Point2<i64>,
    s2: Point2<i64>,
) -> RayIntersection {
    let t1 = ray_dot(o, d, s1);
    let t2 = ray_dot(o, d, s2);
    if t1 < 0 && t2 < 0 {
        RayIntersection::CollinearDisjoint
    } else {
        RayIntersection::CollinearOverlap
    }
}

/// Every intermediate value of `ray_segment_intersection` fits its machine type.
pub open spec fn ray_fits(o: Point2<i64>, d: Vector2<i64>, s1: Point2<i64>, s2: Point2<i64>) -> bool {
    let q = offset_point(o, d);
    let o1 = sign_of(orient2d_det(o, q, s1));
    let o2 = sign_of(orient2d_det(o, q, s2));
    &&& offset_fits(o, d)
    &&& orient2d_fits(o, q, s1)
    &&& orient2d_fits(o, q, s2)
    &&& (o1 == Ordering::Equal && o2 == Ordering::Equal) ==> ray_dot_fits(o, d, s1) && ray_dot_fits(
        o,
        d,
        s2,
    )
    &&& !(o1 == Ordering::Equal && o2 == Ordering::Equal) ==> {
        &&& fits_i128(d.x * (s2.y - s1.y)) && fits_i128(d.y * (s2.x - s1.x))
        &&& fits_i128(dir_cross(d, s1, s2))
        &&& fits_i128((s1.x - o.x) * (s2.y - s1.y)) && fits_i128((s1.y - o.y) * (s2.x - s1.x))
        &&& fits_i128(ray_numer(o, s1, s2))
        &&& o1 == Ordering::Equal ==> ray_dot_fits(o, d, s1)
        &&& o2 == Ordering::Equal ==> ray_dot_fits(o, d, s2)
        &&& ray_crossing_fits(o, d, s1, s2)
    }
}

/// The arithmetic of `ray_crossing_point` fits in `i128`.
pub open spec fn ray_crossing_fits(o: Point2<i64>, d: Vector2<i64>, s1: Point2<i64>, s2: Point2<i64>) -> bool {
    param_fits(o.x as int, o.y as int, d.x as int, d.y as int, ray_numer(o, s1, s2), dir_cross(d, s1, s2))
}

/// The classification computed by `ray_segment_intersection`.
pub open spec fn ray_segment_intersection_spec(
    o: Point2<i64>,
    d: Vector2<i64>,
    s1: Point2<i64>,
    s2: Point2<i64>,
) -> RayIntersection {
    let q = offset_point(o, d);
    let o1 = sign_of(orient2d_det(o, q, s1));
    let o2 = sign_of(orient2d_det(o, q, s2));
    if (o1 == Ordering::Greater && o2 == Ordering::Greater) || (o1 == Ordering::Less && o2
        == Ordering::Less) {
        RayIntersection::NoIntersection
    } else if o1 == Ordering::Equal && o2 == Ordering::Equal {
        collinear_ray_class(o, d, s1, s2)
    } else if dir_cross(d, s1, s2) == 0 {
        RayIntersection::NoIntersection
    } else if !ray_param_nonneg(ray_numer(o, s1, s2), dir_cross(d, s1, s2)) {
        RayIntersection::NoIntersection
    } else if o1 == Ordering::Equal {
        if ray_dot(o, d, s1) >= 0 {
            RayIntersection::Point(rational_point_of(s1.x, s1.y))
        } else {
            RayIntersection::NoIntersection
        }
    } else if o2 == Ordering::Equal {
        if ray_dot(o, d, s2) >= 0 {
            RayIntersection::Point(rational_point_of(s2.x, s2.y))
        } else {
            RayIntersection::NoIntersection
        }
    } else {
        RayIntersection::Point(ray_crossing_point(o, d, s1, s2))
    }
}

/// The ray denominator `d x (s2 - s1)` and numerator `(s1 - o) x (s2 - s1)`.
fn ray_terms(o: Point2<i64>, d: Vector2<i64>, s1: Point2<i64>, s2: Point2<i64>) -> (r: (i128, i128))
    requires
        fits_i128(d.x * (s2.y - s1.y)),
        fits_i128(d.y * (s2.x - s1.x)),
        fits_i128(dir_cross(d, s1, s2)),
        fits_i128((s1.x - o.x) * (s2.y - s1.y)),
        fits_i128((s1.y - o.y) * (s2.x - s1.x)),
        fits_i128(ray_numer(o, s1, s2)),
    ensures
        r.0 == dir_cross(d, s1, s2),
        r.1 == ray_numer(o, s1, s2),
{
    let rox = o.x as i128;
    let roy = o.y as i128;
    let rdx = d.x as i128;
    let rdy = d.y as i128;
    let s1x = s1.x as i128;
    let s1y = s1.y as i128;
    let s2x = s2.x as i128;
    let s2y = s2.y as i128;
    let sdx = s2x - s1x;
    let sdy = s2y - s1y;
    (rdx * sdy - rdy * sdx, (s1x - rox) * sdy - (s1y - roy) * sdx)
}

/// Builds the ray point `o + (t_numer / denom) d`.
fn ray_point(o: Point2<i64>, d: Vector2<i64>, t_numer: i128, denom: i128) -> (r: RationalPoint)
    requires
        denom != 0,
        param_fits(o.x as int, o.y as int, d.x as int, d.y as int, t_numer as int, denom as int),
    ensures
        r == param_point(o.x as int, o.y as int, d.x as int, d.y as int, t_numer as int, denom as int),
{
    make_param_point(o.x as i128, o.y as i128, d.x as i128, d.y as i128, t_numer, denom)
}

/// Computes the intersection of a ray (origin `ray_origin`, direction `ray_dir`)
/// and the segment `seg_start-seg_end`.
pub fn ray_segment_intersection(
    ray_origin: Point2<i64>,
    ray_dir: Vector2<i64>,
    seg_start: Point2<i64>,
    seg_end: Point2<i64>,
) -> (r: RayIntersection)
    requires
        ray_fits(ray_origin, ray_dir, seg_start, seg_end),
    ensures
        r == ray_segment_intersection_spec(ray_origin, ray_dir, seg_start, seg_end),
{
    let ray_point2 = make_offset_point(ray_origin, ray_dir);
    let o1 = orient2d(ray_origin, ray_point2, seg_start);
    let o2 = orient2d(ray_origin, ray_point2, seg_end);

    let both_above = match (o1, o2) {
        (Ordering::Greater, Ordering::Greater) => true,
        _ => false,
    };
    let both_below = match (o1, o2) {
        (Ordering::Less, Ordering::Less) => true,
        _ => false,
    };
    if both_above || both_below {
        return RayIntersection::NoIntersection;
    }
    if is_equal(o1) && is_equal(o2) {
        return check_collinear_ray_segment(ray_origin, ray_dir, seg_start, seg_end);
    }
    let (denom, t_numer) = ray_terms(ray_origin, ray_dir, seg_start, seg_end);
    if denom == 0 {
        return RayIntersection::NoIntersection;
    }
    let t_positive = (t_numer >= 0 && denom > 0) || (t_numer <= 0 && denom < 0);
    if !t_positive {
        return RayIntersection::NoIntersection;
    }
    if is_equal(o1) {
        if point_in_ray_direction(ray_origin, ray_dir, seg_start) {
            return RayIntersection::Point(RationalPoint::from_ints(seg_start.x, seg_start.y));
        }
        return RayIntersection::NoIntersection;
    }
    if is_equal(o2) {
        if point_in_ray_direction(ray_origin, ray_dir, seg_end) {
            return RayIntersection::Point(RationalPoint::from_ints(seg_end.x, seg_end.y));
        }
        return RayIntersection::NoIntersection;
    }
    RayIntersection::Point(ray_point(ray_origin, ray_dir, t_numer, denom))
}

/// Whether `p` lies in the direction of the ray from its origin (non-negative dot product).
fn point_in_ray_direction(ray_origin: Point2<i64>, ray_dir: Vector2<i64>, p: Point2<i64>) -> (r:
    bool)
    requires
        ray_dot_fits(ray_origin, ray_dir, p),
    ensures
        r == (ray_dot(ray_origin, ray_dir, p) >= 0),
{
    project_onto_ray(ray_origin, ray_dir, p) >= 0
}

/// Handles a segment collinear with the ray.
fn check_collinear_ray_segment(
    ray_origin: Point2<i64>,
    ray_dir: Vector2<i64>,
    seg_start: Point2<i64>,
    seg_end: Point2<i64>,
) -> (r: RayIntersection)
    requires
        ray_dot_fits(ray_origin, ray_dir, seg_start),
        ray_dot_fits(ray_origin, ray_dir, seg_end),
    ensures
        r == collinear_ray_class(ray_origin, ray_dir, seg_start, seg_end),
{
    let t_start = project_onto_ray(ray_origin, ray_dir, seg_start);
    let t_end = project_onto_ray(ray_origin, ray_dir, seg_end);
    let (t_min, t_max) = if t_start <= t_end {
        (t_start, t_end)
    } else {
        (t_end, t_start)
    };
    if t_max < 0 {
        // segment entirely behind the ray
        RayIntersection::CollinearDisjoint
    } else if t_min > 0 || t_max > 0 {
        RayIntersection::CollinearOverlap
    } else {
        // the segment ends at the ray origin
        RayIntersection::CollinearOverlap
    }
}

/// Projects `p` onto the ray's parametric line (unnormalized dot product).
fn project_onto_ray(ray_origin: Point2<i64>, ray_dir: Vector2<i64>, p: Point2<i64>) -> (r: i128)
    requires
        ray_dot_fits(ray_origin, ray_dir, p),
    ensures
        r == ray_dot(ray_origin, ray_dir, p),
{
    let dx = (p.x - ray_origin.x) as i128;
    let dy = (p.y - ray_origin.y) as i128;
    let rdx = ray_dir.x as i128;
    let rdy = ray_dir.y as i128;
    dx * rdx + dy * rdy
}

// ---------------------------------------------------------------------------
// Point-in-polygon
// ---------------------------------------------------------------------------

/// `p` lies on the closed segment `v1-v2`.
pub open spec fn on_segment<T: Widen>(p: Point2<T>, v1: Point2<T>, v2: Point2<T>) -> bool {
    let (x1, x2, y1, y2) = (v1.x.value(), v2.x.value(), v1.y.value(), v2.y.value());
    let min_x = if x1 <= x2 {
        x1
    } else {
        x2
    };
    let max_x = if x1 <= x2 {
        x2
    } else {
        x1
    };
    let min_y = if y1 <= y2 {
        y1
    } else {
        y2
    };
    let max_y = if y1 <= y2 {
        y2
    } else {
        y1
    };
    &&& orient2d_det(v1, v2, p) == 0
    &&& min_x <= p.x.value() <= max_x
    &&& min_y <= p.y.value() <= max_y
}

/// The horizontal ray from `p` to the right crosses edge `v1-v2`
/// (half-open in `y`, so a vertex is counted once).
pub open spec fn edge_crosses<T: Widen>(p: Point2<T>, v1: Point2<T>, v2: Point2<T>) -> bool {
    let (y1, y2, py) = (v1.y.value(), v2.y.value(), p.y.value());
    let spans_y = (y1 <= py && y2 > py) || (y2 <= py && y1 > py);
    spans_y && (if y1 < y2 {
        orient2d_det(v1, v2, p) > 0
    } else {
        orient2d_det(v1, v2, p) < 0
    })
}

/// The `i`-th edge of a closed polygon.
pub open spec fn edge_end<T>(poly: Seq<Point2<T>>, i: int) -> Point2<T> {
    poly[(i + 1) % (poly.len() as int)]
}

/// Number of the first `k` edges of `poly` that the ray from `p` crosses.
pub open spec fn crossing_count<T: Widen>(p: Point2<T>, poly: Seq<Point2<T>>, k: int) -> nat
    decreases k,
{
    if k <= 0 {
        0
    } else {
        crossing_count(p, poly, k - 1) + if edge_crosses(p, poly[k - 1], edge_end(poly, k - 1)) {
            1nat
        } else {
            0nat
        }
    }
}

/// `p` lies on one of the first `k` edges of `poly`.
pub open spec fn on_some_edge<T: Widen>(p: Point2<T>, poly: Seq<Point2<T>>, k: int) -> bool {
    exists|i: int| 0 <= i < k && #[trigger] on_segment(p, poly[i], edge_end(poly, i))
}

/// Containment of `p` in the polygon `poly` by the even-odd rule.
pub open spec fn polygon_containment<T: Widen>(p: Point2<T>, poly: Seq<Point2<T>>) -> Containment {
    if poly.len() < 3 {
        Containment::Outside
    } else if on_some_edge(p, poly, poly.len() as int) {
        Containment::OnBoundary
    } else if crossing_count(p, poly, poly.len() as int) % 2 == 1 {
        Containment::Inside
    } else {
        Containment::Outside
    }
}

/// Each edge's orientation test against `p` fits the wide type.
pub open spec fn polygon_fits<T: Widen>(p: Point2<T>, poly: Seq<Point2<T>>) -> bool {
    forall|i: int| 0 <= i < poly.len() ==> #[trigger] orient2d_fits(poly[i], edge_end(poly, i), p)
}

/// Tests if a point lies inside, outside, or on the boundary of a simple polygon
/// (vertices in either order), by ray casting with exact predicates.
pub fn point_in_polygon<T: Widen>(p: Point2<T>, polygon: &[Point2<T>]) -> (r: Containment)
    requires
        polygon_fits(p, polygon@),
    ensures
        r == polygon_containment(p, polygon@),
{
    let n = polygon.len();
    if n < 3 {
        return Containment::Outside;
    }
    let mut crossings: usize = 0;
    let mut i: usize = 0;
    while i < n
        invariant
            n == polygon@.len(),
            n >= 3,
            i <= n,
            polygon_fits(p, polygon@),
            crossings == crossing_count(p, polygon@, i as int),
            crossings <= i,
            !on_some_edge(p, polygon@, i as int),
        decreases n - i,
    {
        let v1 = polygon[i];
        let v2 = polygon[(i + 1) % n];
        proof {
            assert(orient2d_fits(polygon@[i as int], edge_end(polygon@, i as int), p));
            assert(v2 == edge_end(polygon@, i as int));
        }
        if point_on_segment(p, v1, v2) {
            proof {
                assert(on_segment(p, polygon@[i as int], edge_end(polygon@, i as int)));
            }
            return Containment::OnBoundary;
        }
        if edge_crossing(p, v1, v2) {
            crossings = crossings + 1;
        }
        proof {
            assert forall|j: int| 0 <= j < i + 1 implies !#[trigger] on_segment(
                p,
                polygon@[j],
                edge_end(polygon@, j),
            ) by {
                if j < i {
                    assert(!on_some_edge(p, polygon@, i as int));
                }
            }
        }
        i = i + 1;
    }
    if crossings % 2 == 1 {
        Containment::Inside
    } else {
        Containment::Outside
    }
}

/// Whether the horizontal ray from `p` to the right crosses edge `v1-v2`.
fn edge_crossing<T: Widen>(p: Point2<T>, v1: Point2<T>, v2: Point2<T>) -> (r: bool)
    requires
        orient2d_fits(v1, v2, p),
    ensures
        r == edge_crosses(p, v1, v2),
{
    let y1 = v1.y;
    let y2 = v2.y;
    let py = p.y;
    let spans_y = (y1.narrow_le(&py) && !y2.narrow_le(&py)) || (y2.narrow_le(&py) && !y1.narrow_le(
        &py,
    ));
    if !spans_y {
        return false;
    }
    let orientation = orient2d(v1, v2, p);
    if y1.narrow_lt(&y2) {
        match orientation {
            Ordering::Greater => true,
            _ => false,
        }
    } else {
        match orientation {
            Ordering::Less => true,
            _ => false,
        }
    }
}

/// Checks whether `p` lies on the closed segment `v1-v2`.
fn point_on_segment<T: Widen>(p: Point2<T>, v1: Point2<T>, v2: Point2<T>) -> (r: bool)
    requires
        orient2d_fits(v1, v2, p),
    ensures
        r == on_segment(p, v1, v2),
{
    if !is_equal(orient2d(v1, v2, p)) {
        return false;
    }
    let (min_x, max_x) = if v1.x.narrow_le(&v2.x) {
        (v1.x, v2.x)
    } else {
        (v2.x, v1.x)
    };
    let (min_y, max_y) = if v1.y.narrow_le(&v2.y) {
        (v1.y, v2.y)
    } else {
        (v2.y, v1.y)
    };
    min_x.narrow_le(&p.x) && p.x.narrow_le(&max_x) && min_y.narrow_le(&p.y) && p.y.narrow_le(&max_y)
}

// ---------------------------------------------------------------------------
// Laws
// ---------------------------------------------------------------------------

/// Squared distance is symmetric, non-negative, and zero from a point to itself
/// (in 2D and in 3D).
pub proof fn lemma_distance_laws<T: Widen>(a: Point2<T>, b: Point2<T>, p: Point3<i64>, q: Point3<i64>)
    ensures
        dist2(a, b) == dist2(b, a),
        dist2(a, b) >= 0,
        dist2(a, a) == 0,
        dist2_3d(p, q) == dist2_3d(q, p),
        dist2_3d(p, q) >= 0,
        dist2_3d(p, p) == 0,
{
    let (dx, dy) = (b.x.value() - a.x.value(), b.y.value() - a.y.value());
    assert(dx * dx == (-dx) * (-dx) && dy * dy == (-dy) * (-dy)) by (nonlinear_arith);
    assert(dx * dx >= 0 && dy * dy >= 0) by (nonlinear_arith);
    let (ex, ey, ez) = (q.x - p.x, q.y - p.y, q.z - p.z);
    assert(ex * ex == (-ex) * (-ex) && ey * ey == (-ey) * (-ey) && ez * ez == (-ez) * (-ez)) by (nonlinear_arith);
    assert(ex * ex >= 0 && ey * ey >= 0 && ez * ez >= 0) by (nonlinear_arith);
}

/// Every vertex of a polygon with at least three vertices lies on its boundary.
pub proof fn lemma_vertex_on_boundary<T: Widen>(poly: Seq<Point2<T>>, i: int)
    requires
        poly.len() >= 3,
        0 <= i < poly.len(),
    ensures
        polygon_containment(poly[i], poly) == Containment::OnBoundary,
{
    let v1 = poly[i];
    let v2 = edge_end(poly, i);
    assert(orient2d_det(v1, v2, v1) == 0) by (nonlinear_arith);
    assert(on_segment(v1, v1, v2));
}

/// A triangle's vertex lies on the triangle's boundary.
pub proof fn lemma_triangle_vertex_on_boundary<T: Widen>(a: Point2<T>, b: Point2<T>, c: Point2<T>)
    ensures
        triangle_class(
            sign_of(orient2d_det(a, b, a)),
            sign_of(orient2d_det(b, c, a)),
            sign_of(orient2d_det(c, a, a)),
        ) == Containment::OnBoundary,
{
    assert(orient2d_det(a, b, a) == 0) by (nonlinear_arith);
    assert(orient2d_det(c, a, a) == 0) by (nonlinear_arith);
}

/// Shoelace sum of the first `k` edges of `poly`, not closing the polygon:
/// the terms for `poly[j]`, `poly[j + 1]` with `j < k`.
pub open spec fn open_chain_sum(poly: Seq<Point2<i64>>, k: int) -> int
    decreases k,
{
    if k <= 0 {
        0
    } else {
        open_chain_sum(poly, k - 1) + shoelace_term(poly[k - 1], poly[k])
    }
}

/// Below the last vertex, the closed and open sums agree.
proof fn lemma_chain_prefix(poly: Seq<Point2<i64>>, k: int)
    requires
        0 <= k < poly.len(),
    ensures
        shoelace_sum(poly, k) == open_chain_sum(poly, k),
    decreases k,
{
    if k > 0 {
        lemma_chain_prefix(poly, k - 1);
        assert(k % (poly.len() as int) == k) by {
            vstd::arithmetic::div_mod::lemma_small_mod(k as nat, poly.len());
        }
    }
}

/// The open sum of the reversed polygon telescopes against the original.
proof fn lemma_reversed_chain(poly: Seq<Point2<i64>>, k: int)
    requires
        poly.len() >= 1,
        0 <= k < poly.len(),
    ensures
        open_chain_sum(poly.reverse(), k) == open_chain_sum(poly, poly.len() - 1 - k) - open_chain_sum(
            poly,
            poly.len() - 1,
        ),
    decreases k,
{
    let n = poly.len() as int;
    let r = poly.reverse();
    if k > 0 {
        lemma_reversed_chain(poly, k - 1);
        let j = n - 1 - k;
        assert(r[k - 1] == poly[j + 1]);
        assert(r[k] == poly[j]);
        assert(shoelace_term(poly[j + 1], poly[j]) == -shoelace_term(poly[j], poly[j + 1]));
    }
}

/// Reversing a polygon negates its signed area: `polygon_area_2x` of the
/// reversed vertex list is the negation of that of the polygon as given.
pub proof fn lemma_reversed_area(poly: Seq<Point2<i64>>)
    ensures
        shoelace_sum(poly.reverse(), poly.len() as int) == -shoelace_sum(poly, poly.len() as int),
{
    let n = poly.len() as int;
    if n == 0 {
    } else {
        let r = poly.reverse();
        lemma_chain_prefix(poly, n - 1);
        lemma_chain_prefix(r, n - 1);
        lemma_reversed_chain(poly, n - 1);
        assert(n % n == 0) by {
            vstd::arithmetic::div_mod::lemma_mod_self_0(n);
        }
        assert(r[n - 1] == poly[0]);
        assert(r[0] == poly[n - 1]);
        assert(shoelace_term(poly[0], poly[n - 1]) == -shoelace_term(poly[n - 1], poly[0]));
        assert(shoelace_sum(r, n) == shoelace_sum(r, n - 1) + shoelace_term(r[n - 1], r[0]));
        assert(shoelace_sum(poly, n) == shoelace_sum(poly, n - 1) + shoelace_term(poly[n - 1], poly[0]));
    }
}

/// The point `o + (numer / denom) * d` lies on the line through `o` with
/// direction `d`, and, when `numer` and `denom` are the crossing parameters
/// of that line with the line through `b` with direction `u`, on that line too
/// (both stated with the point's numerators over its denominator `|denom|`).
proof fn lemma_param_on_lines(ox: int, oy: int, dx: int, dy: int, bx: int, by: int, ux: int, uy: int, numer: int, denom: int)
    requires
        denom != 0,
        denom == dx * uy - dy * ux,
        numer == (bx - ox) * uy - (by - oy) * ux,
    ensures
        dx * (param_num(oy, dy, numer, denom) - oy * abs_int(denom)) - dy * (param_num(ox, dx, numer, denom) - ox
            * abs_int(denom)) == 0,
        ux * (param_num(oy, dy, numer, denom) - by * abs_int(denom)) - uy * (param_num(ox, dx, numer, denom) - bx
            * abs_int(denom)) == 0,
{
    let big_a = (oy - by) * denom + numer * dy;
    let big_b = (ox - bx) * denom + numer * dx;
    // along the second line: ux * big_a - uy * big_b == 0
    assert(ux * big_a == ux * ((oy - by) * denom) + ux * (numer * dy)) by (nonlinear_arith)
        requires
            big_a == (oy - by) * denom + numer * dy,
    ;
    assert(uy * big_b == uy * ((ox - bx) * denom) + uy * (numer * dx)) by (nonlinear_arith)
        requires
            big_b == (ox - bx) * denom + numer * dx,
    ;
    crate::predicates::lemma_triple(ux, oy - by, denom);
    crate::predicates::lemma_triple(uy, ox - bx, denom);
    crate::predicates::lemma_triple(ux, numer, dy);
    crate::predicates::lemma_triple(uy, numer, dx);
    crate::predicates::lemma_distribute(denom, ux * (oy - by), uy * (ox - bx));
    crate::predicates::lemma_distribute(numer, ux * dy, uy * dx);
    assert(ux * (oy - by) - uy * (ox - bx) == numer) by (nonlinear_arith)
        requires
            numer == (bx - ox) * uy - (by - oy) * ux,
    ;
    assert(ux * dy - uy * dx == -denom) by (nonlinear_arith)
        requires
            denom == dx * uy - dy * ux,
    ;
    assert(denom * numer + numer * (-denom) == 0) by (nonlinear_arith);
    assert(ux * big_a - uy * big_b == 0);
    // along the first line: dx * (numer * dy) - dy * (numer * dx) == 0
    crate::predicates::lemma_triple(dx, numer, dy);
    crate::predicates::lemma_triple(dy, numer, dx);
    assert(dy * dx == dx * dy) by (nonlinear_arith);
    assert(dx * (numer * dy) - dy * (numer * dx) == 0);
    // distribute the denominator
    assert((oy - by) * denom == oy * denom - by * denom) by (nonlinear_arith);
    assert((ox - bx) * denom == ox * denom - bx * denom) by (nonlinear_arith);
    if denom > 0 {
        assert(param_num(oy, dy, numer, denom) - oy * abs_int(denom) == numer * dy);
        assert(param_num(ox, dx, numer, denom) - ox * abs_int(denom) == numer * dx);
        assert(param_num(oy, dy, numer, denom) - by * abs_int(denom) == big_a);
        assert(param_num(ox, dx, numer, denom) - bx * abs_int(denom) == big_b);
    } else {
        assert(oy * (-denom) == -(oy * denom)) by (nonlinear_arith);
        assert(ox * (-denom) == -(ox * denom)) by (nonlinear_arith);
        assert(by * (-denom) == -(by * denom)) by (nonlinear_arith);
        assert(bx * (-denom) == -(bx * denom)) by (nonlinear_arith);
        assert(param_num(oy, dy, numer, denom) - oy * abs_int(denom) == -(numer * dy));
        assert(param_num(ox, dx, numer, denom) - ox * abs_int(denom) == -(numer * dx));
        assert(param_num(oy, dy, numer, denom) - by * abs_int(denom) == -big_a);
        assert(param_num(ox, dx, numer, denom) - bx * abs_int(denom) == -big_b);
        assert(ux * (-big_a) - uy * (-big_b) == -(ux * big_a - uy * big_b)) by (nonlinear_arith);
        assert(dx * (-(numer * dy)) - dy * (-(numer * dx)) == -(dx * (numer * dy) - dy * (numer * dx)))
            by (nonlinear_arith);
    }
}

/// A point reported by `segment_intersection` lies on the line through each
/// of the two segments.
pub proof fn lemma_segment_point_on_lines(a1: Point2<i64>, a2: Point2<i64>, b1: Point2<i64>, b2: Point2<i64>)
    requires
        segment_fits(a1, a2, b1, b2),
    ensures
        segment_intersection_spec(a1, a2, b1, b2) is Point ==> {
            let p = segment_intersection_spec(a1, a2, b1, b2)->Point_0;
            on_line(a1, a2, p) && on_line(b1, b2, p)
        },
{
    assert(orient2d_det(a1, a2, a1) == 0) by (nonlinear_arith);
    assert(orient2d_det(a1, a2, a2) == 0) by (nonlinear_arith);
    assert(orient2d_det(b1, b2, b1) == 0) by (nonlinear_arith);
    assert(orient2d_det(b1, b2, b2) == 0) by (nonlinear_arith);
    if proper_crossing(a1, a2, b1, b2) {
        lemma_proper_crossing_denom(a1, a2, b1, b2);
        let denom = seg_denom(a1, a2, b1, b2);
        let numer = seg_numer(a1, a2, b1, b2);
        lemma_param_on_lines(
            a1.x as int,
            a1.y as int,
            a2.x - a1.x,
            a2.y - a1.y,
            b1.x as int,
            b1.y as int,
            b2.x - b1.x,
            b2.y - b1.y,
            numer,
            denom,
        );
        let p = crossing_point(a1, a2, b1, b2);
        assert(p.x.num == param_num(a1.x as int, a2.x - a1.x, numer, denom));
        assert(p.y.num == param_num(a1.y as int, a2.y - a1.y, numer, denom));
        assert(p.x.denom == abs_int(denom));
        assert(p.y.denom == abs_int(denom));
        assert(on_line(a1, a2, p));
        assert(on_line(b1, b2, p));
    } else {
        lemma_endpoint_on_lines(a1, a2, b1, b2, b1);
        lemma_endpoint_on_lines(a1, a2, b1, b2, b2);
        lemma_endpoint_on_lines(b1, b2, a1, a2, a1);
        lemma_endpoint_on_lines(b1, b2, a1, a2, a2);
    }
}

/// Collinear offsets `u1`, `u2` from a point of the line through `db`'s
/// segment, whose ends lie on different sides of that line (or one on it),
/// point in opposite directions: their `x` components do not share a sign.
proof fn lemma_straddle_opposite(u1x: int, u1y: int, u2x: int, u2y: int, dbx: int, dby: int)
    requires
        u1x * u2y - u1y * u2x == 0,
        !(dbx * u1y - dby * u1x > 0 && dbx * u2y - dby * u2x > 0),
        !(dbx * u1y - dby * u1x < 0 && dbx * u2y - dby * u2x < 0),
        !(dbx * u1y - dby * u1x == 0 && dbx * u2y - dby * u2x == 0),
    ensures
        u1x * u2x <= 0,
{
    let o3 = dbx * u1y - dby * u1x;
    let o4 = dbx * u2y - dby * u2x;
    assert(o3 * u2x == o4 * u1x) by (nonlinear_arith)
        requires
            o3 == dbx * u1y - dby * u1x,
            o4 == dbx * u2y - dby * u2x,
            u1x * u2y - u1y * u2x == 0,
    ;
    if o3 == 0 {
        assert(o4 != 0);
        assert(o3 * u2x == 0) by (nonlinear_arith)
            requires
                o3 == 0,
        ;
        assert(u1x == 0) by (nonlinear_arith)
            requires
                o4 * u1x == 0,
                o4 != 0,
        ;
        assert(u1x * u2x == 0) by (nonlinear_arith)
            requires
                u1x == 0,
        ;
    } else if o4 == 0 {
        assert(o4 * u1x == 0) by (nonlinear_arith)
            requires
                o4 == 0,
        ;
        assert(u2x == 0) by (nonlinear_arith)
            requires
                o3 * u2x == 0,
                o3 != 0,
        ;
        assert(u1x * u2x == 0) by (nonlinear_arith)
            requires
                u2x == 0,
        ;
    } else {
        assert(o3 * o4 < 0) by (nonlinear_arith)
            requires
                (o3 > 0 && o4 < 0) || (o3 < 0 && o4 > 0),
        ;
        assert(u1x * u2x <= 0) by (nonlinear_arith)
            requires
                o3 * u2x == o4 * u1x,
                o3 * o4 < 0,
                o3 != 0,
        {
            assert(o3 * o3 * (u1x * u2x) == (o3 * o4) * (u1x * u1x));
            assert(o3 * o3 > 0);
            assert(u1x * u1x >= 0);
        }
    }
}

/// The crossing point that `segment_intersection` reports lies within the
/// `x`-range of the first segment `a1`-`a2`.
pub proof fn lemma_segment_point_x_within(a1: Point2<i64>, a2: Point2<i64>, b1: Point2<i64>, b2: Point2<i64>)
    requires
        segment_fits(a1, a2, b1, b2),
    ensures
        segment_intersection_spec(a1, a2, b1, b2) is Point ==> {
            let p = segment_intersection_spec(a1, a2, b1, b2)->Point_0;
            &&& p.x.denom > 0
            &&& a1.x <= a2.x ==> a1.x * p.x.denom <= p.x.num <= a2.x * p.x.denom
            &&& a2.x <= a1.x ==> a2.x * p.x.denom <= p.x.num <= a1.x * p.x.denom
        },
{
    let (a1x, a1y, a2x, a2y) = (a1.x as int, a1.y as int, a2.x as int, a2.y as int);
    let (b1x, b1y, b2x, b2y) = (b1.x as int, b1.y as int, b2.x as int, b2.y as int);
    let o1 = orient2d_det(a1, a2, b1);
    let o2 = orient2d_det(a1, a2, b2);
    let o3 = orient2d_det(b1, b2, a1);
    let o4 = orient2d_det(b1, b2, a2);
    if segment_intersection_spec(a1, a2, b1, b2) is Point {
        assert(!(o3 > 0 && o4 > 0) && !(o3 < 0 && o4 < 0) && !(o3 == 0 && o4 == 0));
        if o1 == 0 || o2 == 0 {
            // the reported point is `b1` (or `b2`), on the line through `a1`, `a2`
            let q = if o1 == 0 { b1 } else { b2 };
            let (qx, qy) = (q.x as int, q.y as int);
            assert(orient2d_det(a1, a2, q) == 0);
            assert((a1x - qx) * (a2y - qy) - (a1y - qy) * (a2x - qx) == 0) by (nonlinear_arith)
                requires
                    (a2x - a1x) * (qy - a1y) - (a2y - a1y) * (qx - a1x) == 0,
            ;
            assert(o3 == (b2x - b1x) * (a1y - qy) - (b2y - b1y) * (a1x - qx)) by (nonlinear_arith)
                requires
                    o3 == (b2x - b1x) * (a1y - b1y) - (b2y - b1y) * (a1x - b1x),
                    qx == b1x && qy == b1y || qx == b2x && qy == b2y,
            ;
            assert(o4 == (b2x - b1x) * (a2y - qy) - (b2y - b1y) * (a2x - qx)) by (nonlinear_arith)
                requires
                    o4 == (b2x - b1x) * (a2y - b1y) - (b2y - b1y) * (a2x - b1x),
                    qx == b1x && qy == b1y || qx == b2x && qy == b2y,
            ;
            lemma_straddle_opposite(a1x - qx, a1y - qy, a2x - qx, a2y - qy, b2x - b1x, b2y - b1y);
            assert((a1x <= qx && qx <= a2x) || (a2x <= qx && qx <= a1x)) by (nonlinear_arith)
                requires
                    (a1x - qx) * (a2x - qx) <= 0,
            ;
        } else if o3 == 0 || o4 == 0 {
        } else {
            // a proper crossing: the point is `a1 + (numer / denom) (a2 - a1)` with
            // `numer / denom` between 0 and 1
            lemma_proper_crossing_denom(a1, a2, b1, b2);
            let denom = seg_denom(a1, a2, b1, b2);
            let numer = seg_numer(a1, a2, b1, b2);
            assert(numer == o3) by (nonlinear_arith)
                requires
                    numer == (b1x - a1x) * (b2y - b1y) - (b1y - a1y) * (b2x - b1x),
                    o3 == (b2x - b1x) * (a1y - b1y) - (b2y - b1y) * (a1x - b1x),
            ;
            assert(denom == o3 - o4) by (nonlinear_arith)
                requires
                    denom == (a2x - a1x) * (b2y - b1y) - (a2y - a1y) * (b2x - b1x),
                    o3 == (b2x - b1x) * (a1y - b1y) - (b2y - b1y) * (a1x - b1x),
                    o4 == (b2x - b1x) * (a2y - b1y) - (b2y - b1y) * (a2x - b1x),
            ;
            let p = crossing_point(a1, a2, b1, b2);
            assert(p.x.num == param_num(a1x, a2x - a1x, numer, denom));
            assert(p.x.denom == abs_int(denom));
            let dx = a2x - a1x;
            if denom > 0 {
                assert(0 < numer < denom);
                assert(a1x * denom + numer * dx - a1x * denom == numer * dx) by (nonlinear_arith);
                assert(a2x * denom - (a1x * denom + numer * dx) == (denom - numer) * dx) by (nonlinear_arith)
                    requires
                        dx == a2x - a1x,
                ;
                if dx >= 0 {
                    assert(numer * dx >= 0) by (nonlinear_arith)
                        requires
                            numer > 0,
                            dx >= 0,
                    ;
                    assert((denom - numer) * dx >= 0) by (nonlinear_arith)
                        requires
                            denom - numer > 0,
                            dx >= 0,
                    ;
                } else {
                    assert(numer * dx <= 0) by (nonlinear_arith)
                        requires
                            numer > 0,
                            dx < 0,
                    ;
                    assert((denom - numer) * dx <= 0) by (nonlinear_arith)
                        requires
                            denom - numer > 0,
                            dx < 0,
                    ;
                }
            } else {
                assert(denom < numer < 0);
                assert(-(a1x * denom + numer * dx) - a1x * (-denom) == -(numer * dx)) by (nonlinear_arith);
                assert(a2x * (-denom) + (a1x * denom + numer * dx) == (numer - denom) * dx) by (nonlinear_arith)
                    requires
                        dx == a2x - a1x,
                ;
                if dx >= 0 {
                    assert(numer * dx <= 0) by (nonlinear_arith)
                        requires
                            numer < 0,
                            dx >= 0,
                    ;
                    assert((numer - denom) * dx >= 0) by (nonlinear_arith)
                        requires
                            numer - denom > 0,
                            dx >= 0,
                    ;
                } else {
                    assert(numer * dx >= 0) by (nonlinear_arith)
                        requires
                            numer < 0,
                            dx < 0,
                    ;
                    assert((numer - denom) * dx <= 0) by (nonlinear_arith)
                        requires
                            numer - denom > 0,
                            dx < 0,
                    ;
                }
            }
        }
    }
}

/// An endpoint `e` of segment `b1`-`b2` that lies on the line `a1`-`a2`
/// lies, as a rational point, on both lines.
proof fn lemma_endpoint_on_lines(a1: Point2<i64>, a2: Point2<i64>, b1: Point2<i64>, b2: Point2<i64>, e: Point2<i64>)
    requires
        e == b1 || e == b2,
    ensures
        orient2d_det(a1, a2, e) == 0 ==> on_line(a1, a2, rational_point_of(e.x, e.y)) && on_line(
            b1,
            b2,
            rational_point_of(e.x, e.y),
        ),
{
    let p = rational_point_of(e.x, e.y);
    assert(p.x.num == e.x && p.y.num == e.y && p.x.denom == 1 && p.y.denom == 1);
    assert((a2.x - a1.x) * (e.y - a1.y * 1) - (a2.y - a1.y) * (e.x - a1.x * 1) == orient2d_det(a1, a2, e));
    assert(orient2d_det(b1, b2, b1) == 0) by (nonlinear_arith);
    assert(orient2d_det(b1, b2, b2) == 0) by (nonlinear_arith);
    assert((b2.x - b1.x) * (e.y - b1.y * 1) - (b2.y - b1.y) * (e.x - b1.x * 1) == orient2d_det(b1, b2, e));
}

// ---------------------------------------------------------------------------
// Points on a segment
// ---------------------------------------------------------------------------

/// `g` is the fraction `m / s` (with `0 <= m <= s`) of `f`, so it lies between 0 and `f`.
proof fn lemma_between_ratio(s: int, m: int, g: int, f: int)
    by (nonlinear_arith)
    requires
        s > 0,
        0 <= m <= s,
        s * g == m * f,
    ensures
        f >= 0 ==> 0 <= g <= f,
        f <= 0 ==> f <= g <= 0,
{
}

/// An offset `w` between 0 and `u` has `0 <= w * u <= u * u`.
proof fn lemma_box_ratio(w: int, u: int)
    by (nonlinear_arith)
    requires
        (0 <= w <= u) || (u <= w <= 0),
    ensures
        0 <= w * u <= u * u,
        u != 0 ==> u * u > 0,
{
}

/// For `w` parallel to `u`, scaling the dot product of `w` with `d` by either
/// component of `u` is scaling that of `u` by the same component of `w`.
proof fn lemma_parallel_dot(ux: int, uy: int, wx: int, wy: int, dx: int, dy: int)
    requires
        ux * wy - uy * wx == 0,
    ensures
        ux * (wx * dx + wy * dy) == wx * (ux * dx + uy * dy),
        uy * (wx * dx + wy * dy) == wy * (ux * dx + uy * dy),
{
    assert(ux * (wx * dx + wy * dy) == (ux * wx) * dx + (ux * wy) * dy) by (nonlinear_arith);
    assert(wx * (ux * dx + uy * dy) == (wx * ux) * dx + (wx * uy) * dy) by (nonlinear_arith);
    assert(uy * (wx * dx + wy * dy) == (uy * wx) * dx + (uy * wy) * dy) by (nonlinear_arith);
    assert(wy * (ux * dx + uy * dy) == (wy * ux) * dx + (wy * uy) * dy) by (nonlinear_arith);
    assert(ux * wx == wx * ux && wx * uy == uy * wx && uy * wy == wy * uy && wy * ux == ux * wy) by (nonlinear_arith);
}

/// A point of the closed segment `v1-v2` has a ray parameter between those
/// of the segment's ends: `ray_dot` is affine along the segment.
pub proof fn lemma_on_segment_ray_dot(p: Point2<i64>, v1: Point2<i64>, v2: Point2<i64>, o: Point2<i64>, d: Vector2<i64>)
    requires
        on_segment(p, v1, v2),
    ensures
        (ray_dot(o, d, v1) <= ray_dot(o, d, p) <= ray_dot(o, d, v2)) || (ray_dot(o, d, v2) <= ray_dot(o, d, p)
            <= ray_dot(o, d, v1)),
{
    let (ux, uy) = (v2.x - v1.x, v2.y - v1.y);
    let (wx, wy) = (p.x - v1.x, p.y - v1.y);
    let (dx, dy) = (d.x as int, d.y as int);
    let f = ux * dx + uy * dy;
    let g = wx * dx + wy * dy;
    assert(ray_dot(o, d, v2) - ray_dot(o, d, v1) == f) by (nonlinear_arith)
        requires
            ux == v2.x - v1.x,
            uy == v2.y - v1.y,
            dx == d.x,
            dy == d.y,
            f == ux * dx + uy * dy,
    ;
    assert(ray_dot(o, d, p) - ray_dot(o, d, v1) == g) by (nonlinear_arith)
        requires
            wx == p.x - v1.x,
            wy == p.y - v1.y,
            dx == d.x,
            dy == d.y,
            g == wx * dx + wy * dy,
    ;
    assert(ux * wy - uy * wx == orient2d_det(v1, v2, p));
    lemma_parallel_dot(ux, uy, wx, wy, dx, dy);
    lemma_box_ratio(wx, ux);
    lemma_box_ratio(wy, uy);
    if ux != 0 {
        assert(ux * (ux * g) == ux * (wx * f));
        assert(ux * (ux * g) == (ux * ux) * g) by (nonlinear_arith);
        assert(ux * (wx * f) == (wx * ux) * f) by (nonlinear_arith);
        lemma_between_ratio(ux * ux, wx * ux, g, f);
    } else if uy != 0 {
        assert(uy * (uy * g) == uy * (wy * f));
        assert(uy * (uy * g) == (uy * uy) * g) by (nonlinear_arith);
        assert(uy * (wy * f) == (wy * uy) * f) by (nonlinear_arith);
        lemma_between_ratio(uy * uy, wy * uy, g, f);
    } else {
        assert(wx == 0 && wy == 0);
        assert(g == 0) by (nonlinear_arith)
            requires
                wx == 0,
                wy == 0,
                g == wx * dx + wy * dy,
        ;
        assert(f == 0) by (nonlinear_arith)
            requires
                ux == 0,
                uy == 0,
                f == ux * dx + uy * dy,
        ;
    }
}

/// Each end of a segment lies on it.
pub proof fn lemma_ends_on_segment(v1: Point2<i64>, v2: Point2<i64>)
    ensures
        on_segment(v1, v1, v2),
        on_segment(v2, v1, v2),
{
    assert(orient2d_det(v1, v2, v1) == 0) by (nonlinear_arith);
    assert(orient2d_det(v1, v2, v2) == 0) by (nonlinear_arith);
}

/// For a segment on the ray's line, the ray and the segment are reported
/// disjoint exactly when no point of the segment lies on the ray (each has a
/// negative ray parameter), and overlapping exactly when some point of the
/// segment does.
pub proof fn lemma_ray_collinear_class(o: Point2<i64>, d: Vector2<i64>, s1: Point2<i64>, s2: Point2<i64>)
    requires
        orient2d_det(o, offset_point(o, d), s1) == 0,
        orient2d_det(o, offset_point(o, d), s2) == 0,
    ensures
        (ray_segment_intersection_spec(o, d, s1, s2) == RayIntersection::CollinearDisjoint) == (forall|p: Point2<i64>|
            #[trigger] on_segment(p, s1, s2) ==> ray_dot(o, d, p) < 0),
        (ray_segment_intersection_spec(o, d, s1, s2) == RayIntersection::CollinearOverlap) == (exists|p: Point2<i64>|
            #[trigger] on_segment(p, s1, s2) && ray_dot(o, d, p) >= 0),
{
    lemma_ends_on_segment(s1, s2);
    assert(ray_segment_intersection_spec(o, d, s1, s2) == collinear_ray_class(o, d, s1, s2));
    if ray_dot(o, d, s1) < 0 && ray_dot(o, d, s2) < 0 {
        assert forall|p: Point2<i64>| #[trigger] on_segment(p, s1, s2) implies ray_dot(o, d, p) < 0 by {
            lemma_on_segment_ray_dot(p, s1, s2, o, d);
        }
    }
}

/// Two vectors parallel to a non-zero `u` are parallel to each other.
proof fn lemma_parallel_pair(ux: int, uy: int, px: int, py: int, qx: int, qy: int)
    requires
        ux != 0 || uy != 0,
        ux * py - uy * px == 0,
        ux * qy - uy * qx == 0,
    ensures
        px * qy - py * qx == 0,
{
    let c = px * qy - py * qx;
    assert(ux * c == px * (ux * qy) - (ux * py) * qx) by (nonlinear_arith)
        requires
            c == px * qy - py * qx,
    ;
    assert(uy * c == (uy * px) * qy - py * (uy * qx)) by (nonlinear_arith)
        requires
            c == px * qy - py * qx,
    ;
    assert(px * (uy * qx) == (uy * px) * qx) by (nonlinear_arith);
    assert(py * (ux * qy) == (ux * py) * qy) by (nonlinear_arith);
    assert(ux * c == 0);
    assert(uy * c == 0);
    assert(c == 0) by (nonlinear_arith)
        requires
            ux != 0 || uy != 0,
            ux * c == 0,
            uy * c == 0,
    ;
}

/// The cross product of `y - x` and `e - x`, expanded.
proof fn lemma_cross_shift(xx: int, xy: int, yx: int, yy: int, ex: int, ey: int)
    by (nonlinear_arith)
    ensures
        (yx - xx) * (ey - xy) - (yy - xy) * (ex - xx) == (yx * ey - yy * ex) - (yx * xy - yy * xx) - (xx * ey
            - xy * ex),
{
}

/// Three points on the line through two distinct points are collinear.
proof fn lemma_collinear_transfer(a1: Point2<i64>, a2: Point2<i64>, b1: Point2<i64>, b2: Point2<i64>, e: Point2<i64>)
    requires
        a1 != a2,
        orient2d_det(a1, a2, b1) == 0,
        orient2d_det(a1, a2, b2) == 0,
        orient2d_det(a1, a2, e) == 0,
    ensures
        orient2d_det(b1, b2, e) == 0,
{
    let (ux, uy) = (a2.x - a1.x, a2.y - a1.y);
    let (xx, xy) = (b1.x - a1.x, b1.y - a1.y);
    let (yx, yy) = (b2.x - a1.x, b2.y - a1.y);
    let (ex, ey) = (e.x - a1.x, e.y - a1.y);
    assert(ux != 0 || uy != 0);
    assert(ux * xy - uy * xx == 0);
    assert(ux * yy - uy * yx == 0);
    assert(ux * ey - uy * ex == 0);
    lemma_parallel_pair(ux, uy, yx, yy, ex, ey);
    lemma_parallel_pair(ux, uy, yx, yy, xx, xy);
    lemma_parallel_pair(ux, uy, xx, xy, ex, ey);
    lemma_cross_shift(xx, xy, yx, yy, ex, ey);
    assert(b2.x - b1.x == yx - xx && e.y - b1.y == ey - xy && b2.y - b1.y == yy - xy && e.x - b1.x == ex - xx);
    assert(orient2d_det(b1, b2, e) == (yx - xx) * (ey - xy) - (yy - xy) * (ex - xx));
}

/// A point on the line of `v1-v2` whose `x` (for a segment that is not
/// vertical) or `y` (for one that is not horizontal) lies between the ends'
/// lies on the segment.
proof fn lemma_on_line_box(e: Point2<i64>, v1: Point2<i64>, v2: Point2<i64>, use_x: bool)
    requires
        orient2d_det(v1, v2, e) == 0,
        use_x ==> v1.x != v2.x && ((v1.x <= e.x <= v2.x) || (v2.x <= e.x <= v1.x)),
        !use_x ==> v1.y != v2.y && ((v1.y <= e.y <= v2.y) || (v2.y <= e.y <= v1.y)),
    ensures
        on_segment(e, v1, v2),
{
    let (ux, uy) = (v2.x - v1.x, v2.y - v1.y);
    let (wx, wy) = (e.x - v1.x, e.y - v1.y);
    assert(ux * wy - uy * wx == 0);
    if use_x {
        lemma_box_ratio(wx, ux);
        assert((ux * ux) * wy == ux * (ux * wy)) by (nonlinear_arith);
        assert(ux * (uy * wx) == (wx * ux) * uy) by (nonlinear_arith);
        lemma_between_ratio(ux * ux, wx * ux, wy, uy);
    } else {
        lemma_box_ratio(wy, uy);
        assert((uy * uy) * wx == uy * (uy * wx)) by (nonlinear_arith);
        assert(uy * (ux * wy) == (wy * uy) * ux) by (nonlinear_arith);
        lemma_between_ratio(uy * uy, wy * uy, wx, ux);
    }
}

/// Segments reported as overlapping share a point, when the first is not a
/// single point; segments reported as collinear and disjoint share none.
pub proof fn lemma_segment_overlap_shares_point(a1: Point2<i64>, a2: Point2<i64>, b1: Point2<i64>, b2: Point2<i64>)
    ensures
        a1 != a2 && segment_intersection_spec(a1, a2, b1, b2) == SegmentIntersection::Overlapping ==> exists|
            p: Point2<i64>,
        | #[trigger] on_segment(p, a1, a2) && on_segment(p, b1, b2),
        segment_intersection_spec(a1, a2, b1, b2) == SegmentIntersection::CollinearDisjoint ==> forall|
            p: Point2<i64>,
        | #[trigger] on_segment(p, a1, a2) ==> !on_segment(p, b1, b2),
{
    lemma_ends_on_segment(a1, a2);
    lemma_ends_on_segment(b1, b2);
    if a1 != a2 && segment_intersection_spec(a1, a2, b1, b2) == SegmentIntersection::Overlapping {
        assert(orient2d_det(a1, a2, b1) == 0 && orient2d_det(a1, a2, b2) == 0);
        assert(overlap_1d(a1.x, a2.x, b1.x, b2.x) && overlap_1d(a1.y, a2.y, b1.y, b2.y));
        assert(orient2d_det(a1, a2, a1) == 0) by (nonlinear_arith);
        assert(orient2d_det(a1, a2, a2) == 0) by (nonlinear_arith);
        let use_x = a1.x != a2.x;
        let (a_lo, b_lo) = if use_x {
            (if a1.x <= a2.x { a1 } else { a2 }, if b1.x <= b2.x { b1 } else { b2 })
        } else {
            (if a1.y <= a2.y { a1 } else { a2 }, if b1.y <= b2.y { b1 } else { b2 })
        };
        let b_first = if use_x { b_lo.x >= a_lo.x } else { b_lo.y >= a_lo.y };
        if b_first {
            lemma_on_line_box(b_lo, a1, a2, use_x);
            assert(on_segment(b_lo, a1, a2) && on_segment(b_lo, b1, b2));
        } else {
            lemma_collinear_transfer(a1, a2, b1, b2, a_lo);
            lemma_on_line_box(a_lo, b1, b2, use_x);
            assert(on_segment(a_lo, a1, a2) && on_segment(a_lo, b1, b2));
        }
    }
}

// ---------------------------------------------------------------------------
// A point strictly inside a triangle
// ---------------------------------------------------------------------------

/// `orient2d` of `b`, `c` and the origin, over offsets from the origin.
proof fn lemma_orient_at_origin(bx: int, by: int, cx: int, cy: int)
    by (nonlinear_arith)
    ensures
        (cx - bx) * (0 - by) - (cy - by) * (0 - bx) == bx * cy - by * cx,
{
}

/// The heights of a triangle's corners above the origin, weighted by the
/// opposite sub-triangles' orientations, sum to zero.
proof fn lemma_weighted_heights(ax: int, ay: int, bx: int, by: int, cx: int, cy: int)
    ensures
        (bx * cy - by * cx) * ay + (cx * ay - cy * ax) * by + (ax * by - ay * bx) * cy == 0,
{
    assert((bx * cy - by * cx) * ay == bx * (cy * ay) - by * (cx * ay)) by (nonlinear_arith);
    assert((cx * ay - cy * ax) * by == cx * (ay * by) - cy * (ax * by)) by (nonlinear_arith);
    assert((ax * by - ay * bx) * cy == ax * (by * cy) - ay * (bx * cy)) by (nonlinear_arith);
    assert(bx * (cy * ay) == ay * (bx * cy)) by (nonlinear_arith);
    assert(by * (cx * ay) == cx * (ay * by)) by (nonlinear_arith);
    assert(cy * (ax * by) == ax * (by * cy)) by (nonlinear_arith);
}

/// `orient2d(b, c, p)` is the cross product of `b - p` and `c - p`.
proof fn lemma_orient_from<T: Widen>(b: Point2<T>, c: Point2<T>, p: Point2<T>)
    ensures
        orient2d_det(b, c, p) == (b.x.value() - p.x.value()) * (c.y.value() - p.y.value()) - (b.y.value()
            - p.y.value()) * (c.x.value() - p.x.value()),
{
    let (bx, by) = (b.x.value() - p.x.value(), b.y.value() - p.y.value());
    let (cx, cy) = (c.x.value() - p.x.value(), c.y.value() - p.y.value());
    lemma_orient_at_origin(bx, by, cx, cy);
    assert(c.x.value() - b.x.value() == cx - bx && p.y.value() - b.y.value() == 0 - by);
    assert(c.y.value() - b.y.value() == cy - by && p.x.value() - b.x.value() == 0 - bx);
}

/// Positive weights of heights summing to zero: the heights are neither all
/// above zero nor all at or below it, unless all are zero.
proof fn lemma_heights_mixed(wa: int, wb: int, wc: int, ha: int, hb: int, hc: int)
    by (nonlinear_arith)
    requires
        wa > 0,
        wb > 0,
        wc > 0,
        wa * ha + wb * hb + wc * hc == 0,
    ensures
        !(ha > 0 && hb > 0 && hc > 0),
        (ha <= 0 && hb <= 0 && hc <= 0) ==> ha == 0 && hb == 0 && hc == 0,
{
}

/// A point strictly on the inner side of every edge of a triangle (all three
/// orientations positive, or all negative) is `Inside` the triangle.
pub proof fn lemma_strictly_inside_triangle<T: Widen>(p: Point2<T>, a: Point2<T>, b: Point2<T>, c: Point2<T>)
    requires
        (orient2d_det(a, b, p) > 0 && orient2d_det(b, c, p) > 0 && orient2d_det(c, a, p) > 0) || (orient2d_det(
            a,
            b,
            p,
        ) < 0 && orient2d_det(b, c, p) < 0 && orient2d_det(c, a, p) < 0),
    ensures
        polygon_containment(p, seq![a, b, c]) == Containment::Inside,
{
    let poly = seq![a, b, c];
    vstd::arithmetic::div_mod::lemma_small_mod(1, 3);
    vstd::arithmetic::div_mod::lemma_small_mod(2, 3);
    vstd::arithmetic::div_mod::lemma_mod_self_0(3);
    assert(poly.len() == 3 && poly[0] == a && poly[1] == b && poly[2] == c);
    assert(edge_end(poly, 0) == b);
    assert(edge_end(poly, 1) == c);
    assert(edge_end(poly, 2) == a);
    assert(!on_some_edge(p, poly, 3)) by {
        assert forall|i: int| 0 <= i < 3 implies !#[trigger] on_segment(p, poly[i], edge_end(poly, i)) by {
            if i == 0 {
            } else if i == 1 {
            } else {
            }
        }
    }
    let (ax, ay) = (a.x.value() - p.x.value(), a.y.value() - p.y.value());
    let (bx, by) = (b.x.value() - p.x.value(), b.y.value() - p.y.value());
    let (cx, cy) = (c.x.value() - p.x.value(), c.y.value() - p.y.value());
    lemma_orient_from(a, b, p);
    lemma_orient_from(b, c, p);
    lemma_orient_from(c, a, p);
    lemma_weighted_heights(ax, ay, bx, by, cx, cy);
    let (wa, wb, wc) = (orient2d_det(b, c, p), orient2d_det(c, a, p), orient2d_det(a, b, p));
    assert(wa * ay + wb * by + wc * cy == 0);
    if wa > 0 {
        lemma_heights_mixed(wa, wb, wc, ay, by, cy);
    } else {
        assert((-wa) * ay + (-wb) * by + (-wc) * cy == 0) by (nonlinear_arith)
            requires
                wa * ay + wb * by + wc * cy == 0,
        ;
        lemma_heights_mixed(-wa, -wb, -wc, ay, by, cy);
    }
    if ay == 0 && by == 0 && cy == 0 {
        assert(orient2d_det(a, b, p) == ax * 0 - 0 * bx);
        assert(ax * 0 - 0 * bx == 0) by (nonlinear_arith);
    }
    let e0 = edge_crosses(p, a, b);
    let e1 = edge_crosses(p, b, c);
    let e2 = edge_crosses(p, c, a);
    assert(crossing_count(p, poly, 0) == 0);
    assert(crossing_count(p, poly, 1) == crossing_count(p, poly, 0) + (if e0 { 1nat } else { 0nat }));
    assert(crossing_count(p, poly, 2) == crossing_count(p, poly, 1) + (if e1 { 1nat } else { 0nat }));
    assert(crossing_count(p, poly, 3) == crossing_count(p, poly, 2) + (if e2 { 1nat } else { 0nat }));
    assert(crossing_count(p, poly, 3) == 1);
}

/// For a segment `b1-b2` on the line of a segment `a1-a2` that is not a
/// single point, the two are reported overlapping exactly when they share
/// a point, and collinear and disjoint exactly when they share none.
pub proof fn lemma_collinear_segments_class(a1: Point2<i64>, a2: Point2<i64>, b1: Point2<i64>, b2: Point2<i64>)
    requires
        a1 != a2,
        orient2d_det(a1, a2, b1) == 0,
        orient2d_det(a1, a2, b2) == 0,
    ensures
        (segment_intersection_spec(a1, a2, b1, b2) == SegmentIntersection::Overlapping) == (exists|
            p: Point2<i64>,
        | #[trigger] on_segment(p, a1, a2) && on_segment(p, b1, b2)),
        (segment_intersection_spec(a1, a2, b1, b2) == SegmentIntersection::CollinearDisjoint) == !(exists|
            p: Point2<i64>,
        | #[trigger] on_segment(p, a1, a2) && on_segment(p, b1, b2)),
{
    lemma_segment_overlap_shares_point(a1, a2, b1, b2);
    assert(sign_of(orient2d_det(a1, a2, b1)) == Ordering::Equal);
    assert(sign_of(orient2d_det(a1, a2, b2)) == Ordering::Equal);
    if exists|p: Point2<i64>| #[trigger] on_segment(p, a1, a2) && on_segment(p, b1, b2) {
        let p = choose|p: Point2<i64>| #[trigger] on_segment(p, a1, a2) && on_segment(p, b1, b2);
        assert(overlap_1d(a1.x, a2.x, b1.x, b2.x));
        assert(overlap_1d(a1.y, a2.y, b1.y, b2.y));
    }
}

/// For a point above or below every vertex, none of the first `k` edges is
/// crossed by its ray or passes through it.
proof fn lemma_no_crossing_beyond<T: Widen>(p: Point2<T>, poly: Seq<Point2<T>>, k: int)
    requires
        0 <= k <= poly.len(),
        (forall|j: int| 0 <= j < poly.len() ==> (#[trigger] poly[j]).y.value() < p.y.value()) || (forall|
            j: int,
        | 0 <= j < poly.len() ==> (#[trigger] poly[j]).y.value() > p.y.value()),
    ensures
        crossing_count(p, poly, k) == 0,
        !on_some_edge(p, poly, k),
    decreases k,
{
    if k > 0 {
        lemma_no_crossing_beyond(p, poly, k - 1);
        let j = (k - 1 + 1) % (poly.len() as int);
        vstd::arithmetic::div_mod::lemma_mod_bound(k, poly.len() as int);
        assert(0 <= j < poly.len());
        assert(edge_end(poly, k - 1) == poly[j]);
        assert(!edge_crosses(p, poly[k - 1], edge_end(poly, k - 1)));
        assert(!on_segment(p, poly[k - 1], edge_end(poly, k - 1)));
        assert forall|i: int| 0 <= i < k implies !#[trigger] on_segment(p, poly[i], edge_end(poly, i)) by {
            if i < k - 1 {
                assert(!on_some_edge(p, poly, k - 1));
            }
        }
    }
}

/// A point strictly above every vertex of a polygon, or strictly below
/// every vertex, is `Outside` it.
pub proof fn lemma_beyond_polygon_outside<T: Widen>(p: Point2<T>, poly: Seq<Point2<T>>)
    requires
        (forall|j: int| 0 <= j < poly.len() ==> (#[trigger] poly[j]).y.value() < p.y.value()) || (forall|
            j: int,
        | 0 <= j < poly.len() ==> (#[trigger] poly[j]).y.value() > p.y.value()),
    ensures
        polygon_containment(p, poly) == Containment::Outside,
{
    lemma_no_crossing_beyond(p, poly, poly.len() as int);
}

/// The rational point `p` (over a common positive denominator) lies ahead
/// of `o` in direction `d`, or at `o`: `(p - o) . d >= 0`.
pub open spec fn ray_forward(o: Point2<i64>, d: Vector2<i64>, p: RationalPoint) -> bool {
    &&& p.x.denom == p.y.denom
    &&& p.x.denom > 0
    &&& (p.x.num - o.x * p.x.denom) * d.x + (p.y.num - o.y * p.y.denom) * d.y >= 0
}

/// `sign * (numer * d)` with `sign * numer >= 0` keeps the sign of `(d.d)`.
proof fn lemma_forward_param(numer: int, denom: int, dx: int, dy: int)
    by (nonlinear_arith)
    requires
        (numer >= 0 && denom > 0) || (numer <= 0 && denom < 0),
    ensures
        denom > 0 ==> (numer * dx) * dx + (numer * dy) * dy >= 0,
        denom < 0 ==> (-(numer * dx)) * dx + (-(numer * dy)) * dy >= 0,
{
}

/// A point reported by `ray_segment_intersection` lies on the segment's
/// line and on the ray: on its line, at or ahead of its origin.
pub proof fn lemma_ray_point_on_ray(o: Point2<i64>, d: Vector2<i64>, s1: Point2<i64>, s2: Point2<i64>)
    requires
        ray_fits(o, d, s1, s2),
    ensures
        ray_segment_intersection_spec(o, d, s1, s2) is Point ==> {
            let p = ray_segment_intersection_spec(o, d, s1, s2)->Point_0;
            on_line(s1, s2, p) && on_line(o, offset_point(o, d), p) && ray_forward(o, d, p)
        },
{
    let q = offset_point(o, d);
    assert(q.x - o.x == d.x && q.y - o.y == d.y);
    assert(orient2d_det(s1, s2, s1) == 0) by (nonlinear_arith);
    assert(orient2d_det(s1, s2, s2) == 0) by (nonlinear_arith);
    let r = ray_segment_intersection_spec(o, d, s1, s2);
    if r is Point {
        let p = r->Point_0;
        if orient2d_det(o, q, s1) == 0 || orient2d_det(o, q, s2) == 0 {
            let e = if orient2d_det(o, q, s1) == 0 { s1 } else { s2 };
            assert(p == rational_point_of(e.x, e.y));
            assert(p.x.num == e.x && p.y.num == e.y && p.x.denom == 1 && p.y.denom == 1);
            assert(orient2d_det(o, q, e) == 0);
            assert(ray_dot(o, d, e) >= 0);
            assert((s2.x - s1.x) * (e.y - s1.y * 1) - (s2.y - s1.y) * (e.x - s1.x * 1) == orient2d_det(s1, s2, e));
            assert((q.x - o.x) * (e.y - o.y * 1) - (q.y - o.y) * (e.x - o.x * 1) == orient2d_det(o, q, e));
            assert((e.x - o.x * 1) * d.x + (e.y - o.y * 1) * d.y == ray_dot(o, d, e));
        } else {
            let denom = dir_cross(d, s1, s2);
            let numer = ray_numer(o, s1, s2);
            assert(p == ray_crossing_point(o, d, s1, s2));
            assert(denom != 0 && ray_param_nonneg(numer, denom));
            lemma_param_on_lines(
                o.x as int,
                o.y as int,
                d.x as int,
                d.y as int,
                s1.x as int,
                s1.y as int,
                s2.x - s1.x,
                s2.y - s1.y,
                numer,
                denom,
            );
            assert(p.x.num == param_num(o.x as int, d.x as int, numer, denom));
            assert(p.y.num == param_num(o.y as int, d.y as int, numer, denom));
            assert(p.x.denom == abs_int(denom));
            assert(p.y.denom == abs_int(denom));
            assert(on_line(s1, s2, p));
            assert(on_line(o, q, p));
            lemma_forward_param(numer, denom, d.x as int, d.y as int);
            if denom > 0 {
                assert(o.x * denom + numer * d.x - o.x * denom == numer * d.x);
            } else {
                assert(o.x * (-denom) == -(o.x * denom)) by (nonlinear_arith);
                assert(o.y * (-denom) == -(o.y * denom)) by (nonlinear_arith);
            }
            assert(ray_forward(o, d, p));
        }
    }
}

// ---------------------------------------------------------------------------
// Containment does not depend on the first vertex
// ---------------------------------------------------------------------------

/// `x` in `[0, 2n)` taken modulo `n`.
proof fn lemma_wrap(x: int, n: int)
    requires
        n > 0,
        0 <= x < 2 * n,
    ensures
        x % n == (if x < n {
            x
        } else {
            x - n
        }),
{
    if x < n {
        vstd::arithmetic::div_mod::lemma_small_mod(x as nat, n as nat);
    } else {
        vstd::arithmetic::div_mod::lemma_mod_add_multiples_vanish(x - n, n);
        vstd::arithmetic::div_mod::lemma_small_mod((x - n) as nat, n as nat);
    }
}

/// The vertices of `poly` read from vertex `s` on, cyclically.
pub open spec fn rotated<T>(poly: Seq<T>, s: int) -> Seq<T> {
    poly.subrange(s, poly.len() as int) + poly.subrange(0, s)
}

/// Edge `i` of the rotated polygon is edge `(i + s) % n` of `poly`.
proof fn lemma_rotated_edge<T>(poly: Seq<Point2<T>>, s: int, i: int)
    requires
        0 <= s < poly.len(),
        0 <= i < poly.len(),
    ensures
        rotated(poly, s).len() == poly.len(),
        0 <= (i + s) % (poly.len() as int) < poly.len(),
        rotated(poly, s)[i] == poly[(i + s) % (poly.len() as int)],
        edge_end(rotated(poly, s), i) == edge_end(poly, (i + s) % (poly.len() as int)),
{
    let n = poly.len() as int;
    let r = rotated(poly, s);
    lemma_wrap(i + s, n);
    lemma_wrap(i + 1, n);
    let i1 = (i + 1) % n;
    lemma_wrap(i1 + s, n);
    let j = (i + s) % n;
    lemma_wrap(j + 1, n);
    assert(r[i] == poly[j]);
    assert(r[i1] == poly[(i1 + s) % n]);
}

/// The rays from `p` cross the first `k` edges of the rotated polygon as
/// often as they cross the matching edges of `poly`.
proof fn lemma_rotated_count<T: Widen>(p: Point2<T>, poly: Seq<Point2<T>>, s: int, k: int)
    requires
        0 <= s < poly.len(),
        0 <= k <= poly.len(),
    ensures
        crossing_count(p, rotated(poly, s), k) as int == (if k <= poly.len() - s {
            crossing_count(p, poly, s + k) - crossing_count(p, poly, s)
        } else {
            crossing_count(p, poly, poly.len() as int) - crossing_count(p, poly, s) + crossing_count(
                p,
                poly,
                k - (poly.len() - s),
            )
        }),
    decreases k,
{
    let n = poly.len() as int;
    if k > 0 {
        lemma_rotated_count(p, poly, s, k - 1);
        lemma_rotated_edge(poly, s, k - 1);
        lemma_wrap(k - 1 + s, n);
        if k <= n - s {
            assert(crossing_count(p, poly, s + k) == crossing_count(p, poly, s + k - 1) + (if edge_crosses(
                p,
                poly[s + k - 1],
                edge_end(poly, s + k - 1),
            ) {
                1nat
            } else {
                0nat
            }));
        } else {
            let m = k - (n - s);
            assert(crossing_count(p, poly, m) == crossing_count(p, poly, m - 1) + (if edge_crosses(
                p,
                poly[m - 1],
                edge_end(poly, m - 1),
            ) {
                1nat
            } else {
                0nat
            }));
            assert(crossing_count(p, poly, 0) == 0);
        }
    }
}

/// `p` is on an edge of the rotated polygon exactly when it is on an edge of `poly`.
proof fn lemma_rotated_on_edge<T: Widen>(p: Point2<T>, poly: Seq<Point2<T>>, s: int)
    requires
        0 <= s < poly.len(),
    ensures
        on_some_edge(p, rotated(poly, s), poly.len() as int) == on_some_edge(p, poly, poly.len() as int),
{
    let n = poly.len() as int;
    let r = rotated(poly, s);
    if on_some_edge(p, r, n) {
        let i = choose|i: int| 0 <= i < n && #[trigger] on_segment(p, r[i], edge_end(r, i));
        lemma_rotated_edge(poly, s, i);
        let j = (i + s) % n;
        assert(on_segment(p, poly[j], edge_end(poly, j)));
    }
    if on_some_edge(p, poly, n) {
        let j = choose|j: int| 0 <= j < n && #[trigger] on_segment(p, poly[j], edge_end(poly, j));
        lemma_wrap(j - s + n, n);
        let i = (j - s + n) % n;
        lemma_rotated_edge(poly, s, i);
        lemma_wrap(i + s, n);
        assert((i + s) % n == j);
        assert(on_segment(p, r[i], edge_end(r, i)));
    }
}

/// Containment in a polygon does not depend on which vertex its list starts
/// from: reading the vertices cyclically from any vertex gives the same answer.
pub proof fn lemma_containment_rotation<T: Widen>(p: Point2<T>, poly: Seq<Point2<T>>, s: int)
    requires
        0 <= s < poly.len(),
    ensures
        polygon_containment(p, rotated(poly, s)) == polygon_containment(p, poly),
{
    let n = poly.len() as int;
    lemma_rotated_edge(poly, s, 0);
    lemma_rotated_on_edge(p, poly, s);
    lemma_rotated_count(p, poly, s, n);
    if n - s == n {
        assert(crossing_count(p, poly, 0) == 0);
    }
}

} // verus!
