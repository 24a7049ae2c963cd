//! Voronoi diagram as the dual of Delaunay triangulation.
use std::cmp::Ordering;
use vstd::prelude::*;

use crate::algo::delaunay::{bowyer_watson, coords_within, delaunay, delaunay_coord_bound, Triangulation};
use crate::predicates::{abs_le, lemma_abs_mul_le};
use crate::rational::{fits_i128, mul_fits, prod_denom, sub_fits, sub_num, Rational};
use crate::widen::sign_of;
use crate::Point2;

verus! {

/// A Voronoi vertex with exact rational coordinates.
#[derive(Debug, Clone, Copy, PartialEq, Eq)]
pub struct VoronoiVertex {
    pub x: Rational,
    pub y: Rational,
}

/// An edge in the Voronoi diagram.
#[derive(Debug, Clone, Copy, PartialEq, Eq)]
pub struct VoronoiEdge {
    /// Index of the first Voronoi vertex, or `None` if the edge extends to infinity.
    pub start: Option<usize>,
    /// Index of the second Voronoi vertex, or `None` if the edge extends to infinity.
    pub end: Option<usize>,
    /// The two input points (indices) that this edge separates.
    pub sites: (usize, usize),
}

/// A Voronoi diagram.
#[derive(Debug, Clone)]
pub struct VoronoiDiagram {
    /// The original input points (sites).
    pub sites: Vec<Point2<i64>>,
    /// The Voronoi vertices (circumcenters of Delaunay triangles).
    pub vertices: Vec<VoronoiVertex>,
    /// The Voronoi edges.
    pub edges: Vec<VoronoiEdge>,
    /// For each site, the indices of adjacent Voronoi vertices forming its cell,
    /// in counter-clockwise order.
    pub cells: Vec<Vec<usize>>,
}

// ---------------------------------------------------------------------------
// Circumcenter
// ---------------------------------------------------------------------------

/// Twice the signed area term `d = 2 (ax (by - cy) + bx (cy - ay) + cx (ay - by))`.
pub open spec fn cc_d(a: Point2<i64>, b: Point2<i64>, c: Point2<i64>) -> int {
    2 * (a.x * (b.y - c.y) + b.x * (c.y - a.y) + c.x * (a.y - b.y))
}

/// Numerator of the circumcenter's `x` over `d`.
pub open spec fn cc_ux(a: Point2<i64>, b: Point2<i64>, c: Point2<i64>) -> int {
    (a.x * a.x + a.y * a.y) * (b.y - c.y) + (b.x * b.x + b.y * b.y) * (c.y - a.y) + (c.x * c.x + c.y
        * c.y) * (a.y - b.y)
}

/// Numerator of the circumcenter's `y` over `d`.
pub open spec fn cc_uy(a: Point2<i64>, b: Point2<i64>, c: Point2<i64>) -> int {
    (a.x * a.x + a.y * a.y) * (c.x - b.x) + (b.x * b.x + b.y * b.y) * (a.x - c.x) + (c.x * c.x + c.y
        * c.y) * (b.x - a.x)
}

/// The circumcenter `(ux / d, uy / d)` with the sign moved to the numerators;
/// for collinear points (`d == 0`) the denominator is taken as 1.
pub open spec fn circumcenter_spec(a: Point2<i64>, b: Point2<i64>, c: Point2<i64>) -> VoronoiVertex {
    let d = cc_d(a, b, c);
    let denom = if d == 0 {
        1
    } else if d < 0 {
        -d
    } else {
        d
    };
    let ux = if d < 0 {
        -cc_ux(a, b, c)
    } else {
        cc_ux(a, b, c)
    };
    let uy = if d < 0 {
        -cc_uy(a, b, c)
    } else {
        cc_uy(a, b, c)
    };
    VoronoiVertex {
        x: Rational { num: ux as i128, denom: denom as i128 },
        y: Rational { num: uy as i128, denom: denom as i128 },
    }
}

/// Largest coordinate magnitude for which the circumcenter arithmetic stays in `i128`.
pub open spec fn cc_coord_bound() -> int {
    0x100_0000_0000
}

/// Bounds on the circumcenter terms for coordinates of magnitude at most `m`.
proof fn lemma_cc_bounds(a: Point2<i64>, b: Point2<i64>, c: Point2<i64>, m: int)
    requires
        1 <= m,
        abs_le(a.x as int, m) && abs_le(a.y as int, m),
        abs_le(b.x as int, m) && abs_le(b.y as int, m),
        abs_le(c.x as int, m) && abs_le(c.y as int, m),
    ensures
        abs_le(cc_d(a, b, c), 12 * (m * m)),
        abs_le(cc_ux(a, b, c), 12 * (m * m * m)),
        abs_le(cc_uy(a, b, c), 12 * (m * m * m)),
        abs_le(a.x * (b.y - c.y), 2 * (m * m)),
        abs_le(b.x * (c.y - a.y), 2 * (m * m)),
        abs_le(c.x * (a.y - b.y), 2 * (m * m)),
        abs_le(a.x * a.x + a.y * a.y, 2 * (m * m)),
        abs_le(b.x * b.x + b.y * b.y, 2 * (m * m)),
        abs_le(c.x * c.x + c.y * c.y, 2 * (m * m)),
        abs_le(a.x * a.x, m * m) && abs_le(a.y * a.y, m * m),
        abs_le(b.x * b.x, m * m) && abs_le(b.y * b.y, m * m),
        abs_le(c.x * c.x, m * m) && abs_le(c.y * c.y, m * m),
        abs_le((a.x * a.x + a.y * a.y) * (b.y - c.y), 4 * (m * m * m)),
        abs_le((b.x * b.x + b.y * b.y) * (c.y - a.y), 4 * (m * m * m)),
        abs_le((c.x * c.x + c.y * c.y) * (a.y - b.y), 4 * (m * m * m)),
        abs_le((a.x * a.x + a.y * a.y) * (c.x - b.x), 4 * (m * m * m)),
        abs_le((b.x * b.x + b.y * b.y) * (a.x - c.x), 4 * (m * m * m)),
        abs_le((c.x * c.x + c.y * c.y) * (b.x - a.x), 4 * (m * m * m)),
{
    lemma_abs_mul_le(a.x as int, b.y - c.y, m, 2 * m);
    lemma_abs_mul_le(b.x as int, c.y - a.y, m, 2 * m);
    lemma_abs_mul_le(c.x as int, a.y - b.y, m, 2 * m);
    lemma_abs_mul_le(a.x as int, a.x as int, m, m);
    lemma_abs_mul_le(a.y as int, a.y as int, m, m);
    lemma_abs_mul_le(b.x as int, b.x as int, m, m);
    lemma_abs_mul_le(b.y as int, b.y as int, m, m);
    lemma_abs_mul_le(c.x as int, c.x as int, m, m);
    lemma_abs_mul_le(c.y as int, c.y as int, m, m);
    let sq = m * m;
    let asq = a.x * a.x + a.y * a.y;
    let bsq = b.x * b.x + b.y * b.y;
    let csq = c.x * c.x + c.y * c.y;
    lemma_abs_mul_le(asq, b.y - c.y, 2 * sq, 2 * m);
    lemma_abs_mul_le(bsq, c.y - a.y, 2 * sq, 2 * m);
    lemma_abs_mul_le(csq, a.y - b.y, 2 * sq, 2 * m);
    lemma_abs_mul_le(asq, c.x - b.x, 2 * sq, 2 * m);
    lemma_abs_mul_le(bsq, a.x - c.x, 2 * sq, 2 * m);
    lemma_abs_mul_le(csq, b.x - a.x, 2 * sq, 2 * m);
    assert((2 * sq) * (2 * m) == 4 * (m * m * m)) by (nonlinear_arith)
        requires
            sq == m * m,
    ;
    assert(m * (2 * m) == 2 * sq) by (nonlinear_arith)
        requires
            sq == m * m,
    ;
}

/// Computes the circumcenter of a triangle with exact rational coordinates.
pub fn circumcenter(a: Point2<i64>, b: Point2<i64>, c: Point2<i64>) -> (v: VoronoiVertex)
    requires
        abs_le(a.x as int, cc_coord_bound()) && abs_le(a.y as int, cc_coord_bound()),
        abs_le(b.x as int, cc_coord_bound()) && abs_le(b.y as int, cc_coord_bound()),
        abs_le(c.x as int, cc_coord_bound()) && abs_le(c.y as int, cc_coord_bound()),
    ensures
        v == circumcenter_spec(a, b, c),
        v.x.wf(),
        v.y.wf(),
{
    proof {
        lemma_cc_bounds(a, b, c, cc_coord_bound());
    }
    let ax = a.x as i128;
    let ay = a.y as i128;
    let bx = b.x as i128;
    let by = b.y as i128;
    let cx = c.x as i128;
    let cy = c.y as i128;

    let d = 2 * (ax * (by - cy) + bx * (cy - ay) + cx * (ay - by));

    let a_sq = ax * ax + ay * ay;
    let b_sq = bx * bx + by * by;
    let c_sq = cx * cx + cy * cy;

    let ux = a_sq * (by - cy) + b_sq * (cy - ay) + c_sq * (ay - by);
    let uy = a_sq * (cx - bx) + b_sq * (ax - cx) + c_sq * (bx - ax);

    // collinear points have no circumcenter; keep the denominator positive
    let denom = if d == 0 {
        1
    } else if d < 0 {
        -d
    } else {
        d
    };
    let s: i128 = if d < 0 {
        -1
    } else {
        1
    };
    assert(s * ux == if d < 0 {
        -(ux as int)
    } else {
        ux as int
    }) by (nonlinear_arith)
        requires
            s == (if d < 0 {
                -1int
            } else {
                1int
            }),
    ;
    assert(s * uy == if d < 0 {
        -(uy as int)
    } else {
        uy as int
    }) by (nonlinear_arith)
        requires
            s == (if d < 0 {
                -1int
            } else {
                1int
            }),
    ;
    VoronoiVertex { x: Rational::new(s * ux, denom), y: Rational::new(s * uy, denom) }
}

// ---------------------------------------------------------------------------
// Angular order
// ---------------------------------------------------------------------------

/// Quadrant of a vector, counter-clockwise from `+x`, each quadrant holding
/// the axis where it starts: 0: `+x, +y` (or `+x` axis, or the zero vector);
/// 1: `-x, +y` (or `+y` axis); 2: `-x, -y` (or `-x` axis); 3: `+x, -y` (or
/// `-y` axis).
pub open spec fn quadrant_spec(x: Rational, y: Rational) -> int {
    if (x.num > 0 && y.num >= 0) || (x.num == 0 && y.num == 0) {
        0
    } else if x.num <= 0 && y.num > 0 {
        1
    } else if x.num < 0 && y.num <= 0 {
        2
    } else {
        3
    }
}

/// Product `a * b` of rationals, as computed.
pub open spec fn rmul(a: Rational, b: Rational) -> Rational {
    Rational { num: (a.num * b.num) as i128, denom: prod_denom(a, b) as i128 }
}

/// Numerator of the cross product `ax * by - ay * bx`, as computed.
pub open spec fn angle_cross(ax: Rational, ay: Rational, bx: Rational, by: Rational) -> int {
    sub_num(rmul(ax, by), rmul(ay, bx))
}

/// The cross-product arithmetic of `compare_angles` fits in `i128`.
pub open spec fn angle_fits(ax: Rational, ay: Rational, bx: Rational, by: Rational) -> bool {
    &&& mul_fits(ax, by)
    &&& mul_fits(ay, bx)
    &&& sub_fits(rmul(ax, by), rmul(ay, bx))
}

/// Counter-clockwise angular order from the `+x` axis: by quadrant, then by
/// the sign of the cross product (positive means `a` comes first).
pub open spec fn angle_order(ax: Rational, ay: Rational, bx: Rational, by: Rational) -> Ordering {
    let qa = quadrant_spec(ax, ay);
    let qb = quadrant_spec(bx, by);
    if qa != qb {
        sign_of(qa - qb)
    } else {
        sign_of(-angle_cross(ax, ay, bx, by))
    }
}

/// Returns the quadrant (0-3) of a vector, counter-clockwise from the `+x` axis.
pub fn quadrant(x: Rational, y: Rational) -> (q: u8)
    ensures
        q == quadrant_spec(x, y),
{
    if (x.num > 0 && y.num >= 0) || (x.num == 0 && y.num == 0) {
        0
    } else if x.num <= 0 && y.num > 0 {
        1
    } else if x.num < 0 && y.num <= 0 {
        2
    } else {
        3
    }
}

/// Compares two vectors by their angle from the positive `x` axis:
/// `Less` when `(ax, ay)` comes first in counter-clockwise order.
pub fn compare_angles(ax: Rational, ay: Rational, bx: Rational, by: Rational) -> (o: Ordering)
    requires
        angle_fits(ax, ay, bx, by),
    ensures
        o == angle_order(ax, ay, bx, by),
{
    let quad_a = quadrant(ax, ay);
    let quad_b = quadrant(bx, by);
    if quad_a < quad_b {
        return Ordering::Less;
    }
    if quad_a > quad_b {
        return Ordering::Greater;
    }
    let cross = ax * by - ay * bx;
    // the denominator is a product of positive denominators: the numerator carries the sign
    if cross.num > 0 {
        Ordering::Less
    } else if cross.num < 0 {
        Ordering::Greater
    } else {
        Ordering::Equal
    }
}

/// `a` precedes `b` strictly in the counter-clockwise angular order:
/// then `b` does not strictly precede `a`.
pub proof fn lemma_angle_order_asymmetric(ax: Rational, ay: Rational, bx: Rational, by: Rational)
    requires
        angle_fits(ax, ay, bx, by),
        angle_fits(bx, by, ax, ay),
        angle_order(ax, ay, bx, by) == Ordering::Less,
    ensures
        angle_order(bx, by, ax, ay) == Ordering::Greater,
{
    if quadrant_spec(ax, ay) == quadrant_spec(bx, by) {
        assert(ax.num * by.num == by.num * ax.num) by (nonlinear_arith);
        assert(ay.num * bx.num == bx.num * ay.num) by (nonlinear_arith);
        assert(ax.denom * by.denom == by.denom * ax.denom) by (nonlinear_arith);
        assert(ay.denom * bx.denom == bx.denom * ay.denom) by (nonlinear_arith);
        assert(rmul(ax, by) == rmul(by, ax));
        assert(rmul(ay, bx) == rmul(bx, ay));
    }
}

// ---------------------------------------------------------------------------
// Voronoi diagram
// ---------------------------------------------------------------------------

/// Largest coordinate magnitude for which the diagram's exact rational
/// arithmetic (circumcenters and the angular sort of the cells) stays in `i128`.
pub open spec fn voronoi_coord_bound() -> int {
    0x400
}

/// The integer `n` as a rational.
pub open spec fn int_rational(n: i64) -> Rational {
    Rational { num: n as i128, denom: 1 }
}

/// `v - s` for a rational `v` and an integer `s`, as computed.
pub open spec fn rel(v: Rational, s: i64) -> Rational {
    Rational { num: sub_num(v, int_rational(s)) as i128, denom: prod_denom(v, int_rational(s)) as i128 }
}

/// A rational with numerator at most `2^35` and denominator in `[1, 2^24]`.
pub open spec fn small_rational(r: Rational) -> bool {
    abs_le(r.num as int, 0x8_0000_0000) && 1 <= r.denom <= 0x100_0000
}

/// Cross products of small rationals fit in `i128`.
proof fn lemma_small_angle_fits(ax: Rational, ay: Rational, bx: Rational, by: Rational)
    requires
        small_rational(ax),
        small_rational(ay),
        small_rational(bx),
        small_rational(by),
    ensures
        angle_fits(ax, ay, bx, by),
{
    let n = 0x8_0000_0000int;
    let d = 0x100_0000int;
    lemma_abs_mul_le(ax.num as int, by.num as int, n, n);
    lemma_abs_mul_le(ay.num as int, bx.num as int, n, n);
    lemma_abs_mul_le(ax.denom as int, by.denom as int, d, d);
    lemma_abs_mul_le(ay.denom as int, bx.denom as int, d, d);
    let p = rmul(ax, by);
    let q = rmul(ay, bx);
    assert(p.num == ax.num * by.num);
    assert(q.num == ay.num * bx.num);
    assert(p.denom == ax.denom * by.denom);
    assert(q.denom == ay.denom * bx.denom);
    lemma_abs_mul_le(p.num as int, q.denom as int, n * n, d * d);
    lemma_abs_mul_le(q.num as int, p.denom as int, n * n, d * d);
    lemma_abs_mul_le(p.denom as int, q.denom as int, d * d, d * d);
}

/// The site-relative coordinates of the circumcenter of a small triangle are small.
proof fn lemma_rel_small(a: Point2<i64>, b: Point2<i64>, c: Point2<i64>, s: Point2<i64>)
    requires
        abs_le(a.x as int, voronoi_coord_bound()) && abs_le(a.y as int, voronoi_coord_bound()),
        abs_le(b.x as int, voronoi_coord_bound()) && abs_le(b.y as int, voronoi_coord_bound()),
        abs_le(c.x as int, voronoi_coord_bound()) && abs_le(c.y as int, voronoi_coord_bound()),
        abs_le(s.x as int, voronoi_coord_bound()) && abs_le(s.y as int, voronoi_coord_bound()),
    ensures
        sub_fits(circumcenter_spec(a, b, c).x, int_rational(s.x)),
        sub_fits(circumcenter_spec(a, b, c).y, int_rational(s.y)),
        small_rational(rel(circumcenter_spec(a, b, c).x, s.x)),
        small_rational(rel(circumcenter_spec(a, b, c).y, s.y)),
{
    let m = voronoi_coord_bound();
    lemma_cc_bounds(a, b, c, m);
    let v = circumcenter_spec(a, b, c);
    let ux = cc_ux(a, b, c);
    let uy = cc_uy(a, b, c);
    assert(m * m * m == 0x4000_0000);
    if cc_d(a, b, c) < 0 {
        assert(v.x.num == -ux);
        assert(v.y.num == -uy);
    } else {
        assert(v.x.num == ux);
        assert(v.y.num == uy);
    }
    assert(1 <= v.x.denom <= 12 * (m * m));
    assert(abs_le(v.x.num as int, 12 * (m * m * m)));
    assert(abs_le(v.y.num as int, 12 * (m * m * m)));
    lemma_abs_mul_le(s.x as int, v.x.denom as int, m, 12 * (m * m));
    lemma_abs_mul_le(s.y as int, v.y.denom as int, m, 12 * (m * m));
}

/// Coordinates of vertex `a` relative to `site`, as computed.
pub open spec fn vertex_rel(vs: Seq<VoronoiVertex>, site: Point2<i64>, a: usize) -> (Rational, Rational) {
    (rel(vs[a as int].x, site.x), rel(vs[a as int].y, site.y))
}

/// The arithmetic of comparing vertices `a` and `b` around `site` fits in `i128`.
pub open spec fn cell_pair_fits(vs: Seq<VoronoiVertex>, site: Point2<i64>, a: usize, b: usize) -> bool {
    &&& a < vs.len()
    &&& b < vs.len()
    &&& sub_fits(vs[a as int].x, int_rational(site.x))
    &&& sub_fits(vs[a as int].y, int_rational(site.y))
    &&& sub_fits(vs[b as int].x, int_rational(site.x))
    &&& sub_fits(vs[b as int].y, int_rational(site.y))
    &&& angle_fits(
        vertex_rel(vs, site, a).0,
        vertex_rel(vs, site, a).1,
        vertex_rel(vs, site, b).0,
        vertex_rel(vs, site, b).1,
    )
}

/// Vertex `a` comes strictly before vertex `b` counter-clockwise around `site`.
pub open spec fn cell_before(vs: Seq<VoronoiVertex>, site: Point2<i64>, a: usize, b: usize) -> bool {
    angle_order(
        vertex_rel(vs, site, a).0,
        vertex_rel(vs, site, a).1,
        vertex_rel(vs, site, b).0,
        vertex_rel(vs, site, b).1,
    ) == Ordering::Less
}

/// Coordinates of vertex `a` relative to `site`.
fn rel_coords(vertices: &Vec<VoronoiVertex>, site: Point2<i64>, a: usize) -> (r: (Rational, Rational))
    requires
        a < vertices@.len(),
        sub_fits(vertices@[a as int].x, int_rational(site.x)),
        sub_fits(vertices@[a as int].y, int_rational(site.y)),
    ensures
        r == vertex_rel(vertices@, site, a),
{
    let site_x = Rational::from_int(site.x);
    let site_y = Rational::from_int(site.y);
    let v = vertices[a];
    (v.x - site_x, v.y - site_y)
}

/// Whether vertex `a` precedes vertex `b` strictly in counter-clockwise order around `site`.
fn cell_less(vertices: &Vec<VoronoiVertex>, site: Point2<i64>, a: usize, b: usize) -> (r: bool)
    requires
        cell_pair_fits(vertices@, site, a, b),
    ensures
        r == cell_before(vertices@, site, a, b),
{
    let (ax, ay) = rel_coords(vertices, site, a);
    let (bx, by) = rel_coords(vertices, site, b);
    match compare_angles(ax, ay, bx, by) {
        Ordering::Less => true,
        _ => false,
    }
}

/// The circumcenter of triangle `t` of a triangulation.
pub open spec fn tri_circumcenter(pts: Seq<Point2<i64>>, tris: Seq<crate::algo::Triangle>, t: int) -> VoronoiVertex {
    circumcenter_spec(
        pts[tris[t].vertices[0] as int],
        pts[tris[t].vertices[1] as int],
        pts[tris[t].vertices[2] as int],
    )
}

/// `vs` holds the circumcenter of every triangle, in triangle order.
pub open spec fn vertices_match(vs: Seq<VoronoiVertex>, pts: Seq<Point2<i64>>, tris: Seq<crate::algo::Triangle>) -> bool {
    &&& vs.len() == tris.len()
    &&& forall|t: int| 0 <= t < tris.len() ==> #[trigger] vs[t] == tri_circumcenter(pts, tris, t)
}

/// Each consecutive pair of `cell` is in counter-clockwise order around `site`.
pub open spec fn cell_sorted(vs: Seq<VoronoiVertex>, site: Point2<i64>, cell: Seq<usize>) -> bool {
    forall|k: int| 0 <= k && k + 1 < cell.len() ==> !cell_before(vs, site, #[trigger] cell[k + 1], cell[k])
}

/// Comparisons of any two circumcenters around any site of a small triangulation fit in `i128`.
proof fn lemma_cell_pair_fits(
    vs: Seq<VoronoiVertex>,
    pts: Seq<Point2<i64>>,
    tris: Seq<crate::algo::Triangle>,
    site: Point2<i64>,
    a: usize,
    b: usize,
)
    requires
        vertices_match(vs, pts, tris),
        crate::algo::delaunay::tris_below(tris, pts.len() as int),
        coords_within(pts, voronoi_coord_bound()),
        abs_le(site.x as int, voronoi_coord_bound()) && abs_le(site.y as int, voronoi_coord_bound()),
        a < tris.len(),
        b < tris.len(),
    ensures
        cell_pair_fits(vs, site, a, b),
        cell_pair_fits(vs, site, b, a),
{
    assert(tris[a as int].indices_below(pts.len() as int));
    assert(tris[b as int].indices_below(pts.len() as int));
    assert(vs[a as int] == tri_circumcenter(pts, tris, a as int));
    assert(vs[b as int] == tri_circumcenter(pts, tris, b as int));
    let ta = tris[a as int];
    let tb = tris[b as int];
    assert(abs_le(pts[ta.vertices[0] as int].x as int, voronoi_coord_bound()));
    assert(abs_le(pts[ta.vertices[1] as int].x as int, voronoi_coord_bound()));
    assert(abs_le(pts[ta.vertices[2] as int].x as int, voronoi_coord_bound()));
    assert(abs_le(pts[tb.vertices[0] as int].x as int, voronoi_coord_bound()));
    assert(abs_le(pts[tb.vertices[1] as int].x as int, voronoi_coord_bound()));
    assert(abs_le(pts[tb.vertices[2] as int].x as int, voronoi_coord_bound()));
    lemma_rel_small(pts[ta.vertices[0] as int], pts[ta.vertices[1] as int], pts[ta.vertices[2] as int], site);
    lemma_rel_small(pts[tb.vertices[0] as int], pts[tb.vertices[1] as int], pts[tb.vertices[2] as int], site);
    lemma_small_angle_fits(vertex_rel(vs, site, a).0, vertex_rel(vs, site, a).1, vertex_rel(vs, site, b).0, vertex_rel(vs, site, b).1);
    lemma_small_angle_fits(vertex_rel(vs, site, b).0, vertex_rel(vs, site, b).1, vertex_rel(vs, site, a).0, vertex_rel(vs, site, a).1);
}

/// If `a` comes strictly before `b` around a site, `b` does not come strictly before `a`.
proof fn lemma_cell_before_asymmetric(vs: Seq<VoronoiVertex>, site: Point2<i64>, a: usize, b: usize)
    requires
        cell_pair_fits(vs, site, a, b),
        cell_pair_fits(vs, site, b, a),
        cell_before(vs, site, a, b),
    ensures
        !cell_before(vs, site, b, a),
{
    lemma_angle_order_asymmetric(
        vertex_rel(vs, site, a).0,
        vertex_rel(vs, site, a).1,
        vertex_rel(vs, site, b).0,
        vertex_rel(vs, site, b).1,
    );
}

/// Computes the circumcenter of every triangle.
fn build_vertices(tr: &Triangulation) -> (vs: Vec<VoronoiVertex>)
    requires
        tr.valid(),
        coords_within(tr.points@, voronoi_coord_bound()),
    ensures
        vertices_match(vs@, tr.points@, tr.triangles@),
{
    let mut vs: Vec<VoronoiVertex> = Vec::new();
    let mut t: usize = 0;
    while t < tr.triangles.len()
        invariant
            tr.valid(),
            coords_within(tr.points@, voronoi_coord_bound()),
            t <= tr.triangles@.len(),
            vs@.len() == t,
            forall|k: int| 0 <= k < t ==> #[trigger] vs@[k] == tri_circumcenter(tr.points@, tr.triangles@, k),
        decreases tr.triangles@.len() - t,
    {
        let tri = tr.triangles[t];
        proof {
            assert(tr.triangles@[t as int].indices_below(tr.points@.len() as int));
        }
        let a = tr.points[tri.vertices[0]];
        let b = tr.points[tri.vertices[1]];
        let c = tr.points[tri.vertices[2]];
        proof {
            assert(abs_le(tr.points@[tri.vertices[0] as int].x as int, voronoi_coord_bound()));
            assert(abs_le(tr.points@[tri.vertices[1] as int].x as int, voronoi_coord_bound()));
            assert(abs_le(tr.points@[tri.vertices[2] as int].x as int, voronoi_coord_bound()));
        }
        vs.push(circumcenter(a, b, c));
        t = t + 1;
    }
    vs
}

/// Every Voronoi edge starts at a Voronoi vertex, ends at one or at infinity,
/// and separates two sites given in increasing order.
pub open spec fn edges_valid(edges: Seq<VoronoiEdge>, n_sites: int, n_vertices: int) -> bool {
    forall|e: int|
        0 <= e < edges.len() ==> {
            &&& (#[trigger] edges[e]).start matches Some(s) && s < n_vertices
            &&& edges[e].end matches Some(t) ==> t < n_vertices
            &&& edges[e].sites.0 <= edges[e].sites.1 < n_sites
        }
}

/// The undirected edge `e`, smaller index first.
pub open spec fn undirected(e: (usize, usize)) -> (usize, usize) {
    if e.0 < e.1 {
        e
    } else {
        (e.1, e.0)
    }
}

/// The undirected edges of triangle `t`, in the order `edges` lists them.
pub open spec fn triangle_keys(t: crate::algo::Triangle) -> Seq<(usize, usize)> {
    seq![undirected(t.edge_seq()[0]), undirected(t.edge_seq()[1]), undirected(t.edge_seq()[2])]
}

/// The undirected edges of the first `t` triangles, three per triangle.
pub open spec fn edge_keys(tris: Seq<crate::algo::Triangle>, t: int) -> Seq<(usize, usize)>
    decreases t,
{
    if t <= 0 {
        seq![]
    } else {
        edge_keys(tris, t - 1) + triangle_keys(tris[t - 1])
    }
}

/// The triangle of each edge of `edge_keys(tris, t)`.
pub open spec fn edge_owners(t: int) -> Seq<usize>
    decreases t,
{
    if t <= 0 {
        seq![]
    } else {
        edge_owners(t - 1) + seq![(t - 1) as usize, (t - 1) as usize, (t - 1) as usize]
    }
}

/// The triangles owning the edges equal to `key` among the first `i` edges.
pub open spec fn owners_of(keys: Seq<(usize, usize)>, owners: Seq<usize>, key: (usize, usize), i: int) -> Seq<usize>
    decreases i,
{
    if i <= 0 {
        seq![]
    } else if keys[i - 1] == key {
        owners_of(keys, owners, key, i - 1).push(owners[i - 1])
    } else {
        owners_of(keys, owners, key, i - 1)
    }
}

/// The edge at position `j` does not occur before it.
pub open spec fn first_occurrence(keys: Seq<(usize, usize)>, j: int) -> bool {
    forall|i: int| 0 <= i < j ==> keys[i] != keys[j]
}

/// The Voronoi edges, and the triangle pairs already joined, after looking at
/// the first `j` Delaunay edges: at its first occurrence, an edge shared by
/// two triangles joins their circumcenters (once per pair of triangles), and
/// an edge of one triangle gives a ray from its circumcenter.
pub open spec fn edge_scan(keys: Seq<(usize, usize)>, owners: Seq<usize>, j: int) -> (Seq<VoronoiEdge>, Seq<(usize, usize)>)
    decreases j,
{
    if j <= 0 {
        (seq![], seq![])
    } else {
        let (edges, seen) = edge_scan(keys, owners, j - 1);
        let key = keys[j - 1];
        let os = owners_of(keys, owners, key, keys.len() as int);
        if !first_occurrence(keys, j - 1) {
            (edges, seen)
        } else if os.len() == 2 {
            let pair = if os[0] < os[1] { (os[0], os[1]) } else { (os[1], os[0]) };
            if seen.contains(pair) {
                (edges, seen)
            } else {
                (edges.push(VoronoiEdge { start: Some(os[0]), end: Some(os[1]), sites: key }), seen.push(pair))
            }
        } else if os.len() == 1 {
            (edges.push(VoronoiEdge { start: Some(os[0]), end: None, sites: key }), seen)
        } else {
            (edges, seen)
        }
    }
}

/// The edges of the Voronoi diagram of the triangles `tris`.
pub open spec fn voronoi_edges(tris: Seq<crate::algo::Triangle>) -> Seq<VoronoiEdge> {
    let keys = edge_keys(tris, tris.len() as int);
    edge_scan(keys, edge_owners(tris.len() as int), keys.len() as int).0
}

/// Whether `list` contains `x`.
fn contains_pair(list: &Vec<(usize, usize)>, x: (usize, usize)) -> (r: bool)
    ensures
        r == list@.contains(x),
{
    let mut k: usize = 0;
    while k < list.len()
        invariant
            k <= list@.len(),
            forall|j: int| 0 <= j < k ==> list@[j] != x,
        decreases list@.len() - k,
    {
        if list[k].0 == x.0 && list[k].1 == x.1 {
            return true;
        }
        k = k + 1;
    }
    false
}

/// Builds the Voronoi edges: the dual of each Delaunay edge, joining the
/// circumcenters of its two triangles, or going to infinity from the
/// circumcenter of its only triangle.
fn build_edges(tr: &Triangulation) -> (edges: Vec<VoronoiEdge>)
    requires
        tr.valid(),
    ensures
        edges_valid(edges@, tr.points@.len() as int, tr.triangles@.len() as int),
        edges@ == voronoi_edges(tr.triangles@),
{
    let n_sites = tr.points.len();
    let n_tris = tr.triangles.len();
    // every triangle edge, undirected, with its triangle
    let mut keys: Vec<(usize, usize)> = Vec::new();
    let mut owners: Vec<usize> = Vec::new();
    let mut t: usize = 0;
    while t < n_tris
        invariant
            tr.valid(),
            n_sites == tr.points@.len(),
            n_tris == tr.triangles@.len(),
            t <= n_tris,
            keys@.len() == owners@.len(),
            forall|j: int|
                0 <= j < keys@.len() ==> #[trigger] owners@[j] < n_tris && keys@[j].0 <= keys@[j].1
                    < n_sites,
            keys@ == edge_keys(tr.triangles@, t as int),
            owners@ == edge_owners(t as int),
        decreases n_tris - t,
    {
        let es = tr.triangles[t].edges();
        proof {
            assert(tr.triangles@[t as int].indices_below(n_sites as int));
        }
        let mut k: usize = 0;
        while k < 3
            invariant
                k <= 3,
                t < n_tris,
                n_tris == tr.triangles@.len(),
                n_sites == tr.points@.len(),
                es@ == tr.triangles@[t as int].edge_seq(),
                tr.triangles@[t as int].indices_below(n_sites as int),
                keys@.len() == owners@.len(),
                forall|j: int|
                    0 <= j < keys@.len() ==> #[trigger] owners@[j] < n_tris && keys@[j].0 <= keys@[j].1
                        < n_sites,
                keys@ == edge_keys(tr.triangles@, t as int) + triangle_keys(tr.triangles@[t as int]).take(
                    k as int,
                ),
                owners@ == edge_owners(t as int) + seq![t, t, t].take(k as int),
            decreases 3 - k,
        {
            let (a, b) = es[k];
            let key = if a < b {
                (a, b)
            } else {
                (b, a)
            };
            proof {
                assert(es@[k as int] == (a, b));
                assert(a < n_sites && b < n_sites);
            }
            let ghost keys_before = keys@;
            let ghost owners_before = owners@;
            keys.push(key);
            owners.push(t);
            proof {
                assert forall|j: int| 0 <= j < keys@.len() implies #[trigger] owners@[j] < n_tris
                    && keys@[j].0 <= keys@[j].1 < n_sites by {
                    if j < keys_before.len() {
                        assert(keys@[j] == keys_before[j]);
                        assert(owners@[j] == owners_before[j]);
                    }
                }
                assert(key == triangle_keys(tr.triangles@[t as int])[k as int]);
                assert(keys@ =~= edge_keys(tr.triangles@, t as int) + triangle_keys(tr.triangles@[t as int]).take(
                    k + 1,
                ));
                assert(owners@ =~= edge_owners(t as int) + seq![t, t, t].take(k + 1));
            }
            k = k + 1;
        }
        proof {
            assert(keys@ =~= edge_keys(tr.triangles@, t + 1));
            assert(owners@ =~= edge_owners(t + 1));
        }
        t = t + 1;
    }
    let ghost all_keys = keys@;
    let ghost all_owners = owners@;

    let mut edges: Vec<VoronoiEdge> = Vec::new();
    let mut seen: Vec<(usize, usize)> = Vec::new();
    let mut j: usize = 0;
    while j < keys.len()
        invariant
            n_sites == tr.points@.len(),
            n_tris == tr.triangles@.len(),
            j <= keys@.len(),
            keys@.len() == owners@.len(),
            forall|i: int|
                0 <= i < keys@.len() ==> #[trigger] owners@[i] < n_tris && keys@[i].0 <= keys@[i].1
                    < n_sites,
            edges_valid(edges@, n_sites as int, n_tris as int),
            keys@ == all_keys,
            owners@ == all_owners,
            (edges@, seen@) == edge_scan(all_keys, all_owners, j as int),
        decreases keys@.len() - j,
    {
        let key = keys[j];
        proof {
            assert(owners@[j as int] < n_tris);
        }
        let ghost edges_before = edges@;
        // handle each undirected edge once, at its first occurrence
        let mut first = true;
        let mut i: usize = 0;
        while i < j
            invariant
                i <= j < keys@.len(),
                key == keys@[j as int],
                first == (forall|q: int| 0 <= q < i ==> keys@[q] != key),
            decreases j - i,
        {
            if keys[i].0 == key.0 && keys[i].1 == key.1 {
                first = false;
            }
            i = i + 1;
        }
        if first {
            // the triangles sharing this edge, in order
            let mut count: usize = 0;
            let mut t1: usize = 0;
            let mut t2: usize = 0;
            let mut i: usize = 0;
            while i < keys.len()
                invariant
                    i <= keys@.len(),
                    keys@.len() == owners@.len(),
                    forall|q: int| 0 <= q < keys@.len() ==> #[trigger] owners@[q] < n_tris,
                    count <= i,
                    count >= 1 ==> t1 < n_tris,
                    count >= 2 ==> t2 < n_tris,
                    count == owners_of(keys@, owners@, key, i as int).len(),
                    count >= 1 ==> t1 == owners_of(keys@, owners@, key, i as int)[0],
                    count >= 2 ==> t2 == owners_of(keys@, owners@, key, i as int)[1],
                decreases keys@.len() - i,
            {
                if keys[i].0 == key.0 && keys[i].1 == key.1 {
                    if count == 0 {
                        t1 = owners[i];
                    } else if count == 1 {
                        t2 = owners[i];
                    }
                    count = count + 1;
                }
                i = i + 1;
            }
            if count == 2 {
                let pair = if t1 < t2 {
                    (t1, t2)
                } else {
                    (t2, t1)
                };
                if !contains_pair(&seen, pair) {
                    seen.push(pair);
                    edges.push(VoronoiEdge { start: Some(t1), end: Some(t2), sites: key });
                }
            } else if count == 1 {
                edges.push(VoronoiEdge { start: Some(t1), end: None, sites: key });
            }
        }
        proof {
            assert forall|e: int| 0 <= e < edges@.len() implies {
                &&& (#[trigger] edges@[e]).start matches Some(s) && s < n_tris
                &&& edges@[e].end matches Some(t) ==> t < n_tris
                &&& edges@[e].sites.0 <= edges@[e].sites.1 < n_sites
            } by {
                if e < edges_before.len() {
                    assert(edges@[e] == edges_before[e]);
                }
            }
        }
        j = j + 1;
    }
    edges
}

/// Swapping two adjacent entries keeps the same elements.
proof fn lemma_swap_same_elements(old: Seq<usize>, new: Seq<usize>, j: int)
    requires
        1 <= j < old.len(),
        new == old.update(j, old[j - 1]).update(j - 1, old[j]),
    ensures
        forall|x: usize| old.contains(x) <==> new.contains(x),
        forall|k: int| 0 <= k < new.len() ==> old.contains(#[trigger] new[k]),
{
    assert forall|x: usize| old.contains(x) implies new.contains(x) by {
        let k = choose|k: int| 0 <= k < old.len() && old[k] == x;
        if k == j {
            assert(new[j - 1] == x);
        } else if k == j - 1 {
            assert(new[j] == x);
        } else {
            assert(new[k] == x);
        }
    }
    assert forall|k: int| 0 <= k < new.len() implies old.contains(#[trigger] new[k]) by {
        if k == j {
            assert(new[k] == old[j - 1]);
        } else if k == j - 1 {
            assert(new[k] == old[j]);
        } else {
            assert(new[k] == old[k]);
        }
    }
}

/// The triangles around site `s`, sorted counter-clockwise by circumcenter.
fn build_cell(tr: &Triangulation, vs: &Vec<VoronoiVertex>, s: usize) -> (cell: Vec<usize>)
    requires
        tr.valid(),
        coords_within(tr.points@, voronoi_coord_bound()),
        vertices_match(vs@, tr.points@, tr.triangles@),
        s < tr.points@.len(),
    ensures
        forall|k: int|
            0 <= k < cell@.len() ==> #[trigger] cell@[k] < tr.triangles@.len()
                && tr.triangles@[cell@[k] as int].has_vertex(s),
        forall|t: usize|
            t < tr.triangles@.len() && #[trigger] tr.triangles@[t as int].has_vertex(s) ==> cell@.contains(t),
        cell_sorted(vs@, tr.points@[s as int], cell@),
{
    let n_tris = tr.triangles.len();
    let site = tr.points[s];
    proof {
        assert(abs_le(tr.points@[s as int].x as int, voronoi_coord_bound()));
    }
    let mut cell: Vec<usize> = Vec::new();
    let mut t: usize = 0;
    while t < n_tris
        invariant
            n_tris == tr.triangles@.len(),
            t <= n_tris,
            forall|k: int|
                0 <= k < cell@.len() ==> #[trigger] cell@[k] < n_tris && tr.triangles@[cell@[k] as int].has_vertex(s),
            forall|u: usize| u < t && #[trigger] tr.triangles@[u as int].has_vertex(s) ==> cell@.contains(u),
        decreases n_tris - t,
    {
        let tri = tr.triangles[t];
        let ghost before = cell@;
        let mut k: usize = 0;
        while k < 3
            invariant
                k <= 3,
                t < n_tris,
                n_tris == tr.triangles@.len(),
                tri == tr.triangles@[t as int],
                forall|q: int|
                    0 <= q < cell@.len() ==> #[trigger] cell@[q] < n_tris && tr.triangles@[cell@[q] as int].has_vertex(s),
                forall|q: int| 0 <= q < before.len() ==> #[trigger] cell@[q] == before[q],
                cell@.len() >= before.len(),
                k > 0 && tri.vertices[0] == s ==> cell@.contains(t),
                k > 1 && tri.vertices[1] == s ==> cell@.contains(t),
                k > 2 && tri.vertices[2] == s ==> cell@.contains(t),
            decreases 3 - k,
        {
            if tri.vertices[k] == s {
                cell.push(t);
                proof {
                    assert(cell@[cell@.len() - 1] == t);
                }
            }
            k = k + 1;
        }
        proof {
            assert forall|u: usize| u < t + 1 && #[trigger] tr.triangles@[u as int].has_vertex(s) implies cell@.contains(u) by {
                if u < t {
                    assert(before.contains(u));
                    let q = choose|q: int| 0 <= q < before.len() && before[q] == u;
                    assert(cell@[q] == u);
                }
            }
        }
        t = t + 1;
    }

    // stable insertion sort by angle around the site
    let m = cell.len();
    let mut i: usize = 1;
    while i < m
        invariant
            n_tris == tr.triangles@.len(),
            tr.valid(),
            coords_within(tr.points@, voronoi_coord_bound()),
            vertices_match(vs@, tr.points@, tr.triangles@),
            site == tr.points@[s as int],
            abs_le(site.x as int, voronoi_coord_bound()) && abs_le(site.y as int, voronoi_coord_bound()),
            cell@.len() == m,
            m >= 1 ==> 1 <= i,
            i <= m || m == 0,
            forall|k: int|
                0 <= k < cell@.len() ==> #[trigger] cell@[k] < n_tris && tr.triangles@[cell@[k] as int].has_vertex(s),
            forall|u: usize| u < n_tris && #[trigger] tr.triangles@[u as int].has_vertex(s) ==> cell@.contains(u),
            forall|k: int| 0 <= k && k + 1 < i ==> !cell_before(vs@, site, #[trigger] cell@[k + 1], cell@[k]),
        decreases m - i,
    {
        let mut j: usize = i;
        loop
            invariant
                n_tris == tr.triangles@.len(),
                tr.valid(),
                coords_within(tr.points@, voronoi_coord_bound()),
                vertices_match(vs@, tr.points@, tr.triangles@),
                abs_le(site.x as int, voronoi_coord_bound()) && abs_le(site.y as int, voronoi_coord_bound()),
                cell@.len() == m,
                j <= i < m,
                forall|k: int|
                    0 <= k < cell@.len() ==> #[trigger] cell@[k] < n_tris && tr.triangles@[cell@[k] as int].has_vertex(s),
                forall|u: usize| u < n_tris && #[trigger] tr.triangles@[u as int].has_vertex(s) ==> cell@.contains(u),
                forall|k: int| 0 <= k && k + 1 < j ==> !cell_before(vs@, site, #[trigger] cell@[k + 1], cell@[k]),
                forall|k: int| j < k && k + 1 <= i ==> !cell_before(vs@, site, #[trigger] cell@[k + 1], cell@[k]),
                j < i ==> !cell_before(vs@, site, cell@[j + 1], cell@[j as int]),
                0 < j < i ==> !cell_before(vs@, site, cell@[j + 1], cell@[j - 1]),
            ensures
                cell@.len() == m,
                forall|k: int|
                    0 <= k < cell@.len() ==> #[trigger] cell@[k] < n_tris && tr.triangles@[cell@[k] as int].has_vertex(s),
                forall|u: usize| u < n_tris && #[trigger] tr.triangles@[u as int].has_vertex(s) ==> cell@.contains(u),
                forall|k: int| 0 <= k && k + 1 < i + 1 ==> !cell_before(vs@, site, #[trigger] cell@[k + 1], cell@[k]),
            decreases j,
        {
            if j == 0 {
                proof {
                    assert forall|k: int| 0 <= k && k + 1 < i + 1 implies !cell_before(vs@, site, #[trigger] cell@[k + 1], cell@[k]) by {
                        if k == 0 && i > 0 {
                        }
                    }
                }
                break;
            }
            let x = cell[j];
            let y = cell[j - 1];
            proof {
                lemma_cell_pair_fits(vs@, tr.points@, tr.triangles@, site, x, y);
            }
            if !cell_less(vs, site, x, y) {
                proof {
                    assert forall|k: int| 0 <= k && k + 1 < i + 1 implies !cell_before(vs@, site, #[trigger] cell@[k + 1], cell@[k]) by {
                        if k + 1 < j {
                        } else if k + 1 == j {
                        } else if k == j {
                        } else {
                        }
                    }
                }
                break;
            }
            proof {
                if j >= 2 {
                    assert(!cell_before(vs@, site, cell@[j - 2 + 1], cell@[j - 2]));
                }
            }
            let ghost old_cell = cell@;
            cell.set(j, y);
            cell.set(j - 1, x);
            proof {
                lemma_swap_same_elements(old_cell, cell@, j as int);
                lemma_cell_before_asymmetric(vs@, site, x, y);
                assert forall|u: usize| u < n_tris && #[trigger] tr.triangles@[u as int].has_vertex(s) implies cell@.contains(u) by {
                    assert(old_cell.contains(u));
                }
                assert forall|k: int| 0 <= k < cell@.len() implies #[trigger] cell@[k] < n_tris && tr.triangles@[cell@[k] as int].has_vertex(s) by {
                    assert(old_cell.contains(cell@[k]));
                    let q = choose|q: int| 0 <= q < old_cell.len() && old_cell[q] == cell@[k];
                    assert(old_cell[q] < n_tris);
                }
                assert forall|k: int| 0 <= k && k + 1 < j - 1 implies !cell_before(vs@, site, #[trigger] cell@[k + 1], cell@[k]) by {
                    assert(cell@[k + 1] == old_cell[k + 1]);
                    assert(cell@[k] == old_cell[k]);
                }
                assert forall|k: int| j - 1 < k && k + 1 <= i implies !cell_before(vs@, site, #[trigger] cell@[k + 1], cell@[k]) by {
                    if k == j {
                        assert(cell@[k] == old_cell[j - 1]);
                        assert(cell@[k + 1] == old_cell[j + 1]);
                    } else {
                        assert(cell@[k + 1] == old_cell[k + 1]);
                        assert(cell@[k] == old_cell[k]);
                    }
                }
                if j >= 2 {
                    assert(cell@[j - 2] == old_cell[j - 2]);
                    assert(!cell_before(vs@, site, old_cell[j - 1], old_cell[j - 2]));
                }
            }
            j = j - 1;
        }
        i = i + 1;
    }
    cell
}

/// Structural facts about a Voronoi diagram computed from the triangles
/// `tris` over the points `pts`.
pub open spec fn diagram_of(d: VoronoiDiagram, pts: Seq<Point2<i64>>, tris: Seq<crate::algo::Triangle>) -> bool {
    &&& d.sites@ == pts
    &&& vertices_match(d.vertices@, pts, tris)
    &&& edges_valid(d.edges@, pts.len() as int, tris.len() as int)
    &&& d.edges@ == voronoi_edges(tris)
    &&& d.cells@.len() == pts.len()
    &&& forall|s: int, k: int|
        0 <= s < d.cells@.len() && 0 <= k < d.cells@[s]@.len() ==> (#[trigger] d.cells@[s]@[k])
            < tris.len() && tris[d.cells@[s]@[k] as int].has_vertex(s as usize)
    &&& forall|s: int, t: usize|
        0 <= s < d.cells@.len() && t < tris.len() && #[trigger] tris[t as int].has_vertex(
            s as usize,
        ) ==> #[trigger] d.cells@[s]@.contains(t)
    &&& forall|s: int|
        0 <= s < d.cells@.len() ==> cell_sorted(d.vertices@, pts[s], #[trigger] d.cells@[s]@)
}

/// Computes the Voronoi diagram from an existing Delaunay triangulation:
/// one vertex per triangle (its circumcenter); for each Delaunay edge, in
/// the order the triangles first list it, an edge joining the circumcenters
/// of its two triangles (once per pair of triangles) or, for an edge of one
/// triangle only, a ray from that triangle's circumcenter; and for each site
/// the circumcenters of its triangles in counter-clockwise order.
pub fn voronoi_from_delaunay(triangulation: &Triangulation) -> (d: VoronoiDiagram)
    requires
        triangulation.valid(),
        coords_within(triangulation.points@, voronoi_coord_bound()),
    ensures
        diagram_of(d, triangulation.points@, triangulation.triangles@),
{
    let n_sites = triangulation.points.len();
    let vertices = build_vertices(triangulation);
    let edges = build_edges(triangulation);
    let mut cells: Vec<Vec<usize>> = Vec::new();
    let mut s: usize = 0;
    while s < n_sites
        invariant
            n_sites == triangulation.points@.len(),
            triangulation.valid(),
            coords_within(triangulation.points@, voronoi_coord_bound()),
            vertices_match(vertices@, triangulation.points@, triangulation.triangles@),
            s <= n_sites,
            cells@.len() == s,
            forall|q: int, k: int|
                0 <= q < cells@.len() && 0 <= k < cells@[q]@.len() ==> (#[trigger] cells@[q]@[k])
                    < triangulation.triangles@.len() && triangulation.triangles@[cells@[q]@[k] as int].has_vertex(
                    q as usize,
                ),
            forall|q: int, t: usize|
                0 <= q < cells@.len() && t < triangulation.triangles@.len()
                    && #[trigger] triangulation.triangles@[t as int].has_vertex(q as usize)
                    ==> #[trigger] cells@[q]@.contains(t),
            forall|q: int|
                0 <= q < cells@.len() ==> cell_sorted(
                    vertices@,
                    triangulation.points@[q],
                    #[trigger] cells@[q]@,
                ),
        decreases n_sites - s,
    {
        let cell = build_cell(triangulation, &vertices, s);
        let ghost before = cells@;
        cells.push(cell);
        proof {
            assert(cells@[s as int] == cell);
            assert forall|q: int, k: int|
                0 <= q < cells@.len() && 0 <= k < cells@[q]@.len() implies (#[trigger] cells@[q]@[k])
                    < triangulation.triangles@.len() && triangulation.triangles@[cells@[q]@[k] as int].has_vertex(
                    q as usize,
                ) by {
                if q < s {
                    assert(cells@[q] == before[q]);
                }
            }
            assert forall|q: int, t: usize|
                0 <= q < cells@.len() && t < triangulation.triangles@.len()
                    && #[trigger] triangulation.triangles@[t as int].has_vertex(q as usize)
                    implies #[trigger] cells@[q]@.contains(t) by {
                if q < s {
                    assert(cells@[q] == before[q]);
                }
            }
            assert forall|q: int| 0 <= q < cells@.len() implies cell_sorted(
                vertices@,
                triangulation.points@[q],
                #[trigger] cells@[q]@,
            ) by {
                if q < s {
                    assert(cells@[q] == before[q]);
                }
            }
        }
        s = s + 1;
    }
    let sites = vstd::slice::slice_to_vec(triangulation.points.as_slice());
    VoronoiDiagram { sites, vertices, edges, cells }
}

/// Computes the Voronoi diagram of a set of 2D points.
///
/// Returns `None` exactly when the Delaunay triangulation does (fewer than
/// 3 points, or no triangle).
pub fn voronoi(points: &[Point2<i64>]) -> (r: Option<VoronoiDiagram>)
    requires
        coords_within(points@, voronoi_coord_bound()),
    ensures
        points@.len() < 3 ==> r is None,
        points@.len() >= 3 ==> (r is None <==> bowyer_watson(points@).len() == 0),
        r matches Some(d) ==> diagram_of(d, points@, bowyer_watson(points@)),
        r matches Some(d) ==> d.sites@ == points@ && d.vertices@.len() > 0
            && edges_valid(d.edges@, points@.len() as int, d.vertices@.len() as int)
            && d.cells@.len() == points@.len(),
{
    proof {
        assert forall|k: int| 0 <= k < points@.len() implies abs_le((#[trigger] points@[k]).x as int, delaunay_coord_bound()) && abs_le(points@[k].y as int, delaunay_coord_bound()) by {
            assert(abs_le(points@[k].x as int, voronoi_coord_bound()));
        }
    }
    let triangulation = delaunay(points)?;
    Some(voronoi_from_delaunay(&triangulation))
}

// ---------------------------------------------------------------------------
// The circumcenter is equidistant from the three vertices
// ---------------------------------------------------------------------------

/// The bisector identity over independent atoms `la`, `lb`, `lc` standing
/// for the lifted coordinates of `a`, `b`, `c`.
proof fn lemma_bisector_atoms(la: int, lb: int, lc: int, ax: int, ay: int, bx: int, by: int, cx: int, cy: int)
    ensures
        ({
            let ux = la * (by - cy) + lb * (cy - ay) + lc * (ay - by);
            let uy = la * (cx - bx) + lb * (ax - cx) + lc * (bx - ax);
            let d0 = ax * (by - cy) + bx * (cy - ay) + cx * (ay - by);
            (bx - ax) * ux + (by - ay) * uy == (lb - la) * d0
        }),
{
    let (p1, p2) = (bx - ax, by - ay);
    let (q1, q2, q3) = (by - cy, cy - ay, ay - by);
    let (r1, r2, r3) = (cx - bx, ax - cx, bx - ax);
    let ux = la * q1 + lb * q2 + lc * q3;
    let uy = la * r1 + lb * r2 + lc * r3;
    let d0 = ax * (by - cy) + bx * (cy - ay) + cx * (ay - by);
    assert(p1 * ux == p1 * (la * q1) + p1 * (lb * q2) + p1 * (lc * q3)) by (nonlinear_arith)
        requires
            ux == la * q1 + lb * q2 + lc * q3,
    ;
    assert(p2 * uy == p2 * (la * r1) + p2 * (lb * r2) + p2 * (lc * r3)) by (nonlinear_arith)
        requires
            uy == la * r1 + lb * r2 + lc * r3,
    ;
    crate::predicates::lemma_triple(p1, la, q1);
    crate::predicates::lemma_triple(p1, lb, q2);
    crate::predicates::lemma_triple(p1, lc, q3);
    crate::predicates::lemma_triple(p2, la, r1);
    crate::predicates::lemma_triple(p2, lb, r2);
    crate::predicates::lemma_triple(p2, lc, r3);
    assert(p1 * q1 + p2 * r1 == -d0) by (nonlinear_arith)
        requires
            p1 == bx - ax,
            p2 == by - ay,
            q1 == by - cy,
            r1 == cx - bx,
            d0 == ax * (by - cy) + bx * (cy - ay) + cx * (ay - by),
    ;
    assert(p1 * q2 + p2 * r2 == d0) by (nonlinear_arith)
        requires
            p1 == bx - ax,
            p2 == by - ay,
            q2 == cy - ay,
            r2 == ax - cx,
            d0 == ax * (by - cy) + bx * (cy - ay) + cx * (ay - by),
    ;
    assert(p1 * q3 + p2 * r3 == 0) by (nonlinear_arith)
        requires
            p1 == bx - ax,
            p2 == by - ay,
            q3 == ay - by,
            r3 == bx - ax,
    ;
    assert(la * (p1 * q1) + la * (p2 * r1) == la * (p1 * q1 + p2 * r1)) by (nonlinear_arith);
    assert(lb * (p1 * q2) + lb * (p2 * r2) == lb * (p1 * q2 + p2 * r2)) by (nonlinear_arith);
    assert(lc * (p1 * q3) + lc * (p2 * r3) == lc * (p1 * q3 + p2 * r3)) by (nonlinear_arith);
    assert(la * (-d0) + lb * d0 + lc * 0 == (lb - la) * d0) by (nonlinear_arith);
}

/// Squared distance from the point `(ux, uy) / d` to the integer point `p`,
/// scaled by `d^2`.
pub open spec fn scaled_dist2(ux: int, uy: int, d: int, p: Point2<i64>) -> int {
    (ux - p.x * d) * (ux - p.x * d) + (uy - p.y * d) * (uy - p.y * d)
}

/// Moving from `p` to `q`, the scaled squared distance changes by
/// `d` times the bisector expression.
proof fn lemma_scaled_dist_difference(ux: int, uy: int, d: int, p: Point2<i64>, q: Point2<i64>)
    ensures
        scaled_dist2(ux, uy, d, p) - scaled_dist2(ux, uy, d, q) == d * (2 * (q.x - p.x) * ux + 2 * (q.y
            - p.y) * uy - ((q.x * q.x + q.y * q.y) - (p.x * p.x + p.y * p.y)) * d),
{
    let (px, py, qx, qy) = (p.x as int, p.y as int, q.x as int, q.y as int);
    lemma_square_difference(ux, d, px, qx);
    lemma_square_difference(uy, d, py, qy);
    assert(d * (2 * (qx - px) * ux - (qx * qx - px * px) * d) + d * (2 * (qy - py) * uy - (qy * qy - py
        * py) * d) == d * (2 * (qx - px) * ux + 2 * (qy - py) * uy - ((qx * qx + qy * qy) - (px * px + py
        * py)) * d)) by (nonlinear_arith);
}

/// One coordinate of `lemma_scaled_dist_difference`.
proof fn lemma_square_difference(u: int, d: int, p: int, q: int)
    ensures
        (u - p * d) * (u - p * d) - (u - q * d) * (u - q * d) == d * (2 * (q - p) * u - (q * q - p * p) * d),
{
    let a = p * d;
    let b = q * d;
    assert((u - a) * (u - a) - (u - b) * (u - b) == (b - a) * (2 * u - a - b)) by (nonlinear_arith);
    assert(b - a == (q - p) * d) by (nonlinear_arith)
        requires
            a == p * d,
            b == q * d,
    ;
    assert(a + b == (p + q) * d) by (nonlinear_arith)
        requires
            a == p * d,
            b == q * d,
    ;
    assert(((q - p) * d) * (2 * u - (p + q) * d) == d * (2 * (q - p) * u - (q * q - p * p) * d))
        by (nonlinear_arith);
}

/// The circumcenter `(cc_ux, cc_uy) / cc_d` is equidistant from the three
/// vertices of the triangle (squared distances compared after scaling by
/// `cc_d^2`), whether or not the triangle is degenerate.
pub proof fn lemma_circumcenter_equidistant(a: Point2<i64>, b: Point2<i64>, c: Point2<i64>)
    ensures
        scaled_dist2(cc_ux(a, b, c), cc_uy(a, b, c), cc_d(a, b, c), a) == scaled_dist2(
            cc_ux(a, b, c),
            cc_uy(a, b, c),
            cc_d(a, b, c),
            b,
        ),
        scaled_dist2(cc_ux(a, b, c), cc_uy(a, b, c), cc_d(a, b, c), a) == scaled_dist2(
            cc_ux(a, b, c),
            cc_uy(a, b, c),
            cc_d(a, b, c),
            c,
        ),
{
    let (ax, ay, bx, by, cx, cy) = (a.x as int, a.y as int, b.x as int, b.y as int, c.x as int, c.y as int);
    let (la, lb, lc) = (ax * ax + ay * ay, bx * bx + by * by, cx * cx + cy * cy);
    let ux = cc_ux(a, b, c);
    let uy = cc_uy(a, b, c);
    let d = cc_d(a, b, c);
    let d0 = ax * (by - cy) + bx * (cy - ay) + cx * (ay - by);
    // toward b
    lemma_bisector_atoms(la, lb, lc, ax, ay, bx, by, cx, cy);
    // toward c: the same identity with b and c exchanged
    lemma_bisector_atoms(la, lc, lb, ax, ay, cx, cy, bx, by);
    let ux_c = la * (cy - by) + lc * (by - ay) + lb * (ay - cy);
    let uy_c = la * (bx - cx) + lc * (ax - bx) + lb * (cx - ax);
    let d0_c = ax * (cy - by) + cx * (by - ay) + bx * (ay - cy);
    assert(ux_c == -ux && uy_c == -uy && d0_c == -d0) by (nonlinear_arith)
        requires
            ux == la * (by - cy) + lb * (cy - ay) + lc * (ay - by),
            uy == la * (cx - bx) + lb * (ax - cx) + lc * (bx - ax),
            ux_c == la * (cy - by) + lc * (by - ay) + lb * (ay - cy),
            uy_c == la * (bx - cx) + lc * (ax - bx) + lb * (cx - ax),
            d0 == ax * (by - cy) + bx * (cy - ay) + cx * (ay - by),
            d0_c == ax * (cy - by) + cx * (by - ay) + bx * (ay - cy),
    ;
    assert((cx - ax) * (-ux) + (cy - ay) * (-uy) == -((cx - ax) * ux + (cy - ay) * uy)) by (nonlinear_arith);
    assert((lc - la) * (-d0) == -((lc - la) * d0)) by (nonlinear_arith);
    assert(d == 2 * d0);
    assert(2 * (bx - ax) * ux + 2 * (by - ay) * uy - (lb - la) * d == 2 * ((bx - ax) * ux + (by - ay) * uy
        - (lb - la) * d0)) by (nonlinear_arith)
        requires
            d == 2 * d0,
    ;
    assert(2 * (cx - ax) * ux + 2 * (cy - ay) * uy - (lc - la) * d == 2 * ((cx - ax) * ux + (cy - ay) * uy
        - (lc - la) * d0)) by (nonlinear_arith)
        requires
            d == 2 * d0,
    ;
    let eb = 2 * (bx - ax) * ux + 2 * (by - ay) * uy - (lb - la) * d;
    let ec = 2 * (cx - ax) * ux + 2 * (cy - ay) * uy - (lc - la) * d;
    assert(eb == 0 && ec == 0);
    assert(d * eb == 0 && d * ec == 0) by (nonlinear_arith)
        requires
            eb == 0,
            ec == 0,
    ;
    lemma_scaled_dist_difference(ux, uy, d, a, b);
    lemma_scaled_dist_difference(ux, uy, d, a, c);
}

} // verus!
