//! Delaunay triangulation using the Bowyer-Watson algorithm.
use std::cmp::Ordering;
use vstd::prelude::*;

use crate::predicates::{
    abs_le, incircle, incircle_det, incircle_fits, incircle_small, lemma_incircle_small_fits,
    lemma_orient2d_symmetry, orient2d,
    orient2d_det, orient2d_fits,
};
use crate::Point2;

verus! {

/// A triangle represented by indices into a point array.
#[derive(Debug, Clone, Copy, PartialEq, Eq, Hash)]
pub struct Triangle {
    /// Indices of the three vertices in counter-clockwise order.
    pub vertices: [usize; 3],
}

impl Triangle {
    /// All three vertex indices are below `n`.
    pub open spec fn indices_below(self, n: int) -> bool {
        self.vertices[0] < n && self.vertices[1] < n && self.vertices[2] < n
    }

    /// `v` is one of the three vertex indices.
    pub open spec fn has_vertex(self, v: usize) -> bool {
        self.vertices[0] == v || self.vertices[1] == v || self.vertices[2] == v
    }

    /// The directed edges `(a, b)`, `(b, c)`, `(c, a)`.
    pub open spec fn edge_seq(self) -> Seq<(usize, usize)> {
        seq![
            (self.vertices[0], self.vertices[1]),
            (self.vertices[1], self.vertices[2]),
            (self.vertices[2], self.vertices[0]),
        ]
    }

    /// Creates a new triangle from three vertex indices (counter-clockwise).
    pub fn new(a: usize, b: usize, c: usize) -> (t: Self)
        ensures
            t.vertices[0] == a,
            t.vertices[1] == b,
            t.vertices[2] == c,
            t == tri3(a, b, c),
    {
        Self { vertices: [a, b, c] }
    }

    /// Returns the three edges as pairs of vertex indices.
    pub fn edges(&self) -> (r: [(usize, usize); 3])
        ensures
            r@ == self.edge_seq(),
    {
        let a = self.vertices[0];
        let b = self.vertices[1];
        let c = self.vertices[2];
        let r = [(a, b), (b, c), (c, a)];
        assert(r@ =~= self.edge_seq());
        r
    }

    /// Checks if the triangle contains a vertex index.
    pub fn contains_vertex(&self, v: usize) -> (r: bool)
        ensures
            r == self.has_vertex(v),
    {
        self.vertices[0] == v || self.vertices[1] == v || self.vertices[2] == v
    }
}

/// Result of Delaunay triangulation.
#[derive(Debug, Clone)]
pub struct Triangulation {
    /// The input points.
    pub points: Vec<Point2<i64>>,
    /// The triangles, each storing indices into `points`.
    pub triangles: Vec<Triangle>,
}

impl Triangulation {
    /// Every triangle refers to existing points.
    pub open spec fn valid(&self) -> bool {
        forall|t: int|
            0 <= t < self.triangles@.len() ==> #[trigger] self.triangles@[t].indices_below(
                self.points@.len() as int,
            )
    }

    /// Returns the triangles as point triples.
    pub fn triangle_points(&self) -> (r: Vec<[Point2<i64>; 3]>)
        requires
            self.valid(),
        ensures
            r@.len() == self.triangles@.len(),
            forall|t: int|
                0 <= t < r@.len() ==> {
                    &&& (#[trigger] r@[t])[0] == self.points@[self.triangles@[t].vertices[0] as int]
                    &&& r@[t][1] == self.points@[self.triangles@[t].vertices[1] as int]
                    &&& r@[t][2] == self.points@[self.triangles@[t].vertices[2] as int]
                },
    {
        let mut r: Vec<[Point2<i64>; 3]> = Vec::new();
        let mut t: usize = 0;
        while t < self.triangles.len()
            invariant
                self.valid(),
                t <= self.triangles@.len(),
                r@.len() == t,
                forall|k: int|
                    0 <= k < t ==> {
                        &&& (#[trigger] r@[k])[0] == self.points@[self.triangles@[k].vertices[0] as int]
                        &&& r@[k][1] == self.points@[self.triangles@[k].vertices[1] as int]
                        &&& r@[k][2] == self.points@[self.triangles@[k].vertices[2] as int]
                    },
            decreases self.triangles@.len() - t,
        {
            let tri = self.triangles[t];
            proof {
                assert(self.triangles@[t as int].indices_below(self.points@.len() as int));
            }
            let a = self.points[tri.vertices[0]];
            let b = self.points[tri.vertices[1]];
            let c = self.points[tri.vertices[2]];
            r.push([a, b, c]);
            t = t + 1;
        }
        r
    }
}

/// Largest coordinate magnitude `delaunay` accepts; keeps every `incircle`
/// test (including the enclosing super-triangle) exact in `i128`.
pub open spec fn delaunay_coord_bound() -> int {
    0x80_0000
}

/// Every coordinate has magnitude at most `b`.
pub open spec fn coords_within(s: Seq<Point2<i64>>, b: int) -> bool {
    forall|k: int| 0 <= k < s.len() ==> abs_le((#[trigger] s[k]).x as int, b) && abs_le(s[k].y as int, b)
}

/// Every triangle of `tris` refers to indices below `n`.
pub open spec fn tris_below(tris: Seq<Triangle>, n: int) -> bool {
    forall|t: int| 0 <= t < tris.len() ==> #[trigger] tris[t].indices_below(n)
}

/// Triangle `t` over the points `pts` turns counter-clockwise or is flat
/// (its orientation is not negative).
pub open spec fn ccw_or_flat(pts: Seq<Point2<i64>>, t: Triangle) -> bool {
    orient2d_det(pts[t.vertices[0] as int], pts[t.vertices[1] as int], pts[t.vertices[2] as int]) >= 0
}

/// Every triangle of `tris` is counter-clockwise or flat over `pts`.
pub open spec fn tris_ccw(pts: Seq<Point2<i64>>, tris: Seq<Triangle>) -> bool {
    forall|t: int| 0 <= t < tris.len() ==> #[trigger] ccw_or_flat(pts, tris[t])
}

/// The triangle with vertices `a`, `b`, `c`.
pub open spec fn tri3(a: usize, b: usize, c: usize) -> Triangle {
    Triangle { vertices: [a, b, c] }
}

/// Two directed edges are the same undirected edge.
pub open spec fn same_undirected(e: (usize, usize), f: (usize, usize)) -> bool {
    (e.0 == f.0 && e.1 == f.1) || (e.0 == f.1 && e.1 == f.0)
}

/// The directed edges of the triangles `tris[bad[0]]`, ..., `tris[bad[k-1]]`, in order.
pub open spec fn cavity_edges(tris: Seq<Triangle>, bad: Seq<usize>, k: int) -> Seq<(usize, usize)>
    decreases k,
{
    if k <= 0 {
        seq![]
    } else {
        cavity_edges(tris, bad, k - 1) + tris[bad[k - 1] as int].edge_seq()
    }
}

/// Number of edges among the first `k` of `all` that equal `e` as undirected edges.
pub open spec fn edge_count(all: Seq<(usize, usize)>, e: (usize, usize), k: int) -> nat
    decreases k,
{
    if k <= 0 {
        0
    } else {
        edge_count(all, e, k - 1) + if same_undirected(all[k - 1], e) {
            1nat
        } else {
            0nat
        }
    }
}

/// The edges among the first `k` of `all` whose undirected edge occurs exactly once in `all`.
pub open spec fn once_edges(all: Seq<(usize, usize)>, k: int) -> Seq<(usize, usize)>
    decreases k,
{
    if k <= 0 {
        seq![]
    } else if edge_count(all, all[k - 1], all.len() as int) == 1 {
        once_edges(all, k - 1).push(all[k - 1])
    } else {
        once_edges(all, k - 1)
    }
}

/// Every element of `once_edges(all, k)` is an element of `all`.
proof fn lemma_once_edges_from(all: Seq<(usize, usize)>, k: int)
    requires
        0 <= k <= all.len(),
    ensures
        forall|j: int|
            0 <= j < once_edges(all, k).len() ==> all.contains(#[trigger] once_edges(all, k)[j]),
    decreases k,
{
    if k > 0 {
        lemma_once_edges_from(all, k - 1);
        assert(all[k - 1] == all[k - 1]);
        let prev = once_edges(all, k - 1);
        if edge_count(all, all[k - 1], all.len() as int) == 1 {
            assert forall|j: int| 0 <= j < once_edges(all, k).len() implies all.contains(
                #[trigger] once_edges(all, k)[j],
            ) by {
                if j < prev.len() {
                    assert(once_edges(all, k)[j] == prev[j]);
                } else {
                    assert(once_edges(all, k)[j] == all[k - 1]);
                }
            }
        }
    }
}

/// Every edge of the cavity joins vertices below `n`.
proof fn lemma_cavity_edges_below(tris: Seq<Triangle>, bad: Seq<usize>, k: int, n: int)
    requires
        0 <= k <= bad.len(),
        forall|j: int| 0 <= j < bad.len() ==> #[trigger] bad[j] < tris.len(),
        tris_below(tris, n),
    ensures
        forall|j: int|
            0 <= j < cavity_edges(tris, bad, k).len() ==> (#[trigger] cavity_edges(tris, bad, k)[j]).0
                < n && cavity_edges(tris, bad, k)[j].1 < n,
        cavity_edges(tris, bad, k).len() == 3 * k,
    decreases k,
{
    if k > 0 {
        lemma_cavity_edges_below(tris, bad, k - 1, n);
        let prev = cavity_edges(tris, bad, k - 1);
        let t = tris[bad[k - 1] as int];
        assert(t.indices_below(n));
        assert forall|j: int| 0 <= j < cavity_edges(tris, bad, k).len() implies (
        #[trigger] cavity_edges(tris, bad, k)[j]).0 < n && cavity_edges(tris, bad, k)[j].1 < n by {
            if j < prev.len() {
                assert(cavity_edges(tris, bad, k)[j] == prev[j]);
            } else {
                assert(cavity_edges(tris, bad, k)[j] == t.edge_seq()[j - prev.len()]);
            }
        }
    }
}

/// Counts the edges of `all` equal to `e` as undirected edges.
fn count_undirected(all: &Vec<(usize, usize)>, e: (usize, usize)) -> (c: usize)
    ensures
        c == edge_count(all@, e, all@.len() as int),
{
    let mut c: usize = 0;
    let mut j: usize = 0;
    while j < all.len()
        invariant
            j <= all@.len(),
            c == edge_count(all@, e, j as int),
            c <= j,
        decreases all@.len() - j,
    {
        let f = all[j];
        if (f.0 == e.0 && f.1 == e.1) || (f.0 == e.1 && f.1 == e.0) {
            c = c + 1;
        }
        j = j + 1;
    }
    c
}

/// Finds the boundary edges of the cavity formed by the bad triangles: the
/// directed edges of bad triangles whose undirected edge belongs to exactly
/// one bad triangle, in the order the bad triangles list them.
fn find_cavity_boundary(triangles: &Vec<Triangle>, bad_indices: &Vec<usize>) -> (r: Vec<(usize, usize)>)
    requires
        forall|j: int| 0 <= j < bad_indices@.len() ==> #[trigger] bad_indices@[j] < triangles@.len(),
    ensures
        r@ == once_edges(
            cavity_edges(triangles@, bad_indices@, bad_indices@.len() as int),
            3 * bad_indices@.len() as int,
        ),
{
    let mut all: Vec<(usize, usize)> = Vec::new();
    let mut k: usize = 0;
    while k < bad_indices.len()
        invariant
            k <= bad_indices@.len(),
            forall|j: int| 0 <= j < bad_indices@.len() ==> #[trigger] bad_indices@[j] < triangles@.len(),
            all@ == cavity_edges(triangles@, bad_indices@, k as int),
            all@.len() == 3 * k,
        decreases bad_indices@.len() - k,
    {
        let es = triangles[bad_indices[k]].edges();
        all.push(es[0]);
        all.push(es[1]);
        all.push(es[2]);
        proof {
            assert(all@ =~= cavity_edges(triangles@, bad_indices@, k + 1));
        }
        k = k + 1;
    }
    let mut boundary: Vec<(usize, usize)> = Vec::new();
    let mut j: usize = 0;
    while j < all.len()
        invariant
            j <= all@.len(),
            all@ == cavity_edges(triangles@, bad_indices@, bad_indices@.len() as int),
            all@.len() == 3 * bad_indices@.len(),
            boundary@ == once_edges(all@, j as int),
        decreases all@.len() - j,
    {
        let e = all[j];
        if count_undirected(&all, e) == 1 {
            boundary.push(e);
        }
        j = j + 1;
    }
    boundary
}

/// The smallest and largest coordinates of a point set.
pub open spec fn is_bounding_box(s: Seq<Point2<i64>>, r: (i64, i64, i64, i64)) -> bool {
    &&& forall|k: int|
        0 <= k < s.len() ==> r.0 <= (#[trigger] s[k]).x <= r.1 && r.2 <= s[k].y <= r.3
    &&& s.len() > 0 ==> (exists|k: int| 0 <= k < s.len() && #[trigger] s[k].x == r.0)
    &&& s.len() > 0 ==> (exists|k: int| 0 <= k < s.len() && #[trigger] s[k].x == r.1)
    &&& s.len() > 0 ==> (exists|k: int| 0 <= k < s.len() && #[trigger] s[k].y == r.2)
    &&& s.len() > 0 ==> (exists|k: int| 0 <= k < s.len() && #[trigger] s[k].y == r.3)
}

/// Computes `(min_x, max_x, min_y, max_y)` of a point set.
fn bounding_box(points: &[Point2<i64>]) -> (r: (i64, i64, i64, i64))
    ensures
        is_bounding_box(points@, r),
        points@.len() == 0 ==> r == (i64::MAX, i64::MIN, i64::MAX, i64::MIN),
{
    let mut min_x = i64::MAX;
    let mut max_x = i64::MIN;
    let mut min_y = i64::MAX;
    let mut max_y = i64::MIN;
    let mut k: usize = 0;
    while k < points.len()
        invariant
            k <= points@.len(),
            is_bounding_box(points@.take(k as int), (min_x, max_x, min_y, max_y)),
            k == 0 ==> (min_x, max_x, min_y, max_y) == (i64::MAX, i64::MIN, i64::MAX, i64::MIN),
        decreases points@.len() - k,
    {
        let p = points[k];
        let ghost before = points@.take(k as int);
        let ghost bb = (min_x, max_x, min_y, max_y);
        if p.x < min_x {
            min_x = p.x;
        }
        if p.x > max_x {
            max_x = p.x;
        }
        if p.y < min_y {
            min_y = p.y;
        }
        if p.y > max_y {
            max_y = p.y;
        }
        proof {
            let now = points@.take(k + 1);
            assert(now == before.push(p));
            assert(now[k as int] == p);
            assert forall|j: int| 0 <= j < now.len() implies min_x <= (#[trigger] now[j]).x <= max_x
                && min_y <= now[j].y <= max_y by {
                if j < k {
                    assert(now[j] == before[j]);
                }
            }
            if k == 0 {
                assert(now[0].x == min_x);
                assert(now[0].x == max_x);
                assert(now[0].y == min_y);
                assert(now[0].y == max_y);
            } else {
                if min_x != p.x {
                    let w = choose|w: int| 0 <= w < before.len() && #[trigger] before[w].x == bb.0;
                    assert(now[w] == before[w]);
                }
                if max_x != p.x {
                    let w = choose|w: int| 0 <= w < before.len() && #[trigger] before[w].x == bb.1;
                    assert(now[w] == before[w]);
                }
                if min_y != p.y {
                    let w = choose|w: int| 0 <= w < before.len() && #[trigger] before[w].y == bb.2;
                    assert(now[w] == before[w]);
                }
                if max_y != p.y {
                    let w = choose|w: int| 0 <= w < before.len() && #[trigger] before[w].y == bb.3;
                    assert(now[w] == before[w]);
                }
            }
        }
        k = k + 1;
    }
    assert(points@.take(points@.len() as int) =~= points@);
    (min_x, max_x, min_y, max_y)
}

/// Coordinates within `2^29` keep `orient2d` and `incircle` exact.
proof fn lemma_small_points_fit(a: Point2<i64>, b: Point2<i64>, c: Point2<i64>, d: Point2<i64>)
    requires
        abs_le(a.x as int, 0x2000_0000) && abs_le(a.y as int, 0x2000_0000),
        abs_le(b.x as int, 0x2000_0000) && abs_le(b.y as int, 0x2000_0000),
        abs_le(c.x as int, 0x2000_0000) && abs_le(c.y as int, 0x2000_0000),
        abs_le(d.x as int, 0x2000_0000) && abs_le(d.y as int, 0x2000_0000),
    ensures
        incircle_fits(a, b, c, d),
        orient2d_fits(a, b, d),
{
    assert(incircle_small(a, b, c, d));
    lemma_incircle_small_fits(a, b, c, d);
    crate::predicates::lemma_orient2d_small_fits(a, b, d);
}

/// Whether `a -> b -> c` turns strictly left.
fn is_ccw(a: Point2<i64>, b: Point2<i64>, c: Point2<i64>) -> (r: bool)
    requires
        orient2d_fits(a, b, c),
    ensures
        r == (orient2d_det(a, b, c) > 0),
{
    match orient2d(a, b, c) {
        Ordering::Greater => true,
        _ => false,
    }
}

/// Whether `d` lies strictly inside the circumcircle of `a`, `b`, `c`
/// (for counter-clockwise `a`, `b`, `c`).
fn in_circumcircle(a: Point2<i64>, b: Point2<i64>, c: Point2<i64>, d: Point2<i64>) -> (r: bool)
    requires
        incircle_fits(a, b, c, d),
    ensures
        r == (incircle_det(a, b, c, d) > 0),
{
    match incircle(a, b, c, d) {
        Ordering::Greater => true,
        _ => false,
    }
}

/// Bound on every coordinate of the points and of the enclosing super-triangle.
pub open spec fn super_bound() -> int {
    41 * delaunay_coord_bound()
}

/// The bounding box `(min_x, max_x, min_y, max_y)` of a point set.
pub open spec fn bbox_of(s: Seq<Point2<i64>>) -> (i64, i64, i64, i64) {
    choose|r: (i64, i64, i64, i64)| is_bounding_box(s, r)
}

/// A nonempty point set has one bounding box.
proof fn lemma_bounding_box_unique(s: Seq<Point2<i64>>, r: (i64, i64, i64, i64))
    requires
        s.len() > 0,
        is_bounding_box(s, r),
    ensures
        bbox_of(s) == r,
{
    let q = bbox_of(s);
    assert(is_bounding_box(s, q));
    let k0 = choose|k: int| 0 <= k < s.len() && #[trigger] s[k].x == r.0;
    let k1 = choose|k: int| 0 <= k < s.len() && #[trigger] s[k].x == r.1;
    let k2 = choose|k: int| 0 <= k < s.len() && #[trigger] s[k].y == r.2;
    let k3 = choose|k: int| 0 <= k < s.len() && #[trigger] s[k].y == r.3;
    let j0 = choose|k: int| 0 <= k < s.len() && #[trigger] s[k].x == q.0;
    let j1 = choose|k: int| 0 <= k < s.len() && #[trigger] s[k].x == q.1;
    let j2 = choose|k: int| 0 <= k < s.len() && #[trigger] s[k].y == q.2;
    let j3 = choose|k: int| 0 <= k < s.len() && #[trigger] s[k].y == q.3;
    assert(q.0 <= s[k0].x && r.0 <= s[j0].x);
    assert(q.1 >= s[k1].x && r.1 >= s[j1].x);
    assert(q.2 <= s[k2].y && r.2 <= s[j2].y);
    assert(q.3 >= s[k3].y && r.3 >= s[j3].y);
}

/// The three vertices of the enclosing super-triangle that `delaunay` adds
/// after the input points: wide around the bounding box's center.
pub open spec fn super_points(s: Seq<Point2<i64>>) -> Seq<Point2<i64>> {
    let (min_x, max_x, min_y, max_y) = bbox_of(s);
    let dx: int = if max_x - min_x > 1 { max_x - min_x } else { 1 };
    let dy: int = if max_y - min_y > 1 { max_y - min_y } else { 1 };
    let delta: int = if dx > dy { dx } else { dy };
    let mid_x: int = min_x + dx / 2;
    let mid_y: int = min_y + dy / 2;
    seq![
        Point2 { x: (mid_x - 20 * delta) as i64, y: (mid_y - delta) as i64 },
        Point2 { x: mid_x as i64, y: (mid_y + 20 * delta) as i64 },
        Point2 { x: (mid_x + 20 * delta) as i64, y: (mid_y - delta) as i64 },
    ]
}

/// The input points followed by the super-triangle's vertices.
pub open spec fn with_super(s: Seq<Point2<i64>>) -> Seq<Point2<i64>> {
    s + super_points(s)
}

/// The first triangle: the super-triangle, counter-clockwise.
pub open spec fn super_triangle(ap: Seq<Point2<i64>>, n: int) -> Triangle {
    if orient2d_det(ap[n], ap[n + 1], ap[n + 2]) > 0 {
        tri3(n as usize, (n + 1) as usize, (n + 2) as usize)
    } else {
        tri3(n as usize, (n + 2) as usize, (n + 1) as usize)
    }
}

/// Indices, in increasing order, of the first `k` triangles of `tris` whose
/// circumcircle holds `p` strictly inside.
pub open spec fn bad_prefix(ap: Seq<Point2<i64>>, tris: Seq<Triangle>, p: Point2<i64>, k: int) -> Seq<usize>
    decreases k,
{
    if k <= 0 {
        seq![]
    } else {
        let prev = bad_prefix(ap, tris, p, k - 1);
        let t = tris[k - 1];
        if incircle_det(ap[t.vertices[0] as int], ap[t.vertices[1] as int], ap[t.vertices[2] as int], p)
            > 0 {
            prev.push((k - 1) as usize)
        } else {
            prev
        }
    }
}

/// `tris` after `swap_remove` of the triangle at `idx`.
pub open spec fn swap_removed(tris: Seq<Triangle>, idx: int) -> Seq<Triangle> {
    tris.update(idx, tris.last()).drop_last()
}

/// `tris` after removing, by `swap_remove`, the triangles at `bad[k-1]`,
/// `bad[k-2]`, ..., `bad[0]`, in that order.
pub open spec fn remove_bad(tris: Seq<Triangle>, bad: Seq<usize>, k: int) -> Seq<Triangle>
    decreases k,
{
    if k <= 0 {
        tris
    } else {
        remove_bad(swap_removed(tris, bad[k - 1] as int), bad, k - 1)
    }
}

/// The triangle joining the boundary edge `e` to the point `i`, counter-clockwise.
pub open spec fn fan_triangle(ap: Seq<Point2<i64>>, e: (usize, usize), i: int) -> Triangle {
    if orient2d_det(ap[e.0 as int], ap[e.1 as int], ap[i]) > 0 {
        tri3(e.0, e.1, i as usize)
    } else {
        tri3(e.1, e.0, i as usize)
    }
}

/// `tris` followed by the triangles joining the first `k` edges of `poly` to the point `i`.
pub open spec fn add_fan(ap: Seq<Point2<i64>>, tris: Seq<Triangle>, poly: Seq<(usize, usize)>, i: int, k: int) -> Seq<Triangle>
    decreases k,
{
    if k <= 0 {
        tris
    } else {
        add_fan(ap, tris, poly, i, k - 1).push(fan_triangle(ap, poly[k - 1], i))
    }
}

/// One Bowyer-Watson step: the triangles after inserting the point `i`.
pub open spec fn insert_point(ap: Seq<Point2<i64>>, tris: Seq<Triangle>, i: int) -> Seq<Triangle> {
    let bad = bad_prefix(ap, tris, ap[i], tris.len() as int);
    if bad.len() > 0 {
        let poly = once_edges(cavity_edges(tris, bad, bad.len() as int), 3 * bad.len() as int);
        add_fan(ap, remove_bad(tris, bad, bad.len() as int), poly, i, poly.len() as int)
    } else {
        tris
    }
}

/// The triangles after inserting the points `0`, ..., `k - 1` into the super-triangle.
pub open spec fn insert_points(ap: Seq<Point2<i64>>, n: int, k: int) -> Seq<Triangle>
    decreases k,
{
    if k <= 0 {
        seq![super_triangle(ap, n)]
    } else {
        insert_point(ap, insert_points(ap, n, k - 1), k - 1)
    }
}

/// The first `k` triangles of `tris` that use none of the vertices `n`, `n + 1`, `n + 2`.
pub open spec fn without_super(tris: Seq<Triangle>, n: int, k: int) -> Seq<Triangle>
    decreases k,
{
    if k <= 0 {
        seq![]
    } else {
        let prev = without_super(tris, n, k - 1);
        let t = tris[k - 1];
        if !t.has_vertex(n as usize) && !t.has_vertex((n + 1) as usize) && !t.has_vertex((n + 2) as usize) {
            prev.push(t)
        } else {
            prev
        }
    }
}

/// The triangles that the Bowyer-Watson algorithm, as `delaunay` runs it,
/// leaves for the points `s`.
pub open spec fn bowyer_watson(s: Seq<Point2<i64>>) -> Seq<Triangle> {
    let n = s.len() as int;
    let ins = insert_points(with_super(s), n, n);
    without_super(ins, n, ins.len() as int)
}

/// One Bowyer-Watson step: removes the triangles whose circumcircle holds
/// the point `i` strictly inside and connects `i` to the boundary of the
/// cavity they leave.
fn insert_vertex(all_points: &Vec<Point2<i64>>, triangles: &mut Vec<Triangle>, i: usize)
    requires
        i < all_points@.len(),
        coords_within(all_points@, super_bound()),
        tris_below(old(triangles)@, all_points@.len() as int),
        tris_ccw(all_points@, old(triangles)@),
    ensures
        final(triangles)@ == insert_point(all_points@, old(triangles)@, i as int),
        tris_below(final(triangles)@, all_points@.len() as int),
        tris_ccw(all_points@, final(triangles)@),
{
    let ghost np = all_points@.len() as int;
    let p = all_points[i];
    let ghost t0 = triangles@;
    // triangles whose circumcircle strictly contains p
    let mut bad: Vec<usize> = Vec::new();
    let mut ti: usize = 0;
    while ti < triangles.len()
        invariant
            ti <= triangles@.len(),
            i < np,
            all_points@.len() == np,
            p == all_points@[i as int],
            coords_within(all_points@, super_bound()),
            tris_below(triangles@, np),
            tris_ccw(all_points@, triangles@),
            forall|j: int| 0 <= j < bad@.len() ==> #[trigger] bad@[j] + (bad@.len() - j) <= ti,
            triangles@ == t0,
            bad@ == bad_prefix(all_points@, t0, p, ti as int),
        decreases triangles@.len() - ti,
    {
        let tri = triangles[ti];
        proof {
            assert(triangles@[ti as int].indices_below(np));
        }
        let a = all_points[tri.vertices[0]];
        let b = all_points[tri.vertices[1]];
        let c = all_points[tri.vertices[2]];
        proof {
            assert(coords_within(all_points@, super_bound()));
            assert(abs_le(all_points@[tri.vertices[0] as int].x as int, super_bound()));
            assert(abs_le(all_points@[tri.vertices[1] as int].x as int, super_bound()));
            assert(abs_le(all_points@[tri.vertices[2] as int].x as int, super_bound()));
            assert(abs_le(all_points@[i as int].x as int, super_bound()));
            lemma_small_points_fit(a, b, c, p);
        }
        if in_circumcircle(a, b, c, p) {
            bad.push(ti);
        }
        ti = ti + 1;
    }
    if bad.len() > 0 {
        let polygon = find_cavity_boundary(&triangles, &bad);
        proof {
            let all = cavity_edges(triangles@, bad@, bad@.len() as int);
            lemma_cavity_edges_below(triangles@, bad@, bad@.len() as int, np);
            lemma_once_edges_from(all, 3 * bad@.len() as int);
            assert forall|j: int| 0 <= j < polygon@.len() implies (#[trigger] polygon@[j]).0 < np
                && polygon@[j].1 < np by {
                assert(all.contains(polygon@[j]));
            }
        }
        // remove the bad triangles, highest index first
        let ghost len0 = triangles@.len();
        let ghost nbad = bad@.len() as int;
        let mut k: usize = bad.len();
        while k > 0
            invariant
                k <= bad@.len(),
                triangles@.len() == len0 - (bad@.len() - k),
                forall|j: int| 0 <= j < bad@.len() ==> #[trigger] bad@[j] + (bad@.len() - j) <= len0,
                tris_below(triangles@, np),
                tris_ccw(all_points@, triangles@),
                remove_bad(triangles@, bad@, k as int) == remove_bad(t0, bad@, nbad),
                nbad == bad@.len(),
            decreases k,
        {
            k = k - 1;
            let ghost before = triangles@;
            let idx = bad[k];
            triangles.swap_remove(idx);
            proof {
                assert(triangles@ == swap_removed(before, idx as int));
                assert(remove_bad(before, bad@, k + 1) == remove_bad(swap_removed(before, bad@[k as int] as int), bad@, k as int));
                assert forall|t: int| 0 <= t < triangles@.len() implies #[trigger] triangles@[t].indices_below(np) by {
                    if t == idx {
                        assert(triangles@[t] == before.last());
                        assert(before[before.len() - 1].indices_below(np));
                    } else {
                        assert(triangles@[t] == before[t]);
                    }
                }
                assert forall|t: int| 0 <= t < triangles@.len() implies #[trigger] ccw_or_flat(
                    all_points@,
                    triangles@[t],
                ) by {
                    if t == idx {
                        assert(triangles@[t] == before.last());
                        assert(ccw_or_flat(all_points@, before[before.len() - 1]));
                    } else {
                        assert(triangles@[t] == before[t]);
                        assert(ccw_or_flat(all_points@, before[t]));
                    }
                }
            }
        }
        // connect p to every boundary edge of the cavity, counter-clockwise
        let ghost r0 = triangles@;
        assert(r0 == remove_bad(t0, bad@, bad@.len() as int));
        let mut e: usize = 0;
        while e < polygon.len()
            invariant
                e <= polygon@.len(),
                i < np,
                all_points@.len() == np,
                p == all_points@[i as int],
                coords_within(all_points@, super_bound()),
                tris_below(triangles@, np),
                tris_ccw(all_points@, triangles@),
                forall|j: int| 0 <= j < polygon@.len() ==> (#[trigger] polygon@[j]).0 < np && polygon@[j].1 < np,
                triangles@ == add_fan(all_points@, r0, polygon@, i as int, e as int),
            decreases polygon@.len() - e,
        {
            let (a, b) = polygon[e];
            proof {
                assert(polygon@[e as int].0 < np && polygon@[e as int].1 < np);
            }
            let pa = all_points[a];
            let pb = all_points[b];
            proof {
                assert(abs_le(all_points@[a as int].x as int, super_bound()));
                assert(abs_le(all_points@[b as int].x as int, super_bound()));
                assert(abs_le(all_points@[i as int].x as int, super_bound()));
                lemma_small_points_fit(pa, pb, pb, p);
            }
            let ghost before = triangles@;
            if is_ccw(pa, pb, p) {
                triangles.push(Triangle::new(a, b, i));
            } else {
                triangles.push(Triangle::new(b, a, i));
            }
            proof {
                assert forall|t: int| 0 <= t < triangles@.len() implies #[trigger] triangles@[t].indices_below(np) by {
                    if t < before.len() {
                        assert(triangles@[t] == before[t]);
                    }
                }
                lemma_orient2d_symmetry(pa, pb, p);
                lemma_orient2d_symmetry(pb, pa, p);
                assert(polygon@[e as int] == (a, b));
                assert(triangles@ =~= add_fan(all_points@, r0, polygon@, i as int, e + 1));
                assert forall|t: int| 0 <= t < triangles@.len() implies #[trigger] ccw_or_flat(
                    all_points@,
                    triangles@[t],
                ) by {
                    if t < before.len() {
                        assert(triangles@[t] == before[t]);
                        assert(ccw_or_flat(all_points@, before[t]));
                    }
                }
            }
            e = e + 1;
        }
    }
}

/// The vertices of the super-triangle for `points`: wide around the center
/// of their bounding box.
fn super_vertices(points: &[Point2<i64>]) -> (r: (Point2<i64>, Point2<i64>, Point2<i64>))
    requires
        points@.len() > 0,
        coords_within(points@, delaunay_coord_bound()),
    ensures
        super_points(points@) == seq![r.0, r.1, r.2],
        abs_le(r.0.x as int, super_bound()) && abs_le(r.0.y as int, super_bound()),
        abs_le(r.1.x as int, super_bound()) && abs_le(r.1.y as int, super_bound()),
        abs_le(r.2.x as int, super_bound()) && abs_le(r.2.y as int, super_bound()),
{
    let (min_x, max_x, min_y, max_y) = bounding_box(points);
    proof {
        let k0 = choose|k: int| 0 <= k < points@.len() && #[trigger] points@[k].x == min_x;
        let k1 = choose|k: int| 0 <= k < points@.len() && #[trigger] points@[k].x == max_x;
        let k2 = choose|k: int| 0 <= k < points@.len() && #[trigger] points@[k].y == min_y;
        let k3 = choose|k: int| 0 <= k < points@.len() && #[trigger] points@[k].y == max_y;
        assert(abs_le(points@[k0].x as int, delaunay_coord_bound()));
        assert(abs_le(points@[k1].x as int, delaunay_coord_bound()));
        assert(abs_le(points@[k2].y as int, delaunay_coord_bound()));
        assert(abs_le(points@[k3].y as int, delaunay_coord_bound()));
        assert(points@[0].x <= max_x);
        lemma_bounding_box_unique(points@, (min_x, max_x, min_y, max_y));
    }
    let dx = if max_x - min_x > 1 {
        max_x - min_x
    } else {
        1
    };
    let dy = if max_y - min_y > 1 {
        max_y - min_y
    } else {
        1
    };
    let delta = if dx > dy {
        dx
    } else {
        dy
    };
    let mid_x = min_x + dx / 2;
    let mid_y = min_y + dy / 2;

    let p0 = Point2::new(mid_x - 20 * delta, mid_y - delta);
    let p1 = Point2::new(mid_x, mid_y + 20 * delta);
    let p2 = Point2::new(mid_x + 20 * delta, mid_y - delta);
    proof {
        assert(super_points(points@) =~= seq![p0, p1, p2]);
    }
    (p0, p1, p2)
}

/// The triangles of `triangles` that use none of the super-triangle's
/// vertices `n`, `n + 1`, `n + 2`, in order.
fn drop_super(triangles: &Vec<Triangle>, n: usize, Ghost(ap): Ghost<Seq<Point2<i64>>>) -> (kept: Vec<Triangle>)
    requires
        n + 3 <= usize::MAX,
        tris_below(triangles@, n + 3),
        tris_ccw(ap, triangles@),
    ensures
        kept@ == without_super(triangles@, n as int, triangles@.len() as int),
        tris_below(kept@, n as int),
        tris_ccw(ap, kept@),
{
    let ghost np = n + 3;
    let mut kept: Vec<Triangle> = Vec::new();
    let mut t: usize = 0;
    while t < triangles.len()
        invariant
            t <= triangles@.len(),
            np == n + 3,
            n + 3 <= usize::MAX,
            tris_below(triangles@, np),
            tris_below(kept@, n as int),
            tris_ccw(ap, triangles@),
            tris_ccw(ap, kept@),
            kept@ == without_super(triangles@, n as int, t as int),
        decreases triangles@.len() - t,
    {
        let tri = triangles[t];
        proof {
            assert(triangles@[t as int].indices_below(np));
        }
        if !tri.contains_vertex(n) && !tri.contains_vertex(n + 1) && !tri.contains_vertex(n + 2) {
            let ghost before = kept@;
            kept.push(tri);
            proof {
                assert forall|k: int| 0 <= k < kept@.len() implies #[trigger] kept@[k].indices_below(n as int) by {
                    if k < before.len() {
                        assert(kept@[k] == before[k]);
                    }
                }
                assert forall|k: int| 0 <= k < kept@.len() implies #[trigger] ccw_or_flat(ap, kept@[k]) by {
                    if k < before.len() {
                        assert(kept@[k] == before[k]);
                        assert(ccw_or_flat(ap, before[k]));
                    } else {
                        assert(ccw_or_flat(ap, triangles@[t as int]));
                    }
                }
            }
        }
        t = t + 1;
    }
    kept
}

/// Computes the Delaunay triangulation of a set of 2D points with the
/// Bowyer-Watson incremental algorithm.
///
/// Returns `None` for fewer than 3 points, or when no triangle remains
/// (for instance when all points are collinear). Every returned triangle
/// refers to input points only (the enclosing super-triangle is removed).
pub fn delaunay(points: &[Point2<i64>]) -> (r: Option<Triangulation>)
    requires
        coords_within(points@, delaunay_coord_bound()),
    ensures
        points@.len() < 3 ==> r is None,
        r matches Some(t) ==> t.points@ == points@ && t.valid() && t.triangles@.len() > 0,
        r matches Some(t) ==> tris_ccw(t.points@, t.triangles@),
        points@.len() >= 3 ==> (r is None <==> bowyer_watson(points@).len() == 0),
        r matches Some(t) ==> t.triangles@ == bowyer_watson(points@),
{
    if points.len() < 3 {
        return None;
    }
    let n = points.len();
    let mut all_points: Vec<Point2<i64>> = vstd::slice::slice_to_vec(points);
    // super-triangle vertices get indices n, n + 1, n + 2
    let (p0, p1, p2) = super_vertices(points);
    all_points.push(p0);
    all_points.push(p1);
    all_points.push(p2);
    proof {
        assert forall|k: int| 0 <= k < all_points@.len() implies abs_le(
            (#[trigger] all_points@[k]).x as int,
            super_bound(),
        ) && abs_le(all_points@[k].y as int, super_bound()) by {
            if k < n {
                assert(all_points@[k] == points@[k]);
            }
        }
        lemma_small_points_fit(p0, p1, p2, p2);
        assert(all_points@ =~= with_super(points@));
    }
    let ghost np = n + 3;
    let total = all_points.len();
    assert(np == total);

    let super_tri = if is_ccw(p0, p1, p2) {
        Triangle::new(n, n + 1, n + 2)
    } else {
        Triangle::new(n, n + 2, n + 1)
    };
    let mut triangles: Vec<Triangle> = Vec::new();
    triangles.push(super_tri);
    proof {
        lemma_orient2d_symmetry(p0, p1, p2);
        assert(all_points@[n as int] == p0);
        assert(all_points@[n + 1] == p1);
        assert(all_points@[n + 2] == p2);
        assert(ccw_or_flat(all_points@, triangles@[0]));
        assert forall|k: int| 0 <= k < n implies #[trigger] all_points@[k] == points@[k] by {
        }
        assert(triangles@ =~= insert_points(all_points@, n as int, 0));
    }

    let mut i: usize = 0;
    while i < n
        invariant
            n == points@.len(),
            n >= 3,
            np == n + 3,
            i <= n,
            all_points@.len() == np,
            coords_within(all_points@, super_bound()),
            tris_below(triangles@, np),
            tris_ccw(all_points@, triangles@),
            forall|k: int| 0 <= k < n ==> #[trigger] all_points@[k] == points@[k],
            all_points@ == with_super(points@),
            triangles@ == insert_points(all_points@, n as int, i as int),
        decreases n - i,
    {
        insert_vertex(&all_points, &mut triangles, i);
        i = i + 1;
    }

    // drop the triangles that use a super-triangle vertex
    let kept = drop_super(&triangles, n, Ghost(all_points@));
    assert(kept@ == bowyer_watson(points@));
    if kept.len() == 0 {
        return None;
    }
    let result = Triangulation { points: vstd::slice::slice_to_vec(points), triangles: kept };
    proof {
        assert forall|t: int| 0 <= t < result.triangles@.len() implies #[trigger] ccw_or_flat(
            result.points@,
            result.triangles@[t],
        ) by {
            let tri = result.triangles@[t];
            assert(ccw_or_flat(all_points@, tri));
            assert(tri.indices_below(n as int));
            assert(all_points@[tri.vertices[0] as int] == points@[tri.vertices[0] as int]);
            assert(all_points@[tri.vertices[1] as int] == points@[tri.vertices[1] as int]);
            assert(all_points@[tri.vertices[2] as int] == points@[tri.vertices[2] as int]);
        }
    }
    Some(result)
}

} // verus!
