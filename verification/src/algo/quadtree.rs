//! Point quadtree for efficient 2D spatial queries.
//!
//! Quadtrees recursively subdivide 2D space into four quadrants, making them
//! effective for spatial indexing with non-uniform point distributions.
use vstd::prelude::*;

use crate::algo::kdtree::{listed, sorted_results, KdPoint, NearestResult};
use crate::algo::region_tree::{Region, RegionCore};
use crate::ops::dist2;
use crate::Point2;

verus! {

/// Default number of points per leaf node before splitting.
const DEFAULT_BUCKET_CAPACITY: usize = 8;

/// Half of `s`, rounded toward zero.
pub open spec fn half_toward_zero(s: int) -> int {
    if s >= 0 {
        s / 2
    } else {
        -((-s) / 2)
    }
}

/// Half of `a + b`, rounded toward zero.
pub(crate) fn midpoint(a: i64, b: i64) -> (r: i64)
    ensures
        r == half_toward_zero(a + b),
{
    let s = a as i128 + b as i128;
    let h = s / 2;
    h as i64
}

/// Distance from `v` to the interval `[lo, hi]` along one axis.
pub open spec fn axis_gap(v: int, lo: int, hi: int) -> int {
    if v < lo {
        lo - v
    } else if v > hi {
        v - hi
    } else {
        0
    }
}

/// Computes `axis_gap` exactly.
pub(crate) fn axis_gap_exec(v: i64, lo: i64, hi: i64) -> (r: i128)
    ensures
        r == axis_gap(v as int, lo as int, hi as int),
        r >= 0,
{
    if v < lo {
        lo as i128 - v as i128
    } else if v > hi {
        v as i128 - hi as i128
    } else {
        0
    }
}

/// Axis-aligned bounding box for quadtree regions.
#[derive(Debug, Clone, Copy, PartialEq, Eq)]
pub struct Bounds {
    /// Minimum corner (inclusive).
    pub min: Point2<i64>,
    /// Maximum corner (inclusive).
    pub max: Point2<i64>,
}

/// `p` lies in `b`, bounds included.
pub open spec fn bounds_contain(b: Bounds, p: Point2<i64>) -> bool {
    b.min.x <= p.x <= b.max.x && b.min.y <= p.y <= b.max.y
}

/// The boxes `a` and `b` overlap (touching counts).
pub open spec fn bounds_meet(a: Bounds, b: Bounds) -> bool {
    a.min.x <= b.max.x && a.max.x >= b.min.x && a.min.y <= b.max.y && a.max.y >= b.min.y
}

/// Squared distance from `p` to the nearest point of `b`.
pub open spec fn bounds_dist2(b: Bounds, p: Point2<i64>) -> int {
    let dx = axis_gap(p.x as int, b.min.x as int, b.max.x as int);
    let dy = axis_gap(p.y as int, b.min.y as int, b.max.y as int);
    dx * dx + dy * dy
}

/// Center of `b`, each coordinate rounded toward zero.
pub open spec fn bounds_center(b: Bounds) -> Point2<i64> {
    Point2 {
        x: half_toward_zero(b.min.x + b.max.x) as i64,
        y: half_toward_zero(b.min.y + b.max.y) as i64,
    }
}

/// The box of quadrant `q` of `b` around `c`: 0 = NE, 1 = NW, 2 = SW, 3 = SE.
pub open spec fn quadrant_box(b: Bounds, q: int, c: Point2<i64>) -> Bounds {
    if q == 0 {
        Bounds { min: c, max: b.max }
    } else if q == 1 {
        Bounds { min: Point2 { x: b.min.x, y: c.y }, max: Point2 { x: c.x, y: b.max.y } }
    } else if q == 2 {
        Bounds { min: b.min, max: c }
    } else {
        Bounds { min: Point2 { x: c.x, y: b.min.y }, max: Point2 { x: b.max.x, y: c.y } }
    }
}

/// The quadrant of `p` around `c`: 0 = NE, 1 = NW, 2 = SW, 3 = SE (a point
/// on a dividing line goes east or north).
pub open spec fn quadrant_of(c: Point2<i64>, p: Point2<i64>) -> int {
    let right = p.x >= c.x;
    let top = p.y >= c.y;
    if right && top {
        0
    } else if !right && top {
        1
    } else if !right && !top {
        2
    } else {
        3
    }
}

/// `b` is the tightest box around `pts`.
pub open spec fn tight_box(b: Bounds, pts: Seq<Point2<i64>>) -> bool {
    &&& forall|j: int| 0 <= j < pts.len() ==> #[trigger] bounds_contain(b, pts[j])
    &&& exists|j: int| 0 <= j < pts.len() && pts[j].x == b.min.x
    &&& exists|j: int| 0 <= j < pts.len() && pts[j].x == b.max.x
    &&& exists|j: int| 0 <= j < pts.len() && pts[j].y == b.min.y
    &&& exists|j: int| 0 <= j < pts.len() && pts[j].y == b.max.y
}

impl Bounds {
    /// Creates a new bounding box.
    pub fn new(min: Point2<i64>, max: Point2<i64>) -> (b: Self)
        ensures
            b.min == min,
            b.max == max,
    {
        Self { min, max }
    }

    /// Returns true if the point is inside or on the boundary.
    pub fn contains(&self, point: Point2<i64>) -> (r: bool)
        ensures
            r == bounds_contain(*self, point),
    {
        point.x >= self.min.x && point.x <= self.max.x && point.y >= self.min.y && point.y <= self.max.y
    }

    /// Returns true if this box intersects another box.
    pub fn intersects(&self, other: &Bounds) -> (r: bool)
        ensures
            r == bounds_meet(*self, *other),
    {
        self.min.x <= other.max.x && self.max.x >= other.min.x && self.min.y <= other.max.y
            && self.max.y >= other.min.y
    }

    /// Returns the center point of the bounds, rounded toward zero.
    pub fn center(&self) -> (c: Point2<i64>)
        ensures
            c == bounds_center(*self),
    {
        Point2::new(midpoint(self.min.x, self.max.x), midpoint(self.min.y, self.max.y))
    }

    /// Returns the bounds of a quadrant around `center`:
    /// 0 = NE, 1 = NW, 2 = SW, 3 = SE.
    pub fn quadrant_bounds(&self, quadrant: usize, center: Point2<i64>) -> (r: Bounds)
        requires
            quadrant < 4,
        ensures
            r == quadrant_box(*self, quadrant as int, center),
    {
        if quadrant == 0 {
            Bounds::new(center, self.max)
        } else if quadrant == 1 {
            Bounds::new(Point2::new(self.min.x, center.y), Point2::new(center.x, self.max.y))
        } else if quadrant == 2 {
            Bounds::new(self.min, center)
        } else {
            Bounds::new(Point2::new(center.x, self.min.y), Point2::new(self.max.x, center.y))
        }
    }

    /// Returns the squared distance from a point to the nearest point in the
    /// bounds; 0 if the point is inside the bounds.
    pub fn distance_squared_to(&self, point: Point2<i64>) -> (r: i128)
        requires
            bounds_dist2(*self, point) <= i128::MAX,
        ensures
            r == bounds_dist2(*self, point),
    {
        let dx = axis_gap_exec(point.x, self.min.x, self.max.x);
        let dy = axis_gap_exec(point.y, self.min.y, self.max.y);
        proof {
            lemma_sum_of_squares_bound(dx as int, dy as int);
        }
        dx * dx + dy * dy
    }
}

/// Each of two non-negative squares is at most their sum.
pub(crate) proof fn lemma_sum_of_squares_bound(a: int, b: int)
    requires
        a >= 0,
        b >= 0,
    ensures
        0 <= a * a <= a * a + b * b,
        0 <= b * b <= a * a + b * b,
{
    assert(a * a >= 0) by (nonlinear_arith)
        requires
            a >= 0,
    ;
    assert(b * b >= 0) by (nonlinear_arith)
        requires
            b >= 0,
    ;
}

/// The gap to an interval is at most the distance to any of its points.
pub(crate) proof fn lemma_gap_le(v: int, lo: int, hi: int, p: int)
    requires
        lo <= p <= hi,
    ensures
        0 <= axis_gap(v, lo, hi),
        axis_gap(v, lo, hi) * axis_gap(v, lo, hi) <= (v - p) * (v - p),
{
    let g = axis_gap(v, lo, hi);
    let d = if v >= p {
        v - p
    } else {
        p - v
    };
    assert(0 <= g <= d);
    assert(g * g <= d * d) by (nonlinear_arith)
        requires
            0 <= g <= d,
    ;
    assert(d * d == (v - p) * (v - p)) by (nonlinear_arith)
        requires
            d == v - p || d == p - v,
    ;
}

impl Region for Bounds {
    type Pt = Point2<i64>;

    open spec fn ordered(self) -> bool {
        self.min.x <= self.max.x && self.min.y <= self.max.y
    }

    open spec fn size(self) -> int {
        (self.max.x - self.min.x) + (self.max.y - self.min.y)
    }

    open spec fn contains_spec(self, p: Point2<i64>) -> bool {
        bounds_contain(self, p)
    }

    open spec fn intersects_spec(self, o: Self) -> bool {
        bounds_meet(self, o)
    }

    open spec fn box_dist_spec(self, q: Point2<i64>) -> int {
        bounds_dist2(self, q)
    }

    open spec fn center_spec(self) -> Point2<i64> {
        bounds_center(self)
    }

    open spec fn child_count() -> int {
        4
    }

    open spec fn which_spec(c: Point2<i64>, p: Point2<i64>) -> int {
        quadrant_of(c, p)
    }

    open spec fn child_spec(self, k: int, c: Point2<i64>) -> Self {
        quadrant_box(self, k, c)
    }

    open spec fn is_bounding(self, pts: Seq<Point2<i64>>) -> bool {
        tight_box(self, pts)
    }

    open spec fn origin_spec() -> Self {
        Bounds { min: Point2 { x: 0, y: 0 }, max: Point2 { x: 0, y: 0 } }
    }

    proof fn lemma_box_dist(b: Self, p: Point2<i64>, q: Point2<i64>) {
        lemma_gap_le(q.x as int, b.min.x as int, b.max.x as int, p.x as int);
        lemma_gap_le(q.y as int, b.min.y as int, b.max.y as int, p.y as int);
        crate::algo::kdtree::lemma_square_swap(q.x as int, p.x as int);
        crate::algo::kdtree::lemma_square_swap(q.y as int, p.y as int);
    }

    proof fn lemma_meet(b: Self, o: Self, p: Point2<i64>) {
    }

    proof fn lemma_child_contains(b: Self, p: Point2<i64>) {
    }

    proof fn lemma_child_shrinks(b: Self, k: int) {
    }

    fn child_count_exec() -> (r: usize) {
        4
    }

    fn origin() -> (r: Self) {
        Bounds::new(Point2::new(0, 0), Point2::new(0, 0))
    }

    fn bounding(pts: &Vec<Point2<i64>>) -> (r: Self) {
        let mut min_x = pts[0].x;
        let mut min_y = pts[0].y;
        let mut max_x = pts[0].x;
        let mut max_y = pts[0].y;
        let mut i: usize = 1;
        while i < pts.len()
            invariant
                1 <= i <= pts@.len(),
                forall|j: int| 0 <= j < i ==> min_x <= (#[trigger] pts@[j]).x <= max_x && min_y <= pts@[j].y <= max_y,
                exists|j: int| 0 <= j < pts@.len() && pts@[j].x == min_x,
                exists|j: int| 0 <= j < pts@.len() && pts@[j].x == max_x,
                exists|j: int| 0 <= j < pts@.len() && pts@[j].y == min_y,
                exists|j: int| 0 <= j < pts@.len() && pts@[j].y == max_y,
            decreases pts@.len() - i,
        {
            let p = pts[i];
            if p.x < min_x {
                min_x = p.x;
            }
            if p.y < min_y {
                min_y = p.y;
            }
            if p.x > max_x {
                max_x = p.x;
            }
            if p.y > max_y {
                max_y = p.y;
            }
            i = i + 1;
        }
        Bounds::new(Point2::new(min_x, min_y), Point2::new(max_x, max_y))
    }

    fn center_of(&self) -> (c: Point2<i64>) {
        self.center()
    }

    fn which(c: Point2<i64>, p: Point2<i64>) -> (k: usize) {
        let right = p.x >= c.x;
        let top = p.y >= c.y;
        if right && top {
            0
        } else if !right && top {
            1
        } else if !right && !top {
            2
        } else {
            3
        }
    }

    fn child(&self, k: usize, c: Point2<i64>) -> (r: Self) {
        self.quadrant_bounds(k, c)
    }

    fn contains_pt(&self, p: Point2<i64>) -> (r: bool) {
        self.contains(p)
    }

    fn same(&self, o: &Self) -> (r: bool) {
        self.min.x == o.min.x && self.min.y == o.min.y && self.max.x == o.max.x && self.max.y == o.max.y
    }

    fn meets(&self, o: &Self) -> (r: bool) {
        self.intersects(o)
    }

    fn box_dist(&self, q: Point2<i64>) -> (r: i128) {
        self.distance_squared_to(q)
    }
}


/// A point quadtree for efficient 2D spatial queries.
#[derive(Clone)]
pub struct Quadtree {
    core: RegionCore<Bounds>,
}

impl View for Quadtree {
    type V = Seq<Point2<i64>>;

    /// The points, in the order they were given.
    closed spec fn view(&self) -> Seq<Point2<i64>> {
        self.core.pts()
    }
}

impl Quadtree {
    /// The tree's internal structure is sound.
    pub closed spec fn wf(&self) -> bool {
        self.core.wf()
    }

    /// The box of the whole tree.
    pub closed spec fn bounds_spec(&self) -> Bounds {
        self.core.region()
    }

    /// Builds a quadtree from a set of points with default bucket capacity.
    pub fn new(points: &[Point2<i64>]) -> (t: Self)
        ensures
            t.wf(),
            t@ == points@,
            points@.len() > 0 ==> tight_box(t.bounds_spec(), points@),
            points@.len() == 0 ==> t.bounds_spec() == (Bounds { min: Point2 { x: 0, y: 0 }, max: Point2 { x: 0, y: 0 } }),
    {
        Self::with_capacity(points, DEFAULT_BUCKET_CAPACITY)
    }

    /// Builds a quadtree whose leaves hold up to `bucket_capacity` points
    /// (more only where points are too close together to be split).
    pub fn with_capacity(points: &[Point2<i64>], bucket_capacity: usize) -> (t: Self)
        ensures
            t.wf(),
            t@ == points@,
            points@.len() > 0 ==> tight_box(t.bounds_spec(), points@),
            points@.len() == 0 ==> t.bounds_spec() == (Bounds { min: Point2 { x: 0, y: 0 }, max: Point2 { x: 0, y: 0 } }),
    {
        Quadtree { core: RegionCore::build(points, bucket_capacity) }
    }

    /// Finds the nearest point to the query; `None` if the tree is empty.
    pub fn nearest(&self, query: Point2<i64>) -> (r: Option<NearestResult>)
        requires
            self.wf(),
            forall|j: int| 0 <= j < self@.len() ==> #[trigger] dist2(self@[j], query) < i128::MAX,
        ensures
            r is None <==> self@.len() == 0,
            r matches Some(res) ==> {
                &&& res.point_idx < self@.len()
                &&& res.distance_squared == dist2(self@[res.point_idx as int], query)
                &&& forall|j: int| 0 <= j < self@.len() ==> res.distance_squared <= #[trigger] dist2(self@[j], query)
            },
    {
        proof {
            assert forall|j: int| 0 <= j < self.core.pts().len() implies #[trigger] self.core.pts()[j].dist_spec(query)
                < i128::MAX by {
                assert(dist2(self@[j], query) < i128::MAX);
            }
        }
        let r = self.core.nearest(query);
        proof {
            if let Some(res) = r {
                assert forall|j: int| 0 <= j < self@.len() implies res.distance_squared <= #[trigger] dist2(self@[j], query) by {
                    assert(res.distance_squared <= self.core.pts()[j].dist_spec(query));
                }
            }
        }
        r
    }

    /// Finds the `k` points nearest to the query, closest first (ties by
    /// index); all points when there are fewer than `k`.
    pub fn k_nearest(&self, query: Point2<i64>, k: usize) -> (r: Vec<NearestResult>)
        requires
            self.wf(),
            forall|j: int| 0 <= j < self@.len() ==> #[trigger] dist2(self@[j], query) < i128::MAX,
        ensures
            r@.len() == if k < self@.len() {
                k as int
            } else {
                self@.len() as int
            },
            sorted_results(r@),
            forall|a: int|
                0 <= a < r@.len() ==> (#[trigger] r@[a]).point_idx < self@.len() && r@[a].distance_squared
                    == dist2(self@[r@[a].point_idx as int], query),
            k > 0 ==> forall|j: int|
                0 <= j < self@.len() && !listed(r@, j) ==> r@.last().distance_squared <= #[trigger] dist2(
                    self@[j],
                    query,
                ),
    {
        proof {
            assert forall|j: int| 0 <= j < self.core.pts().len() implies #[trigger] self.core.pts()[j].dist_spec(query)
                < i128::MAX by {
                assert(dist2(self@[j], query) < i128::MAX);
            }
        }
        let r = self.core.k_nearest(query, k);
        proof {
            assert forall|a: int| 0 <= a < r@.len() implies (#[trigger] r@[a]).point_idx < self@.len()
                && r@[a].distance_squared == dist2(self@[r@[a].point_idx as int], query) by {
                assert(r@[a].distance_squared == self.core.pts()[r@[a].point_idx as int].dist_spec(query));
            }
            if k > 0 {
                assert forall|j: int| 0 <= j < self@.len() && !listed(r@, j) implies r@.last().distance_squared
                    <= #[trigger] dist2(self@[j], query) by {
                    assert(r@.last().distance_squared <= self.core.pts()[j].dist_spec(query));
                }
            }
        }
        r
    }

    /// Finds the indices of all points with `min <= p <= max` in both
    /// coordinates, each once.
    pub fn range_query(&self, min: Point2<i64>, max: Point2<i64>) -> (r: Vec<usize>)
        requires
            self.wf(),
        ensures
            r@.no_duplicates(),
            forall|x: usize|
                #[trigger] r@.contains(x) <==> x < self@.len() && bounds_contain(
                    Bounds { min, max },
                    self@[x as int],
                ),
    {
        let query = Bounds::new(min, max);
        self.core.range_query(query)
    }

    /// Returns the number of points in the tree.
    pub fn len(&self) -> (r: usize)
        ensures
            r == self@.len(),
    {
        self.core.len()
    }

    /// Returns true if the tree is empty.
    pub fn is_empty(&self) -> (r: bool)
        ensures
            r == (self@.len() == 0),
    {
        self.core.len() == 0
    }

    /// Returns the bounding box of all points in the tree.
    pub fn bounds(&self) -> (r: Bounds)
        ensures
            r == self.bounds_spec(),
    {
        self.core.region_exec()
    }

    /// Returns the point at the given index, if any.
    pub fn get_point(&self, idx: usize) -> (r: Option<&Point2<i64>>)
        ensures
            r == if idx < self@.len() {
                Some(&self@[idx as int])
            } else {
                None
            },
    {
        self.core.get_point(idx)
    }
}

} // verus!
