//! Point octree for efficient 3D spatial queries.
//!
//! Octrees recursively subdivide 3D space into 8 octants, making them
//! the natural 3D extension of quadtrees.
use vstd::prelude::*;

use crate::algo::kdtree::{listed, sorted_results, KdPoint, NearestResult};
use crate::algo::quadtree::{axis_gap, axis_gap_exec, half_toward_zero, lemma_gap_le, midpoint};
use crate::algo::region_tree::{Region, RegionCore};
use crate::ops::dist2_3d;
use crate::Point3;

verus! {

/// Default number of points per leaf node before splitting.
const DEFAULT_BUCKET_CAPACITY: usize = 8;

/// 3D axis-aligned bounding box for octree regions.
#[derive(Debug, Clone, Copy, PartialEq, Eq)]
pub struct Bounds3 {
    /// Minimum corner (inclusive).
    pub min: Point3<i64>,
    /// Maximum corner (inclusive).
    pub max: Point3<i64>,
}

/// `p` lies in `b`, bounds included.
pub open spec fn bounds3_contain(b: Bounds3, p: Point3<i64>) -> bool {
    b.min.x <= p.x <= b.max.x && b.min.y <= p.y <= b.max.y && b.min.z <= p.z <= b.max.z
}

/// The boxes `a` and `b` overlap (touching counts).
pub open spec fn bounds3_meet(a: Bounds3, b: Bounds3) -> bool {
    a.min.x <= b.max.x && a.max.x >= b.min.x && a.min.y <= b.max.y && a.max.y >= b.min.y && a.min.z
        <= b.max.z && a.max.z >= b.min.z
}

/// Squared distance from `p` to the nearest point of `b`.
pub open spec fn bounds3_dist2(b: Bounds3, p: Point3<i64>) -> int {
    let dx = axis_gap(p.x as int, b.min.x as int, b.max.x as int);
    let dy = axis_gap(p.y as int, b.min.y as int, b.max.y as int);
    let dz = axis_gap(p.z as int, b.min.z as int, b.max.z as int);
    dx * dx + dy * dy + dz * dz
}

/// Center of `b`, each coordinate rounded toward zero.
pub open spec fn bounds3_center(b: Bounds3) -> Point3<i64> {
    Point3 {
        x: half_toward_zero(b.min.x + b.max.x) as i64,
        y: half_toward_zero(b.min.y + b.max.y) as i64,
        z: half_toward_zero(b.min.z + b.max.z) as i64,
    }
}

/// The box of octant `o` of `b` around `c`, the octants numbered by the
/// sides (high `+`, low `-`) they take in x, y, z: 0 = (+, +, +),
/// 1 = (-, +, +), 2 = (-, -, +), 3 = (+, -, +), 4 = (+, +, -),
/// 5 = (-, +, -), 6 = (-, -, -), 7 = (+, -, -).
pub open spec fn octant_box(b: Bounds3, o: int, c: Point3<i64>) -> Bounds3 {
    let (x0, x1) = if o % 4 == 0 || o % 4 == 3 {
        (c.x, b.max.x)
    } else {
        (b.min.x, c.x)
    };
    let (y0, y1) = if o % 4 < 2 {
        (c.y, b.max.y)
    } else {
        (b.min.y, c.y)
    };
    let (z0, z1) = if (o / 4) % 2 == 0 {
        (c.z, b.max.z)
    } else {
        (b.min.z, c.z)
    };
    Bounds3 { min: Point3 { x: x0, y: y0, z: z0 }, max: Point3 { x: x1, y: y1, z: z1 } }
}

/// The octant of `p` around `c` (numbered as for `octant_box`; a point on a
/// dividing plane takes the high side).
pub open spec fn octant_of(c: Point3<i64>, p: Point3<i64>) -> int {
    (if p.x >= c.x && p.y >= c.y {
        0int
    } else if p.y >= c.y {
        1int
    } else if p.x < c.x {
        2int
    } else {
        3int
    }) + (if p.z >= c.z {
        0int
    } else {
        4int
    })
}

/// `b` is the tightest box around `pts`.
pub open spec fn tight_box3(b: Bounds3, pts: Seq<Point3<i64>>) -> bool {
    &&& forall|j: int| 0 <= j < pts.len() ==> #[trigger] bounds3_contain(b, pts[j])
    &&& exists|j: int| 0 <= j < pts.len() && pts[j].x == b.min.x
    &&& exists|j: int| 0 <= j < pts.len() && pts[j].x == b.max.x
    &&& exists|j: int| 0 <= j < pts.len() && pts[j].y == b.min.y
    &&& exists|j: int| 0 <= j < pts.len() && pts[j].y == b.max.y
    &&& exists|j: int| 0 <= j < pts.len() && pts[j].z == b.min.z
    &&& exists|j: int| 0 <= j < pts.len() && pts[j].z == b.max.z
}

impl Bounds3 {
    /// Creates a new 3D bounding box.
    pub fn new(min: Point3<i64>, max: Point3<i64>) -> (b: Self)
        ensures
            b.min == min,
            b.max == max,
    {
        Self { min, max }
    }

    /// Returns true if the point is inside or on the boundary.
    pub fn contains(&self, point: Point3<i64>) -> (r: bool)
        ensures
            r == bounds3_contain(*self, point),
    {
        point.x >= self.min.x && point.x <= self.max.x && point.y >= self.min.y && point.y <= self.max.y
            && point.z >= self.min.z && point.z <= self.max.z
    }

    /// Returns true if this box intersects another box.
    pub fn intersects(&self, other: &Bounds3) -> (r: bool)
        ensures
            r == bounds3_meet(*self, *other),
    {
        self.min.x <= other.max.x && self.max.x >= other.min.x && self.min.y <= other.max.y
            && self.max.y >= other.min.y && self.min.z <= other.max.z && self.max.z >= other.min.z
    }

    /// Returns the center point of the bounds, rounded toward zero.
    pub fn center(&self) -> (c: Point3<i64>)
        ensures
            c == bounds3_center(*self),
    {
        Point3::new(
            midpoint(self.min.x, self.max.x),
            midpoint(self.min.y, self.max.y),
            midpoint(self.min.z, self.max.z),
        )
    }

    /// Returns the bounds of an octant around `center` (see `octant_box`).
    pub fn octant_bounds(&self, octant: usize, center: Point3<i64>) -> (r: Bounds3)
        ensures
            r == octant_box(*self, octant as int, center),
    {
        let (x_min, x_max) = if octant % 4 == 0 || octant % 4 == 3 {
            (center.x, self.max.x)
        } else {
            (self.min.x, center.x)
        };
        let (y_min, y_max) = if octant % 4 < 2 {
            (center.y, self.max.y)
        } else {
            (self.min.y, center.y)
        };
        let (z_min, z_max) = if (octant / 4) % 2 == 0 {
            (center.z, self.max.z)
        } else {
            (self.min.z, center.z)
        };
        Bounds3::new(Point3::new(x_min, y_min, z_min), Point3::new(x_max, y_max, z_max))
    }

    /// Returns the squared distance from a point to the nearest point in the
    /// bounds; 0 if the point is inside the bounds.
    pub fn distance_squared_to(&self, point: Point3<i64>) -> (r: i128)
        requires
            bounds3_dist2(*self, point) <= i128::MAX,
        ensures
            r == bounds3_dist2(*self, point),
    {
        let dx = axis_gap_exec(point.x, self.min.x, self.max.x);
        let dy = axis_gap_exec(point.y, self.min.y, self.max.y);
        let dz = axis_gap_exec(point.z, self.min.z, self.max.z);
        proof {
            crate::algo::quadtree::lemma_sum_of_squares_bound(dx as int, dy as int);
            crate::algo::quadtree::lemma_sum_of_squares_bound(dz as int, 0);
            assert(dx * dx + dy * dy >= 0);
        }
        dx * dx + dy * dy + dz * dz
    }
}

impl Region for Bounds3 {
    type Pt = Point3<i64>;

    open spec fn ordered(self) -> bool {
        self.min.x <= self.max.x && self.min.y <= self.max.y && self.min.z <= self.max.z
    }

    open spec fn size(self) -> int {
        (self.max.x - self.min.x) + (self.max.y - self.min.y) + (self.max.z - self.min.z)
    }

    open spec fn contains_spec(self, p: Point3<i64>) -> bool {
        bounds3_contain(self, p)
    }

    open spec fn intersects_spec(self, o: Self) -> bool {
        bounds3_meet(self, o)
    }

    open spec fn box_dist_spec(self, q: Point3<i64>) -> int {
        bounds3_dist2(self, q)
    }

    open spec fn center_spec(self) -> Point3<i64> {
        bounds3_center(self)
    }

    open spec fn child_count() -> int {
        8
    }

    open spec fn which_spec(c: Point3<i64>, p: Point3<i64>) -> int {
        octant_of(c, p)
    }

    open spec fn child_spec(self, k: int, c: Point3<i64>) -> Self {
        octant_box(self, k, c)
    }

    open spec fn is_bounding(self, pts: Seq<Point3<i64>>) -> bool {
        tight_box3(self, pts)
    }

    open spec fn origin_spec() -> Self {
        Bounds3 { min: Point3 { x: 0, y: 0, z: 0 }, max: Point3 { x: 0, y: 0, z: 0 } }
    }

    proof fn lemma_box_dist(b: Self, p: Point3<i64>, q: Point3<i64>) {
        lemma_gap_le(q.x as int, b.min.x as int, b.max.x as int, p.x as int);
        lemma_gap_le(q.y as int, b.min.y as int, b.max.y as int, p.y as int);
        lemma_gap_le(q.z as int, b.min.z as int, b.max.z as int, p.z as int);
        crate::algo::kdtree::lemma_square_swap(q.x as int, p.x as int);
        crate::algo::kdtree::lemma_square_swap(q.y as int, p.y as int);
        crate::algo::kdtree::lemma_square_swap(q.z as int, p.z as int);
        let gx = axis_gap(q.x as int, b.min.x as int, b.max.x as int);
        let gy = axis_gap(q.y as int, b.min.y as int, b.max.y as int);
        let gz = axis_gap(q.z as int, b.min.z as int, b.max.z as int);
        crate::algo::quadtree::lemma_sum_of_squares_bound(gx, gy);
        crate::algo::quadtree::lemma_sum_of_squares_bound(gz, 0);
    }

    proof fn lemma_meet(b: Self, o: Self, p: Point3<i64>) {
    }

    proof fn lemma_child_contains(b: Self, p: Point3<i64>) {
    }

    proof fn lemma_child_shrinks(b: Self, k: int) {
    }

    fn child_count_exec() -> (r: usize) {
        8
    }

    fn origin() -> (r: Self) {
        Bounds3::new(Point3::new(0, 0, 0), Point3::new(0, 0, 0))
    }

    fn bounding(pts: &Vec<Point3<i64>>) -> (r: Self) {
        let mut min_x = pts[0].x;
        let mut min_y = pts[0].y;
        let mut min_z = pts[0].z;
        let mut max_x = pts[0].x;
        let mut max_y = pts[0].y;
        let mut max_z = pts[0].z;
        let mut i: usize = 1;
        while i < pts.len()
            invariant
                1 <= i <= pts@.len(),
                forall|j: int|
                    0 <= j < i ==> min_x <= (#[trigger] pts@[j]).x <= max_x && min_y <= pts@[j].y <= max_y && min_z
                        <= pts@[j].z <= max_z,
                exists|j: int| 0 <= j < pts@.len() && pts@[j].x == min_x,
                exists|j: int| 0 <= j < pts@.len() && pts@[j].x == max_x,
                exists|j: int| 0 <= j < pts@.len() && pts@[j].y == min_y,
                exists|j: int| 0 <= j < pts@.len() && pts@[j].y == max_y,
                exists|j: int| 0 <= j < pts@.len() && pts@[j].z == min_z,
                exists|j: int| 0 <= j < pts@.len() && pts@[j].z == max_z,
            decreases pts@.len() - i,
        {
            let p = pts[i];
            if p.x < min_x {
                min_x = p.x;
            }
            if p.y < min_y {
                min_y = p.y;
            }
            if p.z < min_z {
                min_z = p.z;
            }
            if p.x > max_x {
                max_x = p.x;
            }
            if p.y > max_y {
                max_y = p.y;
            }
            if p.z > max_z {
                max_z = p.z;
            }
            i = i + 1;
        }
        Bounds3::new(Point3::new(min_x, min_y, min_z), Point3::new(max_x, max_y, max_z))
    }

    fn center_of(&self) -> (c: Point3<i64>) {
        self.center()
    }

    fn which(c: Point3<i64>, p: Point3<i64>) -> (k: usize) {
        let side: usize = if p.x >= c.x && p.y >= c.y {
            0
        } else if p.y >= c.y {
            1
        } else if p.x < c.x {
            2
        } else {
            3
        };
        let z_bit: usize = if p.z >= c.z {
            0
        } else {
            4
        };
        side + z_bit
    }

    fn child(&self, k: usize, c: Point3<i64>) -> (r: Self) {
        self.octant_bounds(k, c)
    }

    fn contains_pt(&self, p: Point3<i64>) -> (r: bool) {
        self.contains(p)
    }

    fn same(&self, o: &Self) -> (r: bool) {
        self.min.x == o.min.x && self.min.y == o.min.y && self.min.z == o.min.z && self.max.x == o.max.x
            && self.max.y == o.max.y && self.max.z == o.max.z
    }

    fn meets(&self, o: &Self) -> (r: bool) {
        self.intersects(o)
    }

    fn box_dist(&self, q: Point3<i64>) -> (r: i128) {
        self.distance_squared_to(q)
    }
}

/// A point octree for efficient 3D spatial queries.
#[derive(Clone)]
pub struct Octree {
    core: RegionCore<Bounds3>,
}

impl View for Octree {
    type V = Seq<Point3<i64>>;

    /// The points, in the order they were given.
    closed spec fn view(&self) -> Seq<Point3<i64>> {
        self.core.pts()
    }
}

impl Octree {
    /// The tree's internal structure is sound.
    pub closed spec fn wf(&self) -> bool {
        self.core.wf()
    }

    /// The box of the whole tree.
    pub closed spec fn bounds_spec(&self) -> Bounds3 {
        self.core.region()
    }

    /// Builds a octree from a set of points with default bucket capacity.
    pub fn new(points: &[Point3<i64>]) -> (t: Self)
        ensures
            t.wf(),
            t@ == points@,
            points@.len() > 0 ==> tight_box3(t.bounds_spec(), points@),
            points@.len() == 0 ==> t.bounds_spec() == (Bounds3 { min: Point3 { x: 0, y: 0, z: 0 }, max: Point3 { x: 0, y: 0, z: 0 } }),
    {
        Self::with_capacity(points, DEFAULT_BUCKET_CAPACITY)
    }

    /// Builds a octree whose leaves hold up to `bucket_capacity` points
    /// (more only where points are too close together to be split).
    pub fn with_capacity(points: &[Point3<i64>], bucket_capacity: usize) -> (t: Self)
        ensures
            t.wf(),
            t@ == points@,
            points@.len() > 0 ==> tight_box3(t.bounds_spec(), points@),
            points@.len() == 0 ==> t.bounds_spec() == (Bounds3 { min: Point3 { x: 0, y: 0, z: 0 }, max: Point3 { x: 0, y: 0, z: 0 } }),
    {
        Octree { core: RegionCore::build(points, bucket_capacity) }
    }

    /// Finds the nearest point to the query; `None` if the tree is empty.
    pub fn nearest(&self, query: Point3<i64>) -> (r: Option<NearestResult>)
        requires
            self.wf(),
            forall|j: int| 0 <= j < self@.len() ==> #[trigger] dist2_3d(self@[j], query) < i128::MAX,
        ensures
            r is None <==> self@.len() == 0,
            r matches Some(res) ==> {
                &&& res.point_idx < self@.len()
                &&& res.distance_squared == dist2_3d(self@[res.point_idx as int], query)
                &&& forall|j: int| 0 <= j < self@.len() ==> res.distance_squared <= #[trigger] dist2_3d(self@[j], query)
            },
    {
        proof {
            assert forall|j: int| 0 <= j < self.core.pts().len() implies #[trigger] self.core.pts()[j].dist_spec(query)
                < i128::MAX by {
                assert(dist2_3d(self@[j], query) < i128::MAX);
            }
        }
        let r = self.core.nearest(query);
        proof {
            if let Some(res) = r {
                assert forall|j: int| 0 <= j < self@.len() implies res.distance_squared <= #[trigger] dist2_3d(self@[j], query) by {
                    assert(res.distance_squared <= self.core.pts()[j].dist_spec(query));
                }
            }
        }
        r
    }

    /// Finds the `k` points nearest to the query, closest first (ties by
    /// index); all points when there are fewer than `k`.
    pub fn k_nearest(&self, query: Point3<i64>, k: usize) -> (r: Vec<NearestResult>)
        requires
            self.wf(),
            forall|j: int| 0 <= j < self@.len() ==> #[trigger] dist2_3d(self@[j], query) < i128::MAX,
        ensures
            r@.len() == if k < self@.len() {
                k as int
            } else {
                self@.len() as int
            },
            sorted_results(r@),
            forall|a: int|
                0 <= a < r@.len() ==> (#[trigger] r@[a]).point_idx < self@.len() && r@[a].distance_squared
                    == dist2_3d(self@[r@[a].point_idx as int], query),
            k > 0 ==> forall|j: int|
                0 <= j < self@.len() && !listed(r@, j) ==> r@.last().distance_squared <= #[trigger] dist2_3d(
                    self@[j],
                    query,
                ),
    {
        proof {
            assert forall|j: int| 0 <= j < self.core.pts().len() implies #[trigger] self.core.pts()[j].dist_spec(query)
                < i128::MAX by {
                assert(dist2_3d(self@[j], query) < i128::MAX);
            }
        }
        let r = self.core.k_nearest(query, k);
        proof {
            assert forall|a: int| 0 <= a < r@.len() implies (#[trigger] r@[a]).point_idx < self@.len()
                && r@[a].distance_squared == dist2_3d(self@[r@[a].point_idx as int], query) by {
                assert(r@[a].distance_squared == self.core.pts()[r@[a].point_idx as int].dist_spec(query));
            }
            if k > 0 {
                assert forall|j: int| 0 <= j < self@.len() && !listed(r@, j) implies r@.last().distance_squared
                    <= #[trigger] dist2_3d(self@[j], query) by {
                    assert(r@.last().distance_squared <= self.core.pts()[j].dist_spec(query));
                }
            }
        }
        r
    }

    /// Finds the indices of all points with `min <= p <= max` in every
    /// coordinate, each once.
    pub fn range_query(&self, min: Point3<i64>, max: Point3<i64>) -> (r: Vec<usize>)
        requires
            self.wf(),
        ensures
            r@.no_duplicates(),
            forall|x: usize|
                #[trigger] r@.contains(x) <==> x < self@.len() && bounds3_contain(
                    Bounds3 { min, max },
                    self@[x as int],
                ),
    {
        let query = Bounds3::new(min, max);
        self.core.range_query(query)
    }

    /// Returns the number of points in the tree.
    pub fn len(&self) -> (r: usize)
        ensures
            r == self@.len(),
    {
        self.core.len()
    }

    /// Returns true if the tree is empty.
    pub fn is_empty(&self) -> (r: bool)
        ensures
            r == (self@.len() == 0),
    {
        self.core.len() == 0
    }

    /// Returns the bounding box of all points in the tree.
    pub fn bounds(&self) -> (r: Bounds3)
        ensures
            r == self.bounds_spec(),
    {
        self.core.region_exec()
    }

    /// Returns the point at the given index, if any.
    pub fn get_point(&self, idx: usize) -> (r: Option<&Point3<i64>>)
        ensures
            r == if idx < self@.len() {
                Some(&self@[idx as int])
            } else {
                None
            },
    {
        self.core.get_point(idx)
    }
}

} // verus!
