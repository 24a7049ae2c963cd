//! KD-tree for efficient spatial queries on point sets.
//!
//! Provides nearest-neighbor, k-nearest, and range queries over 2D and 3D
//! point sets. The k-nearest search of every tree in this crate keeps its
//! candidates in the sorted list defined here.
use std::cmp::Ordering;
use vstd::prelude::*;
use vstd::set_lib::{lemma_int_range, set_int_range};

use crate::ops::{dist2, dist2_3d, distance_squared_3d};
use crate::rational::fits_i128;
use crate::{Point2, Point3};

verus! {

/// Result of a nearest-neighbor query.
#[derive(Debug, Clone, Copy, PartialEq, Eq)]
pub struct NearestResult {
    /// Index of the point in the original point array.
    pub point_idx: usize,
    /// Squared distance to the query point.
    pub distance_squared: i128,
}

// ---------------------------------------------------------------------------
// Candidate list for k-nearest searches
// ---------------------------------------------------------------------------

/// `a` comes before `b`: smaller distance, or equal distance and smaller index.
pub open spec fn closer(a: NearestResult, b: NearestResult) -> bool {
    a.distance_squared < b.distance_squared || (a.distance_squared == b.distance_squared
        && a.point_idx < b.point_idx)
}

/// `j` is the index of one of the results.
pub open spec fn listed(c: Seq<NearestResult>, j: int) -> bool {
    exists|a: int| 0 <= a < c.len() && c[a].point_idx == j
}

/// The results are in strictly increasing `closer` order.
pub open spec fn sorted_results(c: Seq<NearestResult>) -> bool {
    forall|a: int, b: int| 0 <= a < b < c.len() ==> closer(#[trigger] c[a], #[trigger] c[b])
}

/// Each result names a point of `d` (the distances of all points to the
/// query) together with its exact distance.
pub open spec fn results_exact(c: Seq<NearestResult>, d: Seq<int>) -> bool {
    forall|a: int|
        0 <= a < c.len() ==> (#[trigger] c[a]).point_idx < d.len() && c[a].distance_squared
            == d[c[a].point_idx as int]
}

/// The k nearest of the points `seen`: at most `k` sorted, exact results
/// drawn from `seen`, and every point of `seen` left out lies at least as far
/// as the last result (and is only left out when `k` results were found).
pub open spec fn knn_ok(c: Seq<NearestResult>, k: int, seen: Set<int>, d: Seq<int>) -> bool {
    &&& c.len() <= k
    &&& results_exact(c, d)
    &&& sorted_results(c)
    &&& forall|a: int| 0 <= a < c.len() ==> seen.contains((#[trigger] c[a]).point_idx as int)
    &&& forall|j: int|
        #[trigger] seen.contains(j) ==> listed(c, j) || (c.len() == k && c.last().distance_squared
            <= d[j])
}

/// Whether `a` comes before `b` in `closer` order.
fn is_closer(a: NearestResult, b: NearestResult) -> (r: bool)
    ensures
        r == closer(a, b),
{
    a.distance_squared < b.distance_squared || (a.distance_squared == b.distance_squared
        && a.point_idx < b.point_idx)
}

/// Inserts `e` into the sorted list `c` at its place.
fn insert_sorted(c: &mut Vec<NearestResult>, e: NearestResult) -> (pos: usize)
    requires
        sorted_results(old(c)@),
        forall|a: int|
            0 <= a < old(c)@.len() ==> (#[trigger] old(c)@[a]).point_idx != e.point_idx,
    ensures
        pos <= old(c)@.len(),
        final(c)@ == old(c)@.insert(pos as int, e),
        sorted_results(final(c)@),
{
    let mut pos: usize = 0;
    while pos < c.len() && !is_closer(e, c[pos])
        invariant
            pos <= c@.len(),
            sorted_results(c@),
            forall|a: int| 0 <= a < c@.len() ==> (#[trigger] c@[a]).point_idx != e.point_idx,
            forall|a: int| 0 <= a < pos ==> closer(#[trigger] c@[a], e),
        decreases c@.len() - pos,
    {
        pos = pos + 1;
    }
    let ghost before = c@;
    proof {
        if pos < before.len() {
            assert(closer(e, before[pos as int]));
            assert forall|a: int| pos <= a < before.len() implies closer(e, #[trigger] before[a]) by {
                if a > pos {
                    assert(closer(before[pos as int], before[a]));
                }
            }
        }
    }
    c.insert(pos, e);
    proof {
        assert forall|a: int, b: int| 0 <= a < b < c@.len() implies closer(
            #[trigger] c@[a],
            #[trigger] c@[b],
        ) by {
            if b < pos {
                assert(c@[a] == before[a] && c@[b] == before[b]);
            } else if b == pos {
                assert(c@[a] == before[a]);
            } else if a < pos {
                assert(c@[a] == before[a] && c@[b] == before[b - 1]);
                if b - 1 > pos {
                    assert(closer(before[pos as int], before[b - 1]));
                }
                assert(closer(e, before[b - 1]));
            } else if a == pos {
                assert(c@[b] == before[b - 1]);
            } else {
                assert(c@[a] == before[a - 1] && c@[b] == before[b - 1]);
            }
        }
    }
    pos
}

/// Offers point `idx` at distance `dist` to the candidate list: it is added
/// while fewer than `k` candidates are held, and otherwise replaces the
/// farthest candidate when it is strictly closer.
pub(crate) fn offer(
    c: &mut Vec<NearestResult>,
    k: usize,
    idx: usize,
    dist: i128,
    Ghost(seen): Ghost<Set<int>>,
    Ghost(d): Ghost<Seq<int>>,
)
    requires
        k >= 1,
        knn_ok(old(c)@, k as int, seen, d),
        !seen.contains(idx as int),
        idx < d.len(),
        dist == d[idx as int],
    ensures
        knn_ok(final(c)@, k as int, seen.insert(idx as int), d),
{
    let e = NearestResult { point_idx: idx, distance_squared: dist };
    let n = c.len();
    let ghost before = c@;
    proof {
        assert forall|a: int| 0 <= a < before.len() implies (#[trigger] before[a]).point_idx != idx by {
            assert(seen.contains(before[a].point_idx as int));
        }
    }
    if n < k {
        let pos = insert_sorted(c, e);
        proof {
            let s2 = seen.insert(idx as int);
            assert(c@[pos as int] == e);
            assert forall|a: int| 0 <= a < c@.len() implies s2.contains((#[trigger] c@[a]).point_idx as int) by {
                if a < pos {
                    assert(c@[a] == before[a]);
                } else if a > pos {
                    assert(c@[a] == before[a - 1]);
                }
            }
            assert forall|a: int| 0 <= a < c@.len() implies (#[trigger] c@[a]).point_idx < d.len()
                && c@[a].distance_squared == d[c@[a].point_idx as int] by {
                if a < pos {
                    assert(c@[a] == before[a]);
                } else if a > pos {
                    assert(c@[a] == before[a - 1]);
                }
            }
            assert forall|j: int| #[trigger] s2.contains(j) implies listed(c@, j) || (c@.len() == k
                && c@.last().distance_squared <= d[j]) by {
                if j == idx {
                    assert(c@[pos as int].point_idx == j);
                } else {
                    assert(listed(before, j));
                    let a = choose|a: int| 0 <= a < before.len() && before[a].point_idx == j;
                    if a < pos {
                        assert(c@[a] == before[a]);
                    } else {
                        assert(c@[a + 1] == before[a]);
                    }
                }
            }
        }
    } else if dist < c[n - 1].distance_squared {
        let w = c.pop().unwrap();
        let ghost mid = c@;
        proof {
            assert(mid == before.drop_last());
            assert(w == before[n - 1]);
        }
        let pos = insert_sorted(c, e);
        proof {
            let s2 = seen.insert(idx as int);
            assert(c@[pos as int] == e);
            assert forall|a: int| 0 <= a < c@.len() implies s2.contains((#[trigger] c@[a]).point_idx as int) by {
                if a < pos {
                    assert(c@[a] == mid[a]);
                } else if a > pos {
                    assert(c@[a] == mid[a - 1]);
                }
            }
            assert forall|a: int| 0 <= a < c@.len() implies (#[trigger] c@[a]).point_idx < d.len()
                && c@[a].distance_squared == d[c@[a].point_idx as int] by {
                if a < pos {
                    assert(c@[a] == mid[a]);
                } else if a > pos {
                    assert(c@[a] == mid[a - 1]);
                }
            }
            // the new farthest candidate is no farther than the one dropped
            assert(c@.last().distance_squared <= w.distance_squared) by {
                if pos == c@.len() - 1 {
                } else {
                    assert(c@.last() == mid[c@.len() - 2]);
                    assert(closer(before[c@.len() - 2], before[n - 1]));
                }
            }
            assert forall|j: int| #[trigger] s2.contains(j) implies listed(c@, j) || (c@.len() == k
                && c@.last().distance_squared <= d[j]) by {
                if j == idx {
                    assert(c@[pos as int].point_idx == j);
                } else if listed(before, j) {
                    let a = choose|a: int| 0 <= a < before.len() && before[a].point_idx == j;
                    if a == n - 1 {
                    } else if a < pos {
                        assert(c@[a] == mid[a]);
                    } else {
                        assert(c@[a + 1] == mid[a]);
                    }
                }
            }
        }
    } else {
        proof {
            assert forall|j: int| #[trigger] seen.insert(idx as int).contains(j) implies listed(c@, j) || (
            c@.len() == k && c@.last().distance_squared <= d[j]) by {
                if j != idx {
                    assert(seen.contains(j));
                }
            }
        }
    }
}

/// Skipping points that lie at least as far as the farthest of `k`
/// candidates keeps the candidates the k nearest.
pub(crate) proof fn lemma_skip_far(c: Seq<NearestResult>, k: int, seen: Set<int>, far: Set<int>, d: Seq<int>)
    requires
        knn_ok(c, k, seen, d),
        c.len() == k,
        k >= 1,
        forall|j: int| #[trigger] far.contains(j) ==> c.last().distance_squared <= d[j],
    ensures
        knn_ok(c, k, seen.union(far), d),
{
    assert forall|j: int| #[trigger] seen.union(far).contains(j) implies listed(c, j) || (c.len() == k
        && c.last().distance_squared <= d[j]) by {
        if seen.contains(j) {
        }
    }
}

/// The k nearest among all points `0..n`: as many results as possible, no
/// point listed twice.
pub(crate) proof fn lemma_knn_complete(c: Seq<NearestResult>, k: int, n: int, d: Seq<int>)
    requires
        knn_ok(c, k, set_int_range(0, n), d),
        d.len() == n,
        n >= 0,
        k >= 1,
    ensures
        c.len() == if k < n {
            k
        } else {
            n
        },
        forall|a: int, b: int| 0 <= a < b < c.len() ==> (#[trigger] c[a]).point_idx != (#[trigger] c[b]).point_idx,
{
    let ids = c.map_values(|r: NearestResult| r.point_idx as int);
    assert forall|a: int, b: int| 0 <= a < b < c.len() implies (#[trigger] c[a]).point_idx != (
    #[trigger] c[b]).point_idx by {
        assert(closer(c[a], c[b]));
    }
    assert(ids.no_duplicates()) by {
        assert forall|a: int, b: int| 0 <= a < ids.len() && 0 <= b < ids.len() && a != b implies ids[a]
            != ids[b] by {
            if a < b {
                assert(closer(c[a], c[b]));
            } else {
                assert(closer(c[b], c[a]));
            }
        }
    }
    ids.unique_seq_to_set();
    lemma_int_range(0, n);
    assert(ids.to_set().subset_of(set_int_range(0, n))) by {
        assert forall|x: int| ids.to_set().contains(x) implies set_int_range(0, n).contains(x) by {
            let a = choose|a: int| 0 <= a < ids.len() && ids[a] == x;
            assert(set_int_range(0, n).contains(c[a].point_idx as int));
        }
    }
    vstd::set_lib::lemma_len_subset(ids.to_set(), set_int_range(0, n));
    if c.len() < k {
        assert(set_int_range(0, n).subset_of(ids.to_set())) by {
            assert forall|x: int| set_int_range(0, n).contains(x) implies ids.to_set().contains(x) by {
                assert(listed(c, x));
                let a = choose|a: int| 0 <= a < c.len() && c[a].point_idx == x;
                assert(ids[a] == x);
            }
        }
        vstd::set_lib::lemma_len_subset(set_int_range(0, n), ids.to_set());
    }
}


// ---------------------------------------------------------------------------
// Points a kd-tree can hold
// ---------------------------------------------------------------------------

/// Coordinates and squared distances of the points a kd-tree holds.
pub(crate) trait KdPoint: Copy + Sized {
    /// Number of coordinates.
    spec fn dims() -> int;

    /// Coordinate `d` of the point.
    spec fn coord_spec(self, d: int) -> int;

    /// Squared Euclidean distance to `other`.
    spec fn dist_spec(self, other: Self) -> int;

    /// The point lies in the box spanned by `lo` and `hi`, bounds included.
    spec fn in_box_spec(self, lo: Self, hi: Self) -> bool;

    /// The squared distance is at least the square of any coordinate difference.
    proof fn lemma_axis_bound(a: Self, b: Self, d: int)
        requires
            0 <= d < Self::dims(),
        ensures
            a.dist_spec(b) >= (a.coord_spec(d) - b.coord_spec(d)) * (a.coord_spec(d) - b.coord_spec(d)),
            a.dist_spec(b) >= 0,
    ;

    /// Squared distances are not negative.
    proof fn lemma_dist_nonneg(a: Self, b: Self)
        ensures
            a.dist_spec(b) >= 0,
    ;

    /// A point in a box lies between its bounds in every coordinate.
    proof fn lemma_box_bounds(p: Self, lo: Self, hi: Self, d: int)
        requires
            0 <= d < Self::dims(),
            p.in_box_spec(lo, hi),
        ensures
            lo.coord_spec(d) <= p.coord_spec(d) <= hi.coord_spec(d),
    ;

    /// Number of coordinates.
    fn dim_count() -> (r: u8)
        ensures
            r as int == Self::dims(),
            1 <= r <= 3,
    ;

    /// Coordinate `d` of the point.
    fn coord(&self, d: u8) -> (r: i64)
        requires
            (d as int) < Self::dims(),
        ensures
            r as int == self.coord_spec(d as int),
    ;

    /// Squared distance to `other`.
    fn dist(&self, other: &Self) -> (r: i128)
        requires
            fits_i128(self.dist_spec(*other)),
        ensures
            r as int == self.dist_spec(*other),
    ;

    /// Whether the point lies in the box spanned by `lo` and `hi`.
    fn in_box(&self, lo: &Self, hi: &Self) -> (r: bool)
        ensures
            r == self.in_box_spec(*lo, *hi),
    ;
}

/// `0 <= a <= b` gives `a * a <= b * b`.
pub(crate) proof fn lemma_square_le(a: int, b: int)
    requires
        0 <= a <= b,
    ensures
        a * a <= b * b,
{
    assert(a * a <= b * b) by (nonlinear_arith)
        requires
            0 <= a <= b,
    ;
}

/// A square does not depend on the order of the difference, and is not negative.
pub(crate) proof fn lemma_square_swap(a: int, b: int)
    ensures
        (a - b) * (a - b) == (b - a) * (b - a),
        (a - b) * (a - b) >= 0,
{
    assert((a - b) * (a - b) == (b - a) * (b - a)) by (nonlinear_arith);
    assert((a - b) * (a - b) >= 0) by (nonlinear_arith);
}

impl KdPoint for Point2<i64> {
    open spec fn dims() -> int {
        2
    }

    open spec fn coord_spec(self, d: int) -> int {
        if d == 0 {
            self.x as int
        } else {
            self.y as int
        }
    }

    open spec fn dist_spec(self, other: Self) -> int {
        (other.x - self.x) * (other.x - self.x) + (other.y - self.y) * (other.y - self.y)
    }

    open spec fn in_box_spec(self, lo: Self, hi: Self) -> bool {
        lo.x <= self.x <= hi.x && lo.y <= self.y <= hi.y
    }

    proof fn lemma_axis_bound(a: Self, b: Self, d: int) {
        lemma_square_swap(a.x as int, b.x as int);
        lemma_square_swap(a.y as int, b.y as int);
    }

    proof fn lemma_dist_nonneg(a: Self, b: Self) {
        lemma_square_swap(a.x as int, b.x as int);
        lemma_square_swap(a.y as int, b.y as int);
    }

    proof fn lemma_box_bounds(p: Self, lo: Self, hi: Self, d: int) {
    }

    fn dim_count() -> (r: u8) {
        2
    }

    fn coord(&self, d: u8) -> (r: i64) {
        if d == 0 {
            self.x
        } else {
            self.y
        }
    }

    fn dist(&self, other: &Self) -> (r: i128) {
        let dx = other.x as i128 - self.x as i128;
        let dy = other.y as i128 - self.y as i128;
        proof {
            lemma_square_swap(other.x as int, self.x as int);
            lemma_square_swap(other.y as int, self.y as int);
        }
        dx * dx + dy * dy
    }

    fn in_box(&self, lo: &Self, hi: &Self) -> (r: bool) {
        lo.x <= self.x && self.x <= hi.x && lo.y <= self.y && self.y <= hi.y
    }
}

impl KdPoint for Point3<i64> {
    open spec fn dims() -> int {
        3
    }

    open spec fn coord_spec(self, d: int) -> int {
        if d == 0 {
            self.x as int
        } else if d == 1 {
            self.y as int
        } else {
            self.z as int
        }
    }

    open spec fn dist_spec(self, other: Self) -> int {
        dist2_3d(self, other)
    }

    open spec fn in_box_spec(self, lo: Self, hi: Self) -> bool {
        lo.x <= self.x <= hi.x && lo.y <= self.y <= hi.y && lo.z <= self.z <= hi.z
    }

    proof fn lemma_axis_bound(a: Self, b: Self, d: int) {
        lemma_square_swap(a.x as int, b.x as int);
        lemma_square_swap(a.y as int, b.y as int);
        lemma_square_swap(a.z as int, b.z as int);
    }

    proof fn lemma_dist_nonneg(a: Self, b: Self) {
        lemma_square_swap(a.x as int, b.x as int);
        lemma_square_swap(a.y as int, b.y as int);
        lemma_square_swap(a.z as int, b.z as int);
    }

    proof fn lemma_box_bounds(p: Self, lo: Self, hi: Self, d: int) {
    }

    fn dim_count() -> (r: u8) {
        3
    }

    fn coord(&self, d: u8) -> (r: i64) {
        if d == 0 {
            self.x
        } else if d == 1 {
            self.y
        } else {
            self.z
        }
    }

    fn dist(&self, other: &Self) -> (r: i128) {
        distance_squared_3d(*self, *other)
    }

    fn in_box(&self, lo: &Self, hi: &Self) -> (r: bool) {
        lo.x <= self.x && self.x <= hi.x && lo.y <= self.y && self.y <= hi.y && lo.z <= self.z
            && self.z <= hi.z
    }
}


// ---------------------------------------------------------------------------
// Tree structure
// ---------------------------------------------------------------------------

/// A node: one point, the coordinate it splits on, and its two subtrees.
#[derive(Clone, Copy)]
struct KdNode {
    point_idx: usize,
    left: Option<usize>,
    right: Option<usize>,
    split_dim: u8,
}

/// The point indices of a sequence, as a set of integers.
pub open spec fn index_set(s: Seq<usize>) -> Set<int> {
    Set::new(|j: int| exists|t: int| 0 <= t < s.len() && s[t] as int == j)
}

/// Point indices of the subtree at `c`, empty for no subtree.
spec fn kid_set(sub: Seq<Set<int>>, c: Option<usize>) -> Set<int> {
    match c {
        Some(x) => sub[x as int],
        None => Set::empty(),
    }
}

/// Node `i` is well formed: its subtrees come after it, its subtree holds
/// its own point and the disjoint point sets of its two subtrees, and the
/// left (right) subtree lies on the low (high) side of its point along its
/// splitting coordinate.
spec fn kd_node_ok<P: KdPoint>(nodes: Seq<KdNode>, sub: Seq<Set<int>>, pts: Seq<P>, i: int) -> bool {
    let nd = nodes[i];
    let p = nd.point_idx as int;
    let dim = nd.split_dim as int;
    let l = kid_set(sub, nd.left);
    let r = kid_set(sub, nd.right);
    &&& 0 <= p < pts.len()
    &&& 0 <= dim < P::dims()
    &&& (nd.left matches Some(x) ==> i < x < nodes.len())
    &&& (nd.right matches Some(x) ==> i < x < nodes.len())
    &&& sub[i] == l.union(r).insert(p)
    &&& !l.contains(p)
    &&& !r.contains(p)
    &&& l.disjoint(r)
    &&& forall|j: int| #[trigger] l.contains(j) ==> pts[j].coord_spec(dim) <= pts[p].coord_spec(dim)
    &&& forall|j: int| #[trigger] r.contains(j) ==> pts[j].coord_spec(dim) >= pts[p].coord_spec(dim)
    &&& forall|j: int| #[trigger] sub[i].contains(j) ==> 0 <= j < pts.len()
}

/// Nodes `lo..` of `n1` are well formed, and `n2` keeps them and their
/// subtree sets: they stay well formed in `n2`.
proof fn lemma_kd_nodes_kept<P: KdPoint>(
    n1: Seq<KdNode>,
    s1: Seq<Set<int>>,
    n2: Seq<KdNode>,
    s2: Seq<Set<int>>,
    pts: Seq<P>,
    lo: int,
)
    requires
        forall|i: int| lo <= i < n1.len() ==> #[trigger] kd_node_ok(n1, s1, pts, i),
        n2.len() >= n1.len(),
        forall|x: int| lo <= x < n1.len() ==> n2[x] == n1[x] && s2[x] == s1[x],
    ensures
        forall|i: int| lo <= i < n1.len() ==> #[trigger] kd_node_ok(n2, s2, pts, i),
{
    assert forall|i: int| lo <= i < n1.len() implies #[trigger] kd_node_ok(n2, s2, pts, i) by {
        assert(kd_node_ok(n1, s1, pts, i));
        let nd = n1[i];
        assert(n2[i] == nd);
        assert(kid_set(s2, nd.left) == kid_set(s1, nd.left));
        assert(kid_set(s2, nd.right) == kid_set(s1, nd.right));
    }
}

/// `s[a..b]` as a new vector.
fn copy_range(s: &Vec<usize>, a: usize, b: usize) -> (r: Vec<usize>)
    requires
        a <= b <= s@.len(),
    ensures
        r@ == s@.subrange(a as int, b as int),
{
    let mut r: Vec<usize> = Vec::new();
    let mut t = a;
    while t < b
        invariant
            a <= t <= b <= s@.len(),
            r@ == s@.subrange(a as int, t as int),
        decreases b - t,
    {
        r.push(s[t]);
        t = t + 1;
    }
    r
}

/// A reordering keeps the elements and their distinctness.
proof fn lemma_reordered(s: Seq<usize>, t: Seq<usize>)
    requires
        t.to_multiset() == s.to_multiset(),
        s.no_duplicates(),
    ensures
        t.len() == s.len(),
        t.no_duplicates(),
        index_set(t) == index_set(s),
        forall|x: usize| t.contains(x) <==> s.contains(x),
{
    s.to_multiset_ensures();
    t.to_multiset_ensures();
    s.lemma_multiset_has_no_duplicates();
    t.lemma_multiset_has_no_duplicates_conv();
    assert forall|x: usize| t.contains(x) <==> s.contains(x) by {
        vstd::seq_lib::to_multiset_contains(t, x);
        vstd::seq_lib::to_multiset_contains(s, x);
    }
    assert forall|j: int| index_set(t).contains(j) <==> index_set(s).contains(j) by {
        if index_set(t).contains(j) {
            let a = choose|a: int| 0 <= a < t.len() && t[a] as int == j;
            assert(s.contains(t[a]));
        }
        if index_set(s).contains(j) {
            let a = choose|a: int| 0 <= a < s.len() && s[a] as int == j;
            assert(t.contains(s[a]));
        }
    }
    assert(index_set(t) =~= index_set(s));
}

/// Splitting a sequence without duplicates around position `m`.
proof fn lemma_split_at(s: Seq<usize>, m: int)
    requires
        0 <= m < s.len(),
        s.no_duplicates(),
    ensures
        index_set(s) == index_set(s.subrange(0, m)).union(index_set(s.subrange(m + 1, s.len() as int))).insert(
            s[m] as int,
        ),
        !index_set(s.subrange(0, m)).contains(s[m] as int),
        !index_set(s.subrange(m + 1, s.len() as int)).contains(s[m] as int),
        index_set(s.subrange(0, m)).disjoint(index_set(s.subrange(m + 1, s.len() as int))),
        s.subrange(0, m).no_duplicates(),
        s.subrange(m + 1, s.len() as int).no_duplicates(),
{
    let l = s.subrange(0, m);
    let r = s.subrange(m + 1, s.len() as int);
    assert forall|j: int| #[trigger] index_set(s).contains(j) <==> index_set(l).union(index_set(r)).insert(
        s[m] as int,
    ).contains(j) by {
        if index_set(s).contains(j) {
            let a = choose|a: int| 0 <= a < s.len() && s[a] as int == j;
            if a < m {
                assert(l[a] == s[a]);
            } else if a > m {
                assert(r[a - m - 1] == s[a]);
            }
        }
        if index_set(l).contains(j) {
            let a = choose|a: int| 0 <= a < l.len() && l[a] as int == j;
            assert(s[a] == l[a]);
        }
        if index_set(r).contains(j) {
            let a = choose|a: int| 0 <= a < r.len() && r[a] as int == j;
            assert(s[a + m + 1] == r[a]);
        }
    }
    assert(index_set(s) =~= index_set(l).union(index_set(r)).insert(s[m] as int));
    assert(!index_set(l).contains(s[m] as int)) by {
        if index_set(l).contains(s[m] as int) {
            let a = choose|a: int| 0 <= a < l.len() && l[a] as int == s[m] as int;
            assert(s[a] == s[m]);
        }
    }
    assert(!index_set(r).contains(s[m] as int)) by {
        if index_set(r).contains(s[m] as int) {
            let a = choose|a: int| 0 <= a < r.len() && r[a] as int == s[m] as int;
            assert(s[a + m + 1] == s[m]);
        }
    }
    assert forall|j: int| !(index_set(l).contains(j) && index_set(r).contains(j)) by {
        if index_set(l).contains(j) && index_set(r).contains(j) {
            let a = choose|a: int| 0 <= a < l.len() && l[a] as int == j;
            let b = choose|b: int| 0 <= b < r.len() && r[b] as int == j;
            assert(s[a] == s[b + m + 1]);
        }
    }
}

/// Coordinate `dim` of point `i`.
spec fn key<P: KdPoint>(pts: Seq<P>, i: usize, dim: u8) -> int {
    pts[i as int].coord_spec(dim as int)
}

/// Element `m` of `s`.
spec fn at(s: Seq<usize>, m: usize) -> usize {
    s[m as int]
}

/// `dim` names a coordinate of `P`.
spec fn dim_ok<P: KdPoint>(dim: u8) -> bool {
    (dim as int) < P::dims()
}

/// Orders two points by coordinate `dim`.
fn coord_order<P: KdPoint>(points: &Vec<P>, a: usize, b: usize, dim: u8) -> (o: Ordering)
    requires
        a < points@.len(),
        b < points@.len(),
        dim_ok::<P>(dim),
    ensures
        (o == Ordering::Less) == (key(points@, a, dim) < key(points@, b, dim)),
        (o == Ordering::Greater) == (key(points@, a, dim) > key(points@, b, dim)),
{
    let ca = points[a].coord(dim);
    let cb = points[b].coord(dim);
    if ca < cb {
        Ordering::Less
    } else if ca > cb {
        Ordering::Greater
    } else {
        Ordering::Equal
    }
}

/// Places the median of `idx` by coordinate `dim` at position `mid`, with
/// `slice::select_nth_unstable_by`. Its documentation promises a reordering
/// of the slice in which the element at `mid` is where a full sort would put
/// it, no element before it is greater and no element after it is smaller;
/// it panics when `mid` is out of bounds, which the precondition rules out.
#[verifier::external_body]
fn select_nth_by_coord<P: KdPoint>(points: &Vec<P>, idx: &mut Vec<usize>, mid: usize, dim: u8)
    requires
        mid < old(idx)@.len(),
        dim_ok::<P>(dim),
        forall|t: int| 0 <= t < old(idx)@.len() ==> (#[trigger] old(idx)@[t]) < points@.len(),
    ensures
        final(idx)@.len() == old(idx)@.len(),
        final(idx)@.to_multiset() == old(idx)@.to_multiset(),
        forall|t: int|
            0 <= t < mid ==> key(points@, #[trigger] final(idx)@[t], dim) <= key(
                points@,
                at(final(idx)@, mid),
                dim,
            ),
        forall|t: int|
            mid < t < final(idx)@.len() ==> key(points@, #[trigger] final(idx)@[t], dim) >= key(
                points@,
                at(final(idx)@, mid),
                dim,
            ),
{
    idx.select_nth_unstable_by(mid, |a: &usize, b: &usize| coord_order(points, *a, *b, dim));
}

/// Builds the subtree over the point indices `idx`, splitting on `dim`,
/// appending its nodes to `nodes` (its root first) and their subtree sets
/// to `sub`.
fn build_kd<P: KdPoint>(
    points: &Vec<P>,
    idx: Vec<usize>,
    dim: u8,
    nodes: &mut Vec<KdNode>,
    Ghost(sub): Ghost<Seq<Set<int>>>,
) -> (r: (usize, Ghost<Seq<Set<int>>>))
    requires
        idx@.len() >= 1,
        idx@.no_duplicates(),
        forall|t: int| 0 <= t < idx@.len() ==> (#[trigger] idx@[t]) < points@.len(),
        (dim as int) < P::dims(),
        old(nodes)@.len() == sub.len(),
        old(nodes)@.len() + idx@.len() <= usize::MAX,
    ensures
        r.0 == old(nodes)@.len(),
        final(nodes)@.len() == old(nodes)@.len() + idx@.len(),
        r.1@.len() == final(nodes)@.len(),
        forall|x: int|
            0 <= x < old(nodes)@.len() ==> final(nodes)@[x] == old(nodes)@[x] && r.1@[x] == sub[x],
        forall|i: int|
            old(nodes)@.len() <= i < final(nodes)@.len() ==> #[trigger] kd_node_ok(
                final(nodes)@,
                r.1@,
                points@,
                i,
            ),
        r.1@[r.0 as int] == index_set(idx@),
    decreases idx@.len(),
{
    let ghost idx0 = idx@;
    let ghost n0 = nodes@;
    let mut idx = idx;
    let mid = idx.len() / 2;
    select_nth_by_coord(points, &mut idx, mid, dim);
    proof {
        lemma_reordered(idx0, idx@);
        lemma_split_at(idx@, mid as int);
        assert forall|t: int| 0 <= t < idx@.len() implies (#[trigger] idx@[t]) < points@.len() by {
            assert(idx0.contains(idx@[t]));
        }
    }
    let pidx = idx[mid];
    let node_idx = nodes.len();
    nodes.push(KdNode { point_idx: pidx, left: None, right: None, split_dim: dim });
    let ghost sub1 = sub.push(index_set(idx@));
    let ghost n1 = nodes@;
    let nd = P::dim_count();
    let next: u8 = if dim + 1 < nd {
        dim + 1
    } else {
        0
    };
    let left_idx = copy_range(&idx, 0, mid);
    let right_idx = copy_range(&idx, mid + 1, idx.len());
    let mut cur: Ghost<Seq<Set<int>>> = Ghost(sub1);
    let mut left: Option<usize> = None;
    if mid > 0 {
        let (l, s) = build_kd(points, left_idx, next, nodes, cur);
        proof {
            assert(s@[node_idx as int] == sub1[node_idx as int]);
            assert forall|x: int| 0 <= x < n1.len() implies nodes@[x] == n1[x] && s@[x] == sub1[x] by {
                assert(s@[x] == sub1[x]);
            }
        }
        left = Some(l);
        cur = s;
    }
    let ghost n2 = nodes@;
    let ghost s2 = cur@;
    let mut right: Option<usize> = None;
    if mid + 1 < idx.len() {
        let (r, s) = build_kd(points, right_idx, next, nodes, cur);
        proof {
            assert(nodes@.len() == n2.len() + right_idx@.len());
            assert forall|x: int| node_idx + 1 <= x < n2.len() implies nodes@[x] == n2[x] && s@[x]
                == s2[x] by {
                assert(0 <= x < n2.len());
                assert(s@[x] == s2[x]);
                assert(nodes@[x].split_dim == n2[x].split_dim);
                assert(nodes@[x].point_idx == n2[x].point_idx);
            }
            assert(s@[node_idx as int] == s2[node_idx as int]);
            assert forall|x: int| 0 <= x < n2.len() implies nodes@[x] == n2[x] && s@[x] == s2[x] by {
                assert(s@[x] == s2[x]);
            }
            lemma_kd_nodes_kept(n2, s2, nodes@, s@, points@, node_idx + 1);
        }
        right = Some(r);
        cur = s;
    }
    let ghost n3 = nodes@;
    nodes.set(node_idx, KdNode { point_idx: pidx, left, right, split_dim: dim });
    proof {
        lemma_kd_nodes_kept(n3, cur@, nodes@, cur@, points@, node_idx + 1);
        let l = kid_set(cur@, left);
        let r = kid_set(cur@, right);
        assert(l == index_set(idx@.subrange(0, mid as int))) by {
            if mid == 0 {
                assert(index_set(idx@.subrange(0, 0)) =~= Set::empty());
            }
        }
        assert(r == index_set(idx@.subrange(mid + 1, idx@.len() as int))) by {
            if mid + 1 >= idx@.len() {
                assert(index_set(idx@.subrange(mid + 1, idx@.len() as int)) =~= Set::empty());
            }
        }
        assert forall|j: int| #[trigger] l.contains(j) implies points@[j].coord_spec(dim as int)
            <= points@[pidx as int].coord_spec(dim as int) by {
            let a = choose|a: int| 0 <= a < mid && idx@.subrange(0, mid as int)[a] as int == j;
            assert(idx@[a] as int == j);
            assert(key(points@, idx@[a], dim) <= key(points@, at(idx@, mid), dim));
        }
        assert forall|j: int| #[trigger] r.contains(j) implies points@[j].coord_spec(dim as int)
            >= points@[pidx as int].coord_spec(dim as int) by {
            let rs = idx@.subrange(mid + 1, idx@.len() as int);
            let a = choose|a: int| 0 <= a < rs.len() && rs[a] as int == j;
            assert(idx@[a + mid + 1] as int == j);
            assert(key(points@, idx@[a + mid + 1], dim) >= key(points@, at(idx@, mid), dim));
        }
        assert forall|j: int| #[trigger] cur@[node_idx as int].contains(j) implies 0 <= j < points@.len() by {
            let a = choose|a: int| 0 <= a < idx@.len() && idx@[a] as int == j;
        }
        assert(kd_node_ok(nodes@, cur@, points@, node_idx as int));
        assert(cur@[node_idx as int] == index_set(idx0));
        assert forall|x: int| 0 <= x < n0.len() implies nodes@[x] == n0[x] && cur@[x] == sub[x] by {
            assert(n1[x] == n0[x]);
            assert(n2[x] == n1[x] && s2[x] == sub1[x]);
            assert(n3[x] == n2[x]);
        }
    }
    (node_idx, cur)
}


/// Squared distances of all points to the query, by point index.
pub(crate) open spec fn dists_to<P: KdPoint>(pts: Seq<P>, q: P) -> Seq<int> {
    Seq::new(pts.len(), |j: int| q.dist_spec(pts[j]))
}

/// Every squared distance to the query is below `i128::MAX`, so it is computed
/// exactly and beats the initial "no point yet" distance.
pub(crate) open spec fn query_ok<P: KdPoint>(pts: Seq<P>, q: P) -> bool {
    forall|j: int| 0 <= j < pts.len() ==> #[trigger] q.dist_spec(pts[j]) < i128::MAX
}

/// `r` is the point of `pts` nearest to `q`.
pub(crate) open spec fn is_nearest<P: KdPoint>(pts: Seq<P>, q: P, r: NearestResult) -> bool {
    &&& r.point_idx < pts.len()
    &&& r.distance_squared == q.dist_spec(pts[r.point_idx as int])
    &&& forall|j: int| 0 <= j < pts.len() ==> r.distance_squared <= #[trigger] q.dist_spec(pts[j])
}

/// `r` lists the `k` points of `pts` nearest to `q` (all of them when there
/// are fewer), by increasing distance, ties by index.
pub(crate) open spec fn is_k_nearest<P: KdPoint>(pts: Seq<P>, q: P, k: int, r: Seq<NearestResult>) -> bool {
    &&& r.len() == if k < pts.len() {
        k
    } else {
        pts.len() as int
    }
    &&& results_exact(r, dists_to(pts, q))
    &&& sorted_results(r)
    &&& forall|j: int|
        0 <= j < pts.len() && !listed(r, j) ==> r.last().distance_squared <= #[trigger] q.dist_spec(
            pts[j],
        )
}

/// `r` lists, once each, exactly the indices of the points of `pts` in the
/// box spanned by `lo` and `hi`.
pub(crate) open spec fn is_range_result<P: KdPoint>(pts: Seq<P>, lo: P, hi: P, r: Seq<usize>) -> bool {
    &&& r.no_duplicates()
    &&& forall|x: usize| #[trigger] r.contains(x) <==> x < pts.len() && pts[x as int].in_box_spec(lo, hi)
}

/// A kd-tree over points of type `P`, nodes stored in preorder.
#[derive(Clone)]
struct KdCore<P> {
    nodes: Vec<KdNode>,
    points: Vec<P>,
    root: Option<usize>,
    sub: Ghost<Seq<Set<int>>>,
}

impl<P: KdPoint> KdCore<P> {
    /// Every node is well formed and the root's subtree holds every point.
    spec fn wf(&self) -> bool {
        &&& self.sub@.len() == self.nodes@.len()
        &&& forall|i: int|
            0 <= i < self.nodes@.len() ==> #[trigger] kd_node_ok(self.nodes@, self.sub@, self.points@, i)
        &&& match self.root {
            None => self.points@.len() == 0,
            Some(r) => r < self.nodes@.len() && self.sub@[r as int] == set_int_range(
                0,
                self.points@.len() as int,
            ),
        }
    }

    fn build(points: &[P]) -> (t: Self)
        ensures
            t.wf(),
            t.points@ == points@,
    {
        let points_vec = vstd::slice::slice_to_vec(points);
        let n = points_vec.len();
        let mut nodes: Vec<KdNode> = Vec::new();
        if n == 0 {
            return KdCore { nodes, points: points_vec, root: None, sub: Ghost(Seq::empty()) };
        }
        let mut indices: Vec<usize> = Vec::new();
        let mut t: usize = 0;
        while t < n
            invariant
                t <= n,
                indices@.len() == t,
                forall|a: int| 0 <= a < t ==> #[trigger] indices@[a] == a,
            decreases n - t,
        {
            indices.push(t);
            t = t + 1;
        }
        proof {
            assert(indices@.no_duplicates());
            assert(index_set(indices@) =~= set_int_range(0, n as int)) by {
                assert forall|j: int| set_int_range(0, n as int).contains(j) implies index_set(indices@).contains(j) by {
                    assert(indices@[j] as int == j);
                }
            }
        }
        let _ = P::dim_count();
        let (root, sub) = build_kd(&points_vec, indices, 0, &mut nodes, Ghost(Seq::empty()));
        KdCore { nodes, points: points_vec, root: Some(root), sub }
    }

    /// Squared distance from the query to every point of the subtree at `i`
    /// is at least that of the returned result, which is `best` or a strictly
    /// closer point of that subtree.
    fn nearest_rec(&self, i: usize, query: P, best: NearestResult) -> (r: NearestResult)
        requires
            self.wf(),
            i < self.nodes@.len(),
            query_ok(self.points@, query),
        ensures
            r.distance_squared <= best.distance_squared,
            r == best || (r.point_idx < self.points@.len() && r.distance_squared == query.dist_spec(
                self.points@[r.point_idx as int],
            )),
            forall|j: int| #[trigger]
                self.sub@[i as int].contains(j) ==> r.distance_squared <= query.dist_spec(self.points@[j]),
        decreases self.nodes@.len() - i,
    {
        let node = self.nodes[i];
        proof {
            assert(kd_node_ok(self.nodes@, self.sub@, self.points@, i as int));
        }
        let point = self.points[node.point_idx];
        proof {
            P::lemma_axis_bound(query, point, node.split_dim as int);
            assert(query.dist_spec(self.points@[node.point_idx as int]) < i128::MAX);
        }
        let dist = query.dist(&point);
        let mut best = best;
        if dist < best.distance_squared {
            best = NearestResult { point_idx: node.point_idx, distance_squared: dist };
        }
        let ghost b1 = best;
        let qv = query.coord(node.split_dim);
        let pv = point.coord(node.split_dim);
        let (first, second) = if qv < pv {
            (node.left, node.right)
        } else {
            (node.right, node.left)
        };
        if let Some(f) = first {
            best = self.nearest_rec(f, query, best);
        }
        let ghost b2 = best;
        let diff = qv as i128 - pv as i128;
        proof {
            P::lemma_axis_bound(query, point, node.split_dim as int);
            lemma_square_swap(qv as int, pv as int);
        }
        let split = diff * diff;
        if split < best.distance_squared {
            if let Some(s) = second {
                best = self.nearest_rec(s, query, best);
            }
        } else {
            proof {
                // every point beyond the splitting line is at least `split` away
                assert forall|j: int| #[trigger] kid_set(self.sub@, second).contains(j) implies best.distance_squared
                    <= query.dist_spec(self.points@[j]) by {
                    let c = self.points@[j].coord_spec(node.split_dim as int);
                    P::lemma_axis_bound(query, self.points@[j], node.split_dim as int);
                    lemma_square_swap(qv as int, c);
                    lemma_square_swap(c, qv as int);
                    if qv < pv {
                        lemma_square_le(pv - qv, c - qv);
                    } else {
                        lemma_square_le(qv - pv, qv - c);
                    }
                }
            }
        }
        proof {
            assert forall|j: int| #[trigger] self.sub@[i as int].contains(j) implies best.distance_squared
                <= query.dist_spec(self.points@[j]) by {
                if j == node.point_idx as int {
                } else if kid_set(self.sub@, first).contains(j) {
                } else {
                    assert(kid_set(self.sub@, second).contains(j));
                }
            }
        }
        best
    }

    /// Offers every point of the subtree at `i` to the candidate list.
    fn k_nearest_rec(
        &self,
        i: usize,
        query: P,
        k: usize,
        c: &mut Vec<NearestResult>,
        Ghost(seen): Ghost<Set<int>>,
    )
        requires
            self.wf(),
            i < self.nodes@.len(),
            query_ok(self.points@, query),
            k >= 1,
            knn_ok(old(c)@, k as int, seen, dists_to(self.points@, query)),
            seen.disjoint(self.sub@[i as int]),
        ensures
            knn_ok(final(c)@, k as int, seen.union(self.sub@[i as int]), dists_to(self.points@, query)),
        decreases self.nodes@.len() - i,
    {
        let ghost d = dists_to(self.points@, query);
        let node = self.nodes[i];
        proof {
            assert(kd_node_ok(self.nodes@, self.sub@, self.points@, i as int));
        }
        let point = self.points[node.point_idx];
        proof {
            P::lemma_axis_bound(query, point, node.split_dim as int);
            assert(query.dist_spec(self.points@[node.point_idx as int]) < i128::MAX);
        }
        let dist = query.dist(&point);
        offer(c, k, node.point_idx, dist, Ghost(seen), Ghost(d));
        let ghost seen1 = seen.insert(node.point_idx as int);
        let qv = query.coord(node.split_dim);
        let pv = point.coord(node.split_dim);
        let (first, second) = if qv < pv {
            (node.left, node.right)
        } else {
            (node.right, node.left)
        };
        let ghost fset = kid_set(self.sub@, first);
        let ghost sset = kid_set(self.sub@, second);
        if let Some(f) = first {
            proof {
                assert(kd_node_ok(self.nodes@, self.sub@, self.points@, f as int));
            }
            self.k_nearest_rec(f, query, k, c, Ghost(seen1));
        }
        let ghost seen2 = seen1.union(fset);
        proof {
            if first is None {
                assert(seen1.union(fset) =~= seen1);
            }
        }
        let diff = qv as i128 - pv as i128;
        proof {
            P::lemma_axis_bound(query, point, node.split_dim as int);
            lemma_square_swap(qv as int, pv as int);
        }
        let split = diff * diff;
        let n = c.len();
        let search = n < k || split < c[n - 1].distance_squared;
        if search {
            if let Some(s) = second {
                self.k_nearest_rec(s, query, k, c, Ghost(seen2));
            } else {
                assert(seen2.union(sset) =~= seen2);
            }
        } else {
            proof {
                assert forall|j: int| #[trigger] sset.contains(j) implies c@.last().distance_squared
                    <= d[j] by {
                    assert(self.sub@[i as int].contains(j));
                    assert(d[j] == query.dist_spec(self.points@[j]));
                    let cj = self.points@[j].coord_spec(node.split_dim as int);
                    P::lemma_axis_bound(query, self.points@[j], node.split_dim as int);
                    lemma_square_swap(qv as int, cj);
                    lemma_square_swap(cj, qv as int);
                    if qv < pv {
                        lemma_square_le(pv - qv, cj - qv);
                    } else {
                        lemma_square_le(qv - pv, qv - cj);
                    }
                }
                lemma_skip_far(c@, k as int, seen2, sset, d);
            }
        }
        proof {
            assert(seen2.union(sset) =~= seen.union(self.sub@[i as int]));
        }
    }

    /// Appends the indices of the points of the subtree at `i` that lie in
    /// the box.
    fn range_rec(&self, i: usize, lo: P, hi: P, results: &mut Vec<usize>)
        requires
            self.wf(),
            i < self.nodes@.len(),
            old(results)@.no_duplicates(),
            forall|x: usize| #[trigger] old(results)@.contains(x) ==> !self.sub@[i as int].contains(x as int),
        ensures
            final(results)@.no_duplicates(),
            forall|x: usize| #[trigger]
                final(results)@.contains(x) <==> old(results)@.contains(x) || (self.sub@[i as int].contains(
                    x as int,
                ) && self.points@[x as int].in_box_spec(lo, hi)),
        decreases self.nodes@.len() - i,
    {
        let node = self.nodes[i];
        proof {
            assert(kd_node_ok(self.nodes@, self.sub@, self.points@, i as int));
        }
        let ghost r0 = results@;
        let point = self.points[node.point_idx];
        let inside = point.in_box(&lo, &hi);
        if inside {
            results.push(node.point_idx);
        }
        let ghost r1 = results@;
        let ghost lset = kid_set(self.sub@, node.left);
        let ghost rset = kid_set(self.sub@, node.right);
        proof {
            if inside {
                assert(!r0.contains(node.point_idx));
                assert(r1.no_duplicates()) by {
                    assert forall|a: int, b: int| 0 <= a < r1.len() && 0 <= b < r1.len() && a != b implies r1[a]
                        != r1[b] by {
                        if a == r0.len() {
                            assert(r0.contains(r1[b]));
                        } else if b == r0.len() {
                            assert(r0.contains(r1[a]));
                        }
                    }
                }
            }
        }
        proof {
            assert forall|x: usize| #[trigger] r1.contains(x) <==> r0.contains(x) || (x == node.point_idx
                && self.points@[x as int].in_box_spec(lo, hi)) by {
                if inside {
                    assert(r1 == r0.push(node.point_idx));
                    if r1.contains(x) && !r0.contains(x) {
                        let a = choose|a: int| 0 <= a < r1.len() && r1[a] == x;
                        assert(a == r0.len());
                    }
                    if r0.contains(x) {
                        let a = choose|a: int| 0 <= a < r0.len() && r0[a] == x;
                        assert(r1[a] == x);
                    }
                    if x == node.point_idx {
                        assert(r1[r1.len() - 1] == x);
                    }
                }
            }
        }
        let pv = point.coord(node.split_dim);
        let lov = lo.coord(node.split_dim);
        let hiv = hi.coord(node.split_dim);
        proof {
            assert forall|x: usize| #[trigger] r1.contains(x) implies !lset.contains(x as int) && !rset.contains(
                x as int,
            ) by {
                if r0.contains(x) {
                    assert(!self.sub@[i as int].contains(x as int));
                }
            }
        }
        if lov <= pv {
            if let Some(l) = node.left {
                self.range_rec(l, lo, hi, results);
            }
        } else {
            proof {
                assert forall|j: int| #[trigger] lset.contains(j) implies !self.points@[j].in_box_spec(lo, hi) by {
                    if self.points@[j].in_box_spec(lo, hi) {
                        P::lemma_box_bounds(self.points@[j], lo, hi, node.split_dim as int);
                    }
                }
            }
        }
        let ghost r2 = results@;
        proof {
            assert forall|x: usize| #[trigger] r2.contains(x) <==> r1.contains(x) || (lset.contains(x as int)
                && self.points@[x as int].in_box_spec(lo, hi)) by {
                if node.left is None {
                    assert(!lset.contains(x as int));
                }
            }
        }
        proof {
            assert forall|x: usize| #[trigger] r2.contains(x) implies !rset.contains(x as int) by {
                if r1.contains(x) {
                } else {
                    assert(lset.contains(x as int));
                }
            }
        }
        if hiv >= pv {
            if let Some(r) = node.right {
                self.range_rec(r, lo, hi, results);
            }
        } else {
            proof {
                assert forall|j: int| #[trigger] rset.contains(j) implies !self.points@[j].in_box_spec(lo, hi) by {
                    if self.points@[j].in_box_spec(lo, hi) {
                        P::lemma_box_bounds(self.points@[j], lo, hi, node.split_dim as int);
                    }
                }
            }
        }
        proof {
            assert forall|x: usize| #[trigger] results@.contains(x) <==> r2.contains(x) || (rset.contains(x as int)
                && self.points@[x as int].in_box_spec(lo, hi)) by {
                if node.right is None {
                    assert(!rset.contains(x as int));
                }
            }
        }
    }

    /// The point nearest to `query`, if any.
    fn nearest(&self, query: P) -> (r: Option<NearestResult>)
        requires
            self.wf(),
            query_ok(self.points@, query),
        ensures
            r is None <==> self.points@.len() == 0,
            r matches Some(res) ==> is_nearest(self.points@, query, res),
    {
        match self.root {
            None => None,
            Some(root) => {
                let start = NearestResult { point_idx: usize::MAX, distance_squared: i128::MAX };
                let res = self.nearest_rec(root, query, start);
                proof {
                    assert(kd_node_ok(self.nodes@, self.sub@, self.points@, root as int));
                    let n = self.points@.len();
                    assert(self.sub@[root as int].contains(0int));
                    assert(query.dist_spec(self.points@[0]) < i128::MAX);
                    assert forall|j: int| 0 <= j < n implies res.distance_squared <= #[trigger] query.dist_spec(
                        self.points@[j],
                    ) by {
                        assert(self.sub@[root as int].contains(j));
                    }
                }
                Some(res)
            },
        }
    }

    /// The `k` points nearest to `query`.
    fn k_nearest(&self, query: P, k: usize) -> (r: Vec<NearestResult>)
        requires
            self.wf(),
            query_ok(self.points@, query),
        ensures
            k == 0 ==> r@.len() == 0,
            k > 0 ==> is_k_nearest(self.points@, query, k as int, r@),
    {
        let mut c: Vec<NearestResult> = Vec::new();
        if k == 0 {
            return c;
        }
        let ghost d = dists_to(self.points@, query);
        match self.root {
            None => {
                proof {
                    assert(knn_ok(c@, k as int, Set::empty(), d));
                }
            },
            Some(root) => {
                proof {
                    assert(knn_ok(c@, k as int, Set::empty(), d));
                }
                self.k_nearest_rec(root, query, k, &mut c, Ghost(Set::empty()));
                proof {
                    assert(Set::<int>::empty().union(self.sub@[root as int]) =~= set_int_range(
                        0,
                        self.points@.len() as int,
                    ));
                    lemma_knn_complete(c@, k as int, self.points@.len() as int, d);
                }
            },
        }
        proof {
            let n = self.points@.len() as int;
            if self.root is None {
                assert(n == 0);
            }
            assert forall|j: int| 0 <= j < n && !listed(c@, j) implies c@.last().distance_squared
                <= #[trigger] query.dist_spec(self.points@[j]) by {
                assert(set_int_range(0, n).contains(j));
            }
        }
        c
    }

    /// Indices of the points in the box spanned by `lo` and `hi`.
    fn range_query(&self, lo: P, hi: P) -> (r: Vec<usize>)
        requires
            self.wf(),
        ensures
            is_range_result(self.points@, lo, hi, r@),
    {
        let mut results: Vec<usize> = Vec::new();
        if let Some(root) = self.root {
            self.range_rec(root, lo, hi, &mut results);
            proof {
                assert forall|x: usize| results@.contains(x) <==> x < self.points@.len()
                    && #[trigger] self.points@[x as int].in_box_spec(lo, hi) by {
                    if x < self.points@.len() {
                        assert(set_int_range(0, self.points@.len() as int).contains(x as int));
                    }
                }
            }
        } else {
            proof {
                assert(self.points@.len() == 0);
            }
        }
        results
    }
}

// ---------------------------------------------------------------------------
// Public trees
// ---------------------------------------------------------------------------

/// A 2D KD-tree for efficient spatial queries.
#[derive(Clone)]
pub struct KdTree2 {
    core: KdCore<Point2<i64>>,
}

impl View for KdTree2 {
    type V = Seq<Point2<i64>>;

    /// The points, in the order they were given.
    closed spec fn view(&self) -> Seq<Point2<i64>> {
        self.core.points@
    }
}

impl KdTree2 {
    /// The tree's internal structure is sound.
    pub closed spec fn wf(&self) -> bool {
        self.core.wf()
    }

    /// Builds a KD-tree from a set of points.
    pub fn new(points: &[Point2<i64>]) -> (t: Self)
        ensures
            t.wf(),
            t@ == points@,
    {
        KdTree2 { core: KdCore::build(points) }
    }

    /// Finds the nearest point to the query; `None` if the tree is empty.
    pub fn nearest(&self, query: Point2<i64>) -> (r: Option<NearestResult>)
        requires
            self.wf(),
            forall|j: int| 0 <= j < self@.len() ==> #[trigger] dist2(query, self@[j]) < i128::MAX,
        ensures
            r is None <==> self@.len() == 0,
            r matches Some(res) ==> {
                &&& res.point_idx < self@.len()
                &&& res.distance_squared == dist2(query, self@[res.point_idx as int])
                &&& forall|j: int| 0 <= j < self@.len() ==> res.distance_squared <= #[trigger] dist2(query, self@[j])
            },
    {
        proof {
            assert(self@ == self.core.points@);
            assert forall|j: int| 0 <= j < self@.len() implies #[trigger] query.dist_spec(self@[j]) < i128::MAX by {
                assert(dist2(query, self@[j]) < i128::MAX);
            }
        }
        let r = self.core.nearest(query);
        proof {
            if let Some(res) = r {
                assert forall|j: int| 0 <= j < self@.len() implies res.distance_squared <= #[trigger] dist2(
                    query,
                    self@[j],
                ) by {
                    assert(res.distance_squared <= query.dist_spec(self@[j]));
                }
            }
        }
        r
    }

    /// Finds the `k` points nearest to the query, closest first (ties by
    /// index); all points when there are fewer than `k`.
    pub fn k_nearest(&self, query: Point2<i64>, k: usize) -> (r: Vec<NearestResult>)
        requires
            self.wf(),
            forall|j: int| 0 <= j < self@.len() ==> #[trigger] dist2(query, self@[j]) < i128::MAX,
        ensures
            r@.len() == if k < self@.len() {
                k as int
            } else {
                self@.len() as int
            },
            sorted_results(r@),
            forall|a: int|
                0 <= a < r@.len() ==> (#[trigger] r@[a]).point_idx < self@.len() && r@[a].distance_squared
                    == dist2(query, self@[r@[a].point_idx as int]),
            k > 0 ==> forall|j: int|
                0 <= j < self@.len() && !listed(r@, j) ==> r@.last().distance_squared <= #[trigger] dist2(
                    query,
                    self@[j],
                ),
    {
        proof {
            assert(self@ == self.core.points@);
            assert forall|j: int| 0 <= j < self@.len() implies #[trigger] query.dist_spec(self@[j]) < i128::MAX by {
                assert(dist2(query, self@[j]) < i128::MAX);
            }
        }
        let r = self.core.k_nearest(query, k);
        proof {
            if k > 0 {
                let d = dists_to(self@, query);
                assert forall|a: int| 0 <= a < r@.len() implies (#[trigger] r@[a]).point_idx < self@.len()
                    && r@[a].distance_squared == dist2(query, self@[r@[a].point_idx as int]) by {
                    assert(r@[a].distance_squared == d[r@[a].point_idx as int]);
                }
                assert forall|j: int| 0 <= j < self@.len() && !listed(r@, j) implies r@.last().distance_squared
                    <= #[trigger] dist2(query, self@[j]) by {
                    assert(r@.last().distance_squared <= query.dist_spec(self@[j]));
                }
            } else {
                assert(!listed(r@, 0));
            }
        }
        r
    }

    /// Finds the indices of all points with `min.x <= p.x <= max.x` and
    /// `min.y <= p.y <= max.y`, each once.
    pub fn range_query(&self, min: Point2<i64>, max: Point2<i64>) -> (r: Vec<usize>)
        requires
            self.wf(),
        ensures
            r@.no_duplicates(),
            forall|x: usize|
                r@.contains(x) <==> x < self@.len() && min.x <= (#[trigger] self@[x as int]).x <= max.x && min.y
                    <= self@[x as int].y <= max.y,
    {
        let r = self.core.range_query(min, max);
        proof {
            assert(self@ == self.core.points@);
            assert forall|x: usize| r@.contains(x) <==> x < self@.len() && min.x <= (
            #[trigger] self@[x as int]).x <= max.x && min.y <= self@[x as int].y <= max.y by {
                assert(r@.contains(x) <==> x < self@.len() && self@[x as int].in_box_spec(min, max));
            }
        }
        r
    }

    /// Returns the number of points in the tree.
    pub fn len(&self) -> (r: usize)
        ensures
            r == self@.len(),
    {
        self.core.points.len()
    }

    /// Returns true if the tree is empty.
    pub fn is_empty(&self) -> (r: bool)
        ensures
            r == (self@.len() == 0),
    {
        self.core.points.len() == 0
    }

    /// Returns the point at the given index, if any.
    pub fn get_point(&self, idx: usize) -> (r: Option<&Point2<i64>>)
        ensures
            r == if idx < self@.len() {
                Some(&self@[idx as int])
            } else {
                None
            },
    {
        if idx < self.core.points.len() {
            Some(&self.core.points[idx])
        } else {
            None
        }
    }
}

/// A 3D KD-tree for efficient spatial queries.
#[derive(Clone)]
pub struct KdTree3 {
    core: KdCore<Point3<i64>>,
}

impl View for KdTree3 {
    type V = Seq<Point3<i64>>;

    /// The points, in the order they were given.
    closed spec fn view(&self) -> Seq<Point3<i64>> {
        self.core.points@
    }
}

impl KdTree3 {
    /// The tree's internal structure is sound.
    pub closed spec fn wf(&self) -> bool {
        self.core.wf()
    }

    /// Builds a KD-tree from a set of points.
    pub fn new(points: &[Point3<i64>]) -> (t: Self)
        ensures
            t.wf(),
            t@ == points@,
    {
        KdTree3 { core: KdCore::build(points) }
    }

    /// Finds the nearest point to the query; `None` if the tree is empty.
    pub fn nearest(&self, query: Point3<i64>) -> (r: Option<NearestResult>)
        requires
            self.wf(),
            forall|j: int| 0 <= j < self@.len() ==> #[trigger] dist2_3d(query, self@[j]) < i128::MAX,
        ensures
            r is None <==> self@.len() == 0,
            r matches Some(res) ==> {
                &&& res.point_idx < self@.len()
                &&& res.distance_squared == dist2_3d(query, self@[res.point_idx as int])
                &&& forall|j: int| 0 <= j < self@.len() ==> res.distance_squared <= #[trigger] dist2_3d(query, self@[j])
            },
    {
        proof {
            assert(self@ == self.core.points@);
            assert forall|j: int| 0 <= j < self@.len() implies #[trigger] query.dist_spec(self@[j]) < i128::MAX by {
                assert(dist2_3d(query, self@[j]) < i128::MAX);
            }
        }
        let r = self.core.nearest(query);
        proof {
            if let Some(res) = r {
                assert forall|j: int| 0 <= j < self@.len() implies res.distance_squared <= #[trigger] dist2_3d(
                    query,
                    self@[j],
                ) by {
                    assert(res.distance_squared <= query.dist_spec(self@[j]));
                }
            }
        }
        r
    }

    /// Finds the `k` points nearest to the query, closest first (ties by
    /// index); all points when there are fewer than `k`.
    pub fn k_nearest(&self, query: Point3<i64>, k: usize) -> (r: Vec<NearestResult>)
        requires
            self.wf(),
            forall|j: int| 0 <= j < self@.len() ==> #[trigger] dist2_3d(query, self@[j]) < i128::MAX,
        ensures
            r@.len() == if k < self@.len() {
                k as int
            } else {
                self@.len() as int
            },
            sorted_results(r@),
            forall|a: int|
                0 <= a < r@.len() ==> (#[trigger] r@[a]).point_idx < self@.len() && r@[a].distance_squared
                    == dist2_3d(query, self@[r@[a].point_idx as int]),
            k > 0 ==> forall|j: int|
                0 <= j < self@.len() && !listed(r@, j) ==> r@.last().distance_squared <= #[trigger] dist2_3d(
                    query,
                    self@[j],
                ),
    {
        proof {
            assert(self@ == self.core.points@);
            assert forall|j: int| 0 <= j < self@.len() implies #[trigger] query.dist_spec(self@[j]) < i128::MAX by {
                assert(dist2_3d(query, self@[j]) < i128::MAX);
            }
        }
        let r = self.core.k_nearest(query, k);
        proof {
            if k > 0 {
                let d = dists_to(self@, query);
                assert forall|a: int| 0 <= a < r@.len() implies (#[trigger] r@[a]).point_idx < self@.len()
                    && r@[a].distance_squared == dist2_3d(query, self@[r@[a].point_idx as int]) by {
                    assert(r@[a].distance_squared == d[r@[a].point_idx as int]);
                }
                assert forall|j: int| 0 <= j < self@.len() && !listed(r@, j) implies r@.last().distance_squared
                    <= #[trigger] dist2_3d(query, self@[j]) by {
                    assert(r@.last().distance_squared <= query.dist_spec(self@[j]));
                }
            } else {
                assert(!listed(r@, 0));
            }
        }
        r
    }

    /// Finds the indices of all points with `min <= p <= max` in each
    /// coordinate, each once.
    pub fn range_query(&self, min: Point3<i64>, max: Point3<i64>) -> (r: Vec<usize>)
        requires
            self.wf(),
        ensures
            r@.no_duplicates(),
            forall|x: usize|
                r@.contains(x) <==> x < self@.len() && min.x <= (#[trigger] self@[x as int]).x <= max.x && min.y
                    <= self@[x as int].y <= max.y && min.z <= self@[x as int].z <= max.z,
    {
        let r = self.core.range_query(min, max);
        proof {
            assert(self@ == self.core.points@);
            assert forall|x: usize| r@.contains(x) <==> x < self@.len() && min.x <= (
            #[trigger] self@[x as int]).x <= max.x && min.y <= self@[x as int].y <= max.y && min.z <= self@[x as int].z <= max.z by {
                assert(r@.contains(x) <==> x < self@.len() && self@[x as int].in_box_spec(min, max));
            }
        }
        r
    }

    /// Returns the number of points in the tree.
    pub fn len(&self) -> (r: usize)
        ensures
            r == self@.len(),
    {
        self.core.points.len()
    }

    /// Returns true if the tree is empty.
    pub fn is_empty(&self) -> (r: bool)
        ensures
            r == (self@.len() == 0),
    {
        self.core.points.len() == 0
    }

    /// Returns the point at the given index, if any.
    pub fn get_point(&self, idx: usize) -> (r: Option<&Point3<i64>>)
        ensures
            r == if idx < self@.len() {
                Some(&self@[idx as int])
            } else {
                None
            },
    {
        if idx < self.core.points.len() {
            Some(&self.core.points[idx])
        } else {
            None
        }
    }
}

} // verus!
