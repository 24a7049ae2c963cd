//! Convex hull by Graham scan.
use std::cmp::Ordering;
use vstd::prelude::*;

use crate::ops::{dist2, dist2_fits};
use crate::predicates::{lemma_orient2d_symmetry, orient2d, orient2d_det, orient2d_fits};
use crate::algo::hull_proofs::lemma_hull_holds_points;
use crate::widen::{Wide, Widen};
use crate::Point2;

verus! {

/// Every orientation test and squared distance among points of `s` fits the wide type.
pub open spec fn hull_fits<T: Widen>(s: Seq<Point2<T>>) -> bool {
    &&& forall|a: Point2<T>, b: Point2<T>, c: Point2<T>|
        #![trigger orient2d_fits(a, b, c)]
        s.contains(a) && s.contains(b) && s.contains(c) ==> orient2d_fits(a, b, c)
    &&& forall|a: Point2<T>, b: Point2<T>|
        #![trigger dist2_fits(a, b)]
        s.contains(a) && s.contains(b) ==> dist2_fits(a, b)
}

/// `p` is not above and not to the right of any point of `s` when
/// ordering by `y` then `x` (the Graham-scan pivot).
pub open spec fn is_lowest<T: Widen>(p: Point2<T>, s: Seq<Point2<T>>) -> bool {
    forall|k: int|
        0 <= k < s.len() ==> (p.y.value() < (#[trigger] s[k]).y.value() || (p.y.value()
            == s[k].y.value() && p.x.value() <= s[k].x.value()))
}

/// Every element of `s` is an element of `t`.
pub open spec fn all_from<T>(s: Seq<T>, t: Seq<T>) -> bool {
    forall|k: int| 0 <= k < s.len() ==> t.contains(#[trigger] s[k])
}

/// Every three consecutive vertices make a strict left turn.
pub open spec fn left_turns<T: Widen>(h: Seq<Point2<T>>) -> bool {
    forall|i: int| 0 <= i && i + 2 < h.len() ==> #[trigger] orient2d_det(h[i], h[i + 1], h[i + 2]) > 0
}

/// `a` precedes `b` in the pivot order: lower `y`, then lower `x`.
pub open spec fn lower_spec<T: Widen>(a: Point2<T>, b: Point2<T>) -> bool {
    a.y.value() < b.y.value() || (a.y.value() == b.y.value() && a.x.value() < b.x.value())
}

/// Index of the first lowest point among the first `k` points of `s`.
pub open spec fn pivot_index<T: Widen>(s: Seq<Point2<T>>, k: int) -> int
    decreases k,
{
    if k <= 1 {
        0
    } else {
        let prev = pivot_index(s, k - 1);
        if lower_spec(s[k - 1], s[prev]) {
            k - 1
        } else {
            prev
        }
    }
}

/// The pivot followed by the points `1..k` of `s` that differ from it.
pub open spec fn without_pivot<T: Widen>(s: Seq<Point2<T>>, pivot: Point2<T>, k: int) -> Seq<Point2<T>>
    decreases k,
{
    if k <= 1 {
        seq![pivot]
    } else {
        let prev = without_pivot(s, pivot, k - 1);
        if s[k - 1] != pivot {
            prev.push(s[k - 1])
        } else {
            prev
        }
    }
}

/// Strict angular order around the pivot, nearer first on the same ray.
pub open spec fn angle_before<T: Widen>(pivot: Point2<T>, a: Point2<T>, b: Point2<T>) -> bool {
    orient2d_det(pivot, a, b) > 0 || (orient2d_det(pivot, a, b) == 0 && dist2(pivot, a) < dist2(pivot, b))
}

/// `s` after moving the point at `j` down (by adjacent swaps, never past
/// index 1) while it comes angularly before its predecessor.
pub open spec fn sift_down<T: Widen>(s: Seq<Point2<T>>, pivot: Point2<T>, j: int) -> Seq<Point2<T>>
    decreases j,
{
    if j <= 1 {
        s
    } else if angle_before(pivot, s[j], s[j - 1]) {
        sift_down(s.update(j, s[j - 1]).update(j - 1, s[j]), pivot, j - 1)
    } else {
        s
    }
}

/// `s` after insertion-sorting its points `1..i` by angle around the pivot.
pub open spec fn angle_sorted<T: Widen>(s: Seq<Point2<T>>, pivot: Point2<T>, i: int) -> Seq<Point2<T>>
    decreases i,
{
    if i <= 2 {
        s
    } else {
        sift_down(angle_sorted(s, pivot, i - 1), pivot, i - 1)
    }
}

/// The last index of the run, starting at `j`, of points of `s` collinear
/// with the pivot and `s[i]`.
pub open spec fn run_end<T: Widen>(s: Seq<Point2<T>>, pivot: Point2<T>, i: int, j: int) -> int
    decreases s.len() - j,
{
    if j + 1 < s.len() && orient2d_det(pivot, s[i], s[j + 1]) == 0 {
        run_end(s, pivot, i, j + 1)
    } else {
        j
    }
}

/// From index `i` on, the last point of each run of points collinear with the pivot.
pub open spec fn farthest_on_rays<T: Widen>(s: Seq<Point2<T>>, pivot: Point2<T>, i: int) -> Seq<Point2<T>>
    decreases s.len() - i,
{
    if i < 1 || i >= s.len() {
        seq![]
    } else {
        let j = run_end(s, pivot, i, i);
        if j < i || j >= s.len() {
            seq![]
        } else {
            seq![s[j]] + farthest_on_rays(s, pivot, j + 1)
        }
    }
}

/// `h` after popping its top while the top two and `p` make no strict left turn.
pub open spec fn pop_non_left<T: Widen>(h: Seq<Point2<T>>, p: Point2<T>) -> Seq<Point2<T>>
    decreases h.len(),
{
    if h.len() >= 2 && !(orient2d_det(h[h.len() - 2], h[h.len() - 1], p) > 0) {
        pop_non_left(h.drop_last(), p)
    } else {
        h
    }
}

/// The stack after scanning the first `k` points of `u`.
pub open spec fn hull_stack<T: Widen>(u: Seq<Point2<T>>, k: int) -> Seq<Point2<T>>
    decreases k,
{
    if k <= 0 {
        seq![]
    } else {
        pop_non_left(hull_stack(u, k - 1), u[k - 1]).push(u[k - 1])
    }
}

/// The output of the Graham scan on three or more points `s`: pick the pivot, drop its duplicates,
/// sort by angle, keep the farthest point of each ray, then scan.
pub open spec fn graham_hull<T: Widen>(s: Seq<Point2<T>>) -> Seq<Point2<T>> {
    let n = s.len() as int;
    if n < 3 {
        s
    } else {
        let pi = pivot_index(s, n);
        let pivot = s[pi];
        let swapped = s.update(0, pivot).update(pi, s[0]);
        let rest = without_pivot(swapped, pivot, n);
        let m = rest.len() as int;
        if m < 3 {
            rest
        } else {
            let sorted = angle_sorted(rest, pivot, m);
            let uq = seq![sorted[0]] + farthest_on_rays(sorted, pivot, 1);
            if uq.len() < 3 {
                uq
            } else {
                hull_stack(uq, uq.len() as int)
            }
        }
    }
}

/// `a` lies strictly above the pivot, or level with it and to its right.
pub open spec fn above_pivot<T: Widen>(pivot: Point2<T>, a: Point2<T>) -> bool {
    a.y.value() > pivot.y.value() || (a.y.value() == pivot.y.value() && a.x.value() > pivot.x.value())
}

/// `a` comes no later than `b` around the pivot: a smaller angle, or the
/// same angle no farther away.
pub open spec fn angle_le<T: Widen>(pivot: Point2<T>, a: Point2<T>, b: Point2<T>) -> bool {
    orient2d_det(pivot, a, b) > 0 || (orient2d_det(pivot, a, b) == 0 && dist2(pivot, a) <= dist2(pivot, b))
}

/// `q` lies in the polygon `h`: on the left of (or on) each of its edges,
/// the closing edge from the last vertex back to the first included.
pub open spec fn polygon_holds<T: Widen>(h: Seq<Point2<T>>, q: Point2<T>) -> bool {
    &&& forall|i: int| 0 <= i && i + 1 < h.len() ==> orient2d_det(#[trigger] h[i], h[i + 1], q) >= 0
    &&& orient2d_det(h[h.len() - 1], h[0], q) >= 0
}

/// Points are equal coordinate by coordinate.
fn same_point<T: Widen>(a: Point2<T>, b: Point2<T>) -> (r: bool)
    ensures
        r == (a == b),
{
    proof {
        a.x.value_injective(b.x);
        a.y.value_injective(b.y);
    }
    a.x.narrow_eq(&b.x) && a.y.narrow_eq(&b.y)
}

/// `a` precedes `b` in the pivot order: lower `y`, then lower `x`.
fn lower_than<T: Widen>(a: Point2<T>, b: Point2<T>) -> (r: bool)
    ensures
        r == (a.y.value() < b.y.value() || (a.y.value() == b.y.value() && a.x.value()
            < b.x.value())),
{
    a.y.narrow_lt(&b.y) || (a.y.narrow_eq(&b.y) && a.x.narrow_lt(&b.x))
}

/// Angular order around the pivot: `a` comes strictly before `b` when it
/// makes a smaller angle, or the same angle at a smaller distance.
fn angle_less<T: Widen>(pivot: Point2<T>, a: Point2<T>, b: Point2<T>) -> (r: bool)
    requires
        orient2d_fits(pivot, a, b),
        dist2_fits(pivot, a),
        dist2_fits(pivot, b),
    ensures
        r == (orient2d_det(pivot, a, b) > 0 || (orient2d_det(pivot, a, b) == 0 && dist2(pivot, a)
            < dist2(pivot, b))),
{
    match orient2d(pivot, a, b) {
        Ordering::Greater => true,
        Ordering::Less => false,
        Ordering::Equal => {
            let da = distance_squared_to_pivot(pivot, a);
            let db = distance_squared_to_pivot(pivot, b);
            da.wide_lt(&db)
        },
    }
}

/// Whether `p` is collinear with the pivot and `q`.
fn collinear_with_pivot<T: Widen>(pivot: Point2<T>, q: Point2<T>, p: Point2<T>) -> (r: bool)
    requires
        orient2d_fits(pivot, q, p),
    ensures
        r == (orient2d_det(pivot, q, p) == 0),
{
    match orient2d(pivot, q, p) {
        Ordering::Equal => true,
        _ => false,
    }
}

/// Whether `below -> top -> p` is a strict left turn.
fn is_left_turn<T: Widen>(below: Point2<T>, top: Point2<T>, p: Point2<T>) -> (r: bool)
    requires
        orient2d_fits(below, top, p),
    ensures
        r == (orient2d_det(below, top, p) > 0),
{
    match orient2d(below, top, p) {
        Ordering::Greater => true,
        _ => false,
    }
}

/// Squared distance from the pivot to a point (tie-break for collinear points).
fn distance_squared_to_pivot<T: Widen>(pivot: Point2<T>, p: Point2<T>) -> (r: T::Wide)
    requires
        dist2_fits(pivot, p),
    ensures
        r.wide_value() == dist2(pivot, p),
{
    crate::ops::distance_squared(pivot, p)
}

/// The Graham scan proper: the hull computed as `graham_hull` describes,
/// with fewer than three points left as they are.
fn scan_hull<T: Widen>(points: &[Point2<T>]) -> (hull: Vec<Point2<T>>)
    requires
        hull_fits(points@),
    ensures
        points@.len() < 3 ==> hull@ == points@,
        all_from(hull@, points@),
        points@.len() >= 3 ==> hull@.len() >= 1 && is_lowest(hull@[0], points@),
        left_turns(hull@),
        hull@ == graham_hull(points@),
        hull@.len() >= 3 ==> forall|q: Point2<T>| #[trigger] points@.contains(q) ==> polygon_holds(hull@, q),
{
    if points.len() < 3 {
        return vstd::slice::slice_to_vec(points);
    }
    let n = points.len();
    let mut sorted: Vec<Point2<T>> = vstd::slice::slice_to_vec(points);

    // lowest point, leftmost if tied (the first one found)
    let mut pivot_idx: usize = 0;
    let mut k: usize = 1;
    while k < n
        invariant
            sorted@ == points@,
            n == points@.len(),
            1 <= k <= n,
            pivot_idx < n,
            pivot_idx == pivot_index(points@, k as int),
            forall|j: int|
                0 <= j < k ==> (sorted@[pivot_idx as int].y.value() < (#[trigger] sorted@[j]).y.value()
                    || (sorted@[pivot_idx as int].y.value() == sorted@[j].y.value()
                    && sorted@[pivot_idx as int].x.value() <= sorted@[j].x.value())),
        decreases n - k,
    {
        if lower_than(sorted[k], sorted[pivot_idx]) {
            pivot_idx = k;
        }
        k = k + 1;
    }
    let pivot = sorted[pivot_idx];
    let first = sorted[0];
    sorted.set(0, pivot);
    sorted.set(pivot_idx, first);
    assert(is_lowest(pivot, points@));
    let ghost swapped = sorted@;
    assert(swapped == points@.update(0, pivot).update(pivot_idx as int, points@[0]));

    // drop duplicates of the pivot (they would make degenerate orientation tests)
    let mut unique_rest: Vec<Point2<T>> = Vec::new();
    unique_rest.push(pivot);
    let mut read: usize = 1;
    while read < n
        invariant
            sorted@.len() == n,
            n == points@.len(),
            1 <= read <= n,
            all_from(sorted@, points@),
            points@.contains(pivot),
            unique_rest@.len() >= 1,
            unique_rest@[0] == pivot,
            all_from(unique_rest@, points@),
            forall|j: int| 1 <= j < unique_rest@.len() ==> #[trigger] unique_rest@[j] != pivot,
            sorted@ == swapped,
            unique_rest@ == without_pivot(swapped, pivot, read as int),
        decreases n - read,
    {
        proof {
            assert(points@.contains(sorted@[read as int]));
        }
        if !same_point(sorted[read], pivot) {
            unique_rest.push(sorted[read]);
        }
        read = read + 1;
    }
    let mut sorted = unique_rest;
    let m = sorted.len();
    let ghost rest = sorted@;
    assert(pivot == points@[pivot_index(points@, n as int)]);
    if m < 3 {
        return sorted;
    }

    // sort the remaining points by polar angle around the pivot (stable insertion sort)
    let mut i: usize = 2;
    while i < m
        invariant
            sorted@.len() == m,
            m >= 3,
            2 <= i <= m,
            sorted@[0] == pivot,
            all_from(sorted@, points@),
            points@.contains(pivot),
            hull_fits(points@),
            sorted@ == angle_sorted(rest, pivot, i as int),
        decreases m - i,
    {
        let ghost target = sift_down(sorted@, pivot, i as int);
        let mut j: usize = i;
        while j > 1
            invariant
                sorted@.len() == m,
                1 <= j <= i < m,
                sorted@[0] == pivot,
                all_from(sorted@, points@),
                points@.contains(pivot),
                hull_fits(points@),
                sift_down(sorted@, pivot, j as int) == target,
            ensures
                sorted@.len() == m,
                sorted@[0] == pivot,
                all_from(sorted@, points@),
                sorted@ == target,
            decreases j,
        {
            let a = sorted[j];
            let b = sorted[j - 1];
            proof {
                assert(points@.contains(sorted@[j as int]));
                assert(points@.contains(sorted@[j - 1]));
                assert(orient2d_fits(pivot, a, b));
                assert(dist2_fits(pivot, a));
                assert(dist2_fits(pivot, b));
            }
            let ghost cur = sorted@;
            if angle_less(pivot, a, b) {
                sorted.set(j, b);
                sorted.set(j - 1, a);
                proof {
                    assert(sorted@ == cur.update(j as int, cur[j - 1]).update(j - 1, cur[j as int]));
                    assert forall|k: int| 0 <= k < sorted@.len() implies points@.contains(#[trigger] sorted@[k]) by {
                        if k == j {
                            assert(sorted@[k] == cur[j - 1]);
                        } else if k == j - 1 {
                            assert(sorted@[k] == cur[j as int]);
                        } else {
                            assert(sorted@[k] == cur[k]);
                        }
                    }
                }
                j = j - 1;
            } else {
                break;
            }
        }
        i = i + 1;
    }
    let ghost srt = sorted@;
    assert(srt == angle_sorted(rest, pivot, m as int));

    // keep only the farthest point of each run of points collinear with the pivot
    let mut unique: Vec<Point2<T>> = Vec::new();
    unique.push(sorted[0]);
    let mut i: usize = 1;
    while i < m
        invariant
            sorted@.len() == m,
            1 <= i <= m,
            sorted@[0] == pivot,
            all_from(sorted@, points@),
            points@.contains(pivot),
            hull_fits(points@),
            unique@.len() >= 1,
            unique@[0] == pivot,
            all_from(unique@, points@),
            sorted@ == srt,
            unique@ + farthest_on_rays(srt, pivot, i as int) == seq![srt[0]] + farthest_on_rays(srt, pivot, 1),
        decreases m - i,
    {
        let mut j: usize = i;
        while j + 1 < m
            invariant
                sorted@.len() == m,
                1 <= i <= j < m,
                all_from(sorted@, points@),
                points@.contains(pivot),
                hull_fits(points@),
                sorted@ == srt,
                run_end(srt, pivot, i as int, j as int) == run_end(srt, pivot, i as int, i as int),
            ensures
                i <= j < m,
                j == run_end(srt, pivot, i as int, i as int),
            decreases m - j,
        {
            proof {
                assert(points@.contains(sorted@[i as int]));
                assert(points@.contains(sorted@[j + 1]));
                assert(orient2d_fits(pivot, sorted@[i as int], sorted@[j + 1]));
            }
            if collinear_with_pivot(pivot, sorted[i], sorted[j + 1]) {
                j = j + 1;
            } else {
                break;
            }
        }
        proof {
            assert(points@.contains(sorted@[j as int]));
        }
        let ghost before = unique@;
        unique.push(sorted[j]);
        proof {
            assert(farthest_on_rays(srt, pivot, i as int) == seq![srt[j as int]] + farthest_on_rays(srt, pivot, j + 1));
            assert(unique@ + farthest_on_rays(srt, pivot, j + 1) =~= before + farthest_on_rays(srt, pivot, i as int));
        }
        i = j + 1;
    }
    proof {
        assert(unique@ + farthest_on_rays(srt, pivot, i as int) =~= unique@);
    }
    if unique.len() < 3 {
        return unique;
    }

    // build the hull with a stack, popping every point that would not turn left
    let u = unique.len();
    let mut hull: Vec<Point2<T>> = Vec::new();
    let mut t: usize = 0;
    while t < u
        invariant
            unique@.len() == u,
            t <= u,
            unique@[0] == pivot,
            all_from(unique@, points@),
            all_from(hull@, points@),
            hull_fits(points@),
            t > 0 ==> hull@.len() >= 1 && hull@[0] == pivot,
            t == 0 ==> hull@.len() == 0,
            left_turns(hull@),
            hull@ == hull_stack(unique@, t as int),
        decreases u - t,
    {
        let p = unique[t];
        let ghost h0 = hull@;
        proof {
            assert(points@.contains(unique@[t as int]));
        }
        while hull.len() >= 2
            invariant
                all_from(hull@, points@),
                hull_fits(points@),
                points@.contains(p),
                t > 0 ==> hull@.len() >= 1 && hull@[0] == pivot,
                t == 0 ==> hull@.len() == 0,
                left_turns(hull@),
                pop_non_left(hull@, p) == pop_non_left(h0, p),
            ensures
                hull@ == pop_non_left(h0, p),
                t == 0 ==> hull@.len() == 0,
                all_from(hull@, points@),
                t > 0 ==> hull@.len() >= 1 && hull@[0] == pivot,
                left_turns(hull@),
                hull@.len() >= 2 ==> orient2d_det(hull@[hull@.len() - 2], hull@[hull@.len() - 1], p)
                    > 0,
            decreases hull@.len(),
        {
            let top = hull[hull.len() - 1];
            let below = hull[hull.len() - 2];
            proof {
                assert(points@.contains(hull@[hull@.len() - 1]));
                assert(points@.contains(hull@[hull@.len() - 2]));
                assert(orient2d_fits(below, top, p));
            }
            if !is_left_turn(below, top, p) {
                let ghost before = hull@;
                hull.pop();
                proof {
                    assert forall|i: int| 0 <= i && i + 2 < hull@.len() implies #[trigger] orient2d_det(
                        hull@[i],
                        hull@[i + 1],
                        hull@[i + 2],
                    ) > 0 by {
                        assert(hull@[i] == before[i]);
                        assert(hull@[i + 1] == before[i + 1]);
                        assert(hull@[i + 2] == before[i + 2]);
                        assert(orient2d_det(before[i], before[i + 1], before[i + 2]) > 0);
                    }
                    assert forall|k: int| 0 <= k < hull@.len() implies points@.contains(#[trigger] hull@[k]) by {
                        assert(hull@[k] == before[k]);
                    }
                }
            } else {
                break;
            }
        }
        let ghost before_push = hull@;
        hull.push(p);
        proof {
            assert forall|i: int| 0 <= i && i + 2 < hull@.len() implies #[trigger] orient2d_det(
                hull@[i],
                hull@[i + 1],
                hull@[i + 2],
            ) > 0 by {
                if i + 2 < before_push.len() {
                    assert(hull@[i] == before_push[i]);
                    assert(hull@[i + 1] == before_push[i + 1]);
                    assert(hull@[i + 2] == before_push[i + 2]);
                    assert(orient2d_det(before_push[i], before_push[i + 1], before_push[i + 2]) > 0);
                }
            }
        }
        t = t + 1;
    }
    proof {
        if hull@.len() >= 3 {
            lemma_hull_holds_points(points@);
        }
    }
    hull
}

/// The hull of fewer than three points: the points as given, lowest first.
pub open spec fn short_hull<T: Widen>(s: Seq<Point2<T>>) -> Seq<Point2<T>> {
    if s.len() == 2 && lower_spec(s[1], s[0]) {
        seq![s[1], s[0]]
    } else {
        s
    }
}

/// The hull of fewer than three points: the points, lowest first.
fn hull_of_few<T: Widen>(points: &[Point2<T>]) -> (hull: Vec<Point2<T>>)
    requires
        points@.len() < 3,
    ensures
        hull@ == short_hull(points@),
        all_from(hull@, points@),
        points@.len() >= 1 ==> hull@.len() >= 1 && is_lowest(hull@[0], points@),
        left_turns(hull@),
{
    if points.len() == 2 && lower_than(points[1], points[0]) {
        let mut two: Vec<Point2<T>> = Vec::new();
        two.push(points[1]);
        two.push(points[0]);
        assert(two@ =~= short_hull(points@));
        assert(points@.contains(points@[1]) && points@.contains(points@[0]));
        return two;
    }
    let all = vstd::slice::slice_to_vec(points);
    assert(all@ == short_hull(points@));
    assert(points@.len() >= 1 ==> points@.contains(points@[0]) && (points@.len() == 2 ==> points@.contains(
        points@[1],
    )));
    all
}

/// Computes the convex hull of a set of 2D points using Graham scan.
///
/// The result starts at the lowest point (leftmost among the lowest). With
/// at least three hull vertices it turns strictly left at every vertex
/// along the chain (counter-clockwise order) and holds every input point:
/// each one is on the left of (or on) every hull edge. Fewer than three
/// input points are returned as they are, lowest first.
pub fn graham_scan<T: Widen>(points: &[Point2<T>]) -> (hull: Vec<Point2<T>>)
    requires
        hull_fits(points@),
    ensures
        points@.len() < 3 ==> hull@ == short_hull(points@),
        all_from(hull@, points@),
        points@.len() >= 1 ==> hull@.len() >= 1 && is_lowest(hull@[0], points@),
        left_turns(hull@),
        points@.len() >= 3 ==> hull@ == graham_hull(points@),
        hull@.len() >= 3 ==> forall|q: Point2<T>| #[trigger] points@.contains(q) ==> polygon_holds(hull@, q),
{
    if points.len() < 3 {
        hull_of_few(points)
    } else {
        scan_hull(points)
    }
}

} // verus!
