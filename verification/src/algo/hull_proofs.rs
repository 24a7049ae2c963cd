//! Proofs about the Graham scan: the angular sort, the stack scan, and
//! that the hull holds every input point.
use vstd::prelude::*;

use crate::algo::convex_hull::{above_pivot, angle_before, angle_le, angle_sorted, farthest_on_rays, graham_hull, hull_stack, left_turns, pivot_index, polygon_holds, pop_non_left, run_end, sift_down, without_pivot};
use crate::ops::{dist2, dist2_fits};
use crate::predicates::{lemma_orient2d_symmetry, orient2d_det};
use crate::widen::Widen;
use crate::Point2;

verus! {

/// `(a - b) * c == a * c - b * c`.
pub(crate) proof fn lemma_mul_sub_left(a: int, b: int, c: int)
    by (nonlinear_arith)
    ensures
        (a - b) * c == a * c - b * c,
{
}

/// `(a - b) * (c - d)` expanded.
pub(crate) proof fn lemma_expand_product(a: int, b: int, c: int, d: int)
    by (nonlinear_arith)
    ensures
        (a - b) * (c - d) == a * c - a * d - b * c + b * d,
{
}

/// Reordering a product of three factors.
pub(crate) proof fn lemma_perm3(a: int, b: int, c: int)
    by (nonlinear_arith)
    ensures
        (a * b) * c == (c * b) * a,
        (a * b) * c == (a * c) * b,
        (a * b) * c == (c * a) * b,
        (a * b) * c == (b * c) * a,
        (a * b) * c == (b * a) * c,
{
}

/// `cross(u, w) v == cross(v, w) u + cross(u, v) w`, one coordinate at a time.
pub(crate) proof fn lemma_cross_identity(ux: int, uy: int, vx: int, vy: int, wx: int, wy: int)
    ensures
        (ux * wy - uy * wx) * vx == (vx * wy - vy * wx) * ux + (ux * vy - uy * vx) * wx,
        (ux * wy - uy * wx) * vy == (vx * wy - vy * wx) * uy + (ux * vy - uy * vx) * wy,
{
    lemma_mul_sub_left(ux * wy, uy * wx, vx);
    lemma_mul_sub_left(vx * wy, vy * wx, ux);
    lemma_mul_sub_left(ux * vy, uy * vx, wx);
    lemma_perm3(ux, wy, vx);
    lemma_perm3(uy, wx, vx);
    lemma_perm3(vy, wx, ux);
    lemma_perm3(ux, vy, wx);
    lemma_perm3(uy, vx, wx);
    lemma_perm3(vx, wy, ux);
    lemma_mul_sub_left(ux * wy, uy * wx, vy);
    lemma_mul_sub_left(vx * wy, vy * wx, uy);
    lemma_mul_sub_left(ux * vy, uy * vx, wy);
    lemma_perm3(ux, wy, vy);
    lemma_perm3(uy, wx, vy);
    lemma_perm3(vx, wy, uy);
    lemma_perm3(vy, wx, uy);
    lemma_perm3(ux, vy, wy);
    lemma_perm3(uy, vx, wy);
}

/// Over offsets `u`, `v`, `w` from the pivot in the half-plane above it:
/// `cross(u, w) v == cross(v, w) u + cross(u, v) w`, so turning left (or
/// not turning) twice, turning at least once, turns left, and not turning
/// twice does not turn.
pub(crate) proof fn lemma_cone(ux: int, uy: int, vx: int, vy: int, wx: int, wy: int)
    requires
        uy > 0 || (uy == 0 && ux > 0),
        vy > 0 || (vy == 0 && vx > 0),
        wy > 0 || (wy == 0 && wx > 0),
    ensures
        ux * vy - uy * vx >= 0 && vx * wy - vy * wx >= 0 && (ux * vy - uy * vx > 0 || vx * wy - vy * wx
            > 0) ==> ux * wy - uy * wx > 0,
        ux * vy - uy * vx == 0 && vx * wy - vy * wx == 0 ==> ux * wy - uy * wx == 0,
{
    let beta = ux * vy - uy * vx;
    let alpha = vx * wy - vy * wx;
    let gamma = ux * wy - uy * wx;
    lemma_cross_identity(ux, uy, vx, vy, wx, wy);
    if alpha >= 0 && beta >= 0 && (alpha > 0 || beta > 0) {
        vstd::arithmetic::mul::lemma_mul_nonnegative(alpha, uy);
        vstd::arithmetic::mul::lemma_mul_nonnegative(beta, wy);
        if alpha * uy + beta * wy > 0 {
            assert(gamma * vy > 0);
            lemma_sign_along(gamma, vx, vy);
        } else {
            lemma_cone_sum(alpha, beta, ux, uy, wx, wy);
            assert(gamma * vx > 0 && gamma * vy == 0);
            lemma_sign_along(gamma, vx, vy);
        }
    }
    if alpha == 0 && beta == 0 {
        vstd::arithmetic::mul::lemma_mul_basics(ux);
        vstd::arithmetic::mul::lemma_mul_basics(uy);
        vstd::arithmetic::mul::lemma_mul_basics(wx);
        vstd::arithmetic::mul::lemma_mul_basics(wy);
        assert(gamma * vx == 0 && gamma * vy == 0);
        lemma_sign_along(gamma, vx, vy);
    }
}

/// A factor `g` scaling a direction `v` above the pivot (`vy > 0`, or
/// `vy == 0` and `vx > 0`) has the sign of the scaled vector's leading part.
pub(crate) proof fn lemma_sign_along(g: int, vx: int, vy: int)
    by (nonlinear_arith)
    requires
        vy > 0 || (vy == 0 && vx > 0),
    ensures
        g * vy > 0 ==> g > 0,
        g * vy == 0 && g * vx > 0 ==> g > 0,
        g * vy == 0 && g * vx == 0 ==> g == 0,
{
}

/// Non-negative weights, not both zero, of two directions above the pivot
/// that cancel vertically, sum to a positive horizontal part.
pub(crate) proof fn lemma_cone_sum(alpha: int, beta: int, ux: int, uy: int, wx: int, wy: int)
    by (nonlinear_arith)
    requires
        alpha * uy == 0,
        beta * wy == 0,
        alpha >= 0,
        beta >= 0,
        alpha > 0 || beta > 0,
        uy > 0 || (uy == 0 && ux > 0),
        wy > 0 || (wy == 0 && wx > 0),
    ensures
        alpha * ux + beta * wx > 0,
{
}

/// The cone facts over points above the pivot.
pub(crate) proof fn lemma_turns<T: Widen>(pivot: Point2<T>, a: Point2<T>, b: Point2<T>, c: Point2<T>)
    requires
        above_pivot(pivot, a),
        above_pivot(pivot, b),
        above_pivot(pivot, c),
    ensures
        orient2d_det(pivot, a, b) >= 0 && orient2d_det(pivot, b, c) >= 0 && (orient2d_det(pivot, a, b) > 0
            || orient2d_det(pivot, b, c) > 0) ==> orient2d_det(pivot, a, c) > 0,
        orient2d_det(pivot, a, b) == 0 && orient2d_det(pivot, b, c) == 0 ==> orient2d_det(pivot, a, c) == 0,
        orient2d_det(pivot, b, a) == -orient2d_det(pivot, a, b),
{
    let (px, py) = (pivot.x.value(), pivot.y.value());
    lemma_cone(
        a.x.value() - px,
        a.y.value() - py,
        b.x.value() - px,
        b.y.value() - py,
        c.x.value() - px,
        c.y.value() - py,
    );
    lemma_orient2d_symmetry(pivot, a, b);
}

/// The angular order around the pivot is transitive above it.
pub(crate) proof fn lemma_angle_le_transitive<T: Widen>(pivot: Point2<T>, a: Point2<T>, b: Point2<T>, c: Point2<T>)
    requires
        above_pivot(pivot, a),
        above_pivot(pivot, b),
        above_pivot(pivot, c),
        angle_le(pivot, a, b),
        angle_le(pivot, b, c),
    ensures
        angle_le(pivot, a, c),
{
    lemma_turns(pivot, a, b, c);
}

/// The points of `s` at positions `lo..hi` come in angular order around the pivot.
pub open spec fn sorted_around<T: Widen>(s: Seq<Point2<T>>, pivot: Point2<T>, lo: int, hi: int) -> bool {
    forall|a: int, b: int| #![trigger s[a], s[b]] lo <= a < b < hi ==> angle_le(pivot, s[a], s[b])
}

/// The points of `s` at positions `lo..hi` lie above the pivot.
pub open spec fn all_above<T: Widen>(s: Seq<Point2<T>>, pivot: Point2<T>, lo: int, hi: int) -> bool {
    forall|a: int| lo <= a < hi ==> above_pivot(pivot, #[trigger] s[a])
}

/// Exchanging two entries keeps the same entries.
pub(crate) proof fn lemma_swap_contains<A>(s: Seq<A>, i: int, j: int)
    requires
        0 <= i < s.len(),
        0 <= j < s.len(),
    ensures
        forall|x: A| #[trigger] s.update(i, s[j]).update(j, s[i]).contains(x) <==> s.contains(x),
{
    let t = s.update(i, s[j]).update(j, s[i]);
    assert forall|x: A| #[trigger] t.contains(x) <==> s.contains(x) by {
        if t.contains(x) {
            let k = choose|k: int| 0 <= k < t.len() && t[k] == x;
            let k0 = if k == j { i } else if k == i { j } else { k };
            assert(s[k0] == x);
        }
        if s.contains(x) {
            let k = choose|k: int| 0 <= k < s.len() && s[k] == x;
            let k1 = if k == i { j } else if k == j { i } else { k };
            assert(t[k1] == x);
        }
    }
}

/// Sifting the point at `j` down into the sorted points `1..j`, when the
/// points `j + 1..k` are sorted and come after all of them, sorts `1..k`.
#[verifier::rlimit(50)]
pub(crate) proof fn lemma_sift_down_sorts<T: Widen>(s: Seq<Point2<T>>, pivot: Point2<T>, j: int, k: int)
    requires
        1 <= j < k <= s.len(),
        all_above(s, pivot, 1, k),
        sorted_around(s, pivot, 1, j),
        sorted_around(s, pivot, j + 1, k),
        forall|b: int| j < b < k ==> angle_le(pivot, s[j], #[trigger] s[b]),
        forall|a: int, b: int| #![trigger s[a], s[b]] 1 <= a < j < b < k ==> angle_le(pivot, s[a], s[b]),
    ensures
        sift_down(s, pivot, j).len() == s.len(),
        sift_down(s, pivot, j)[0] == s[0],
        forall|i: int| k <= i < s.len() ==> #[trigger] sift_down(s, pivot, j)[i] == s[i],
        sorted_around(sift_down(s, pivot, j), pivot, 1, k),
        all_above(sift_down(s, pivot, j), pivot, 1, k),
        forall|x: Point2<T>| #[trigger] sift_down(s, pivot, j).contains(x) <==> s.contains(x),
    decreases j,
{
    let x = s[j];
    if j <= 1 {
        assert forall|a: int, b: int| #![trigger s[a], s[b]] 1 <= a < b < k implies angle_le(pivot, s[a], s[b]) by {
            if a == 1 {
                assert(angle_le(pivot, s[j], s[b]));
            }
        }
    } else if angle_before(pivot, s[j], s[j - 1]) {
        let y = s[j - 1];
        let t = s.update(j, y).update(j - 1, x);
        lemma_swap_contains(s, j, j - 1);
        assert(t == s.update(j, s[j - 1]).update(j - 1, s[j]));
        assert forall|a: int, b: int| #![trigger t[a], t[b]] j <= a < b < k implies angle_le(pivot, t[a], t[b]) by {
            if a == j {
                assert(angle_le(pivot, s[j - 1], s[b]));
            } else {
                assert(angle_le(pivot, s[a], s[b]));
            }
        }
        assert forall|b: int| j - 1 < b < k implies angle_le(pivot, t[j - 1], #[trigger] t[b]) by {
            if b > j {
                assert(angle_le(pivot, s[j], s[b]));
            }
        }
        assert forall|a: int, b: int| #![trigger t[a], t[b]] 1 <= a < j - 1 < b < k implies angle_le(
            pivot,
            t[a],
            t[b],
        ) by {
            if b == j {
                assert(angle_le(pivot, s[a], s[j - 1]));
            } else {
                assert(angle_le(pivot, s[a], s[b]));
            }
        }
        assert(sorted_around(t, pivot, 1, j - 1)) by {
            assert forall|a: int, b: int| #![trigger t[a], t[b]] 1 <= a < b < j - 1 implies angle_le(pivot, t[a], t[b]) by {
                assert(angle_le(pivot, s[a], s[b]));
            }
        }
        assert(all_above(t, pivot, 1, k)) by {
            assert forall|a: int| 1 <= a < k implies above_pivot(pivot, #[trigger] t[a]) by {
                if a == j {
                    assert(above_pivot(pivot, s[j - 1]));
                } else if a == j - 1 {
                    assert(above_pivot(pivot, s[j]));
                } else {
                    assert(above_pivot(pivot, s[a]));
                }
            }
        }
        lemma_sift_down_sorts(t, pivot, j - 1, k);
    } else {
        lemma_turns(pivot, x, s[j - 1], x);
        assert(angle_le(pivot, s[j - 1], x));
        assert forall|a: int, b: int| #![trigger s[a], s[b]] 1 <= a < b < k implies angle_le(pivot, s[a], s[b]) by {
            if b == j && a < j - 1 {
                lemma_angle_le_transitive(pivot, s[a], s[j - 1], s[j]);
            }
        }
    }
}

/// The insertion sort puts the points `1..i` in angular order and keeps the
/// same points.
pub(crate) proof fn lemma_angle_sorted<T: Widen>(s: Seq<Point2<T>>, pivot: Point2<T>, i: int)
    requires
        2 <= i <= s.len(),
        all_above(s, pivot, 1, s.len() as int),
    ensures
        angle_sorted(s, pivot, i).len() == s.len(),
        angle_sorted(s, pivot, i)[0] == s[0],
        sorted_around(angle_sorted(s, pivot, i), pivot, 1, i),
        all_above(angle_sorted(s, pivot, i), pivot, 1, s.len() as int),
        forall|x: Point2<T>| #[trigger] angle_sorted(s, pivot, i).contains(x) <==> s.contains(x),
    decreases i,
{
    if i > 2 {
        lemma_angle_sorted(s, pivot, i - 1);
        let t = angle_sorted(s, pivot, i - 1);
        lemma_sift_down_sorts(t, pivot, i - 1, i);
        let r = sift_down(t, pivot, i - 1);
        assert(all_above(r, pivot, 1, s.len() as int)) by {
            assert forall|a: int| 1 <= a < s.len() implies above_pivot(pivot, #[trigger] r[a]) by {
                if a >= i {
                    assert(r[a] == t[a]);
                }
            }
        }
    }
}

/// The first lowest point is not above, and not to the right of, any point.
pub(crate) proof fn lemma_pivot_lowest<T: Widen>(s: Seq<Point2<T>>, k: int)
    requires
        1 <= k <= s.len(),
    ensures
        0 <= pivot_index(s, k) < k,
        forall|j: int|
            0 <= j < k ==> (s[pivot_index(s, k)].y.value() < (#[trigger] s[j]).y.value() || (s[pivot_index(
                s,
                k,
            )].y.value() == s[j].y.value() && s[pivot_index(s, k)].x.value() <= s[j].x.value())),
    decreases k,
{
    if k > 1 {
        lemma_pivot_lowest(s, k - 1);
    }
}

/// `without_pivot` starts with the pivot and then keeps, in order, the
/// points `1..k` that differ from it.
pub(crate) proof fn lemma_without_pivot<T: Widen>(s: Seq<Point2<T>>, pivot: Point2<T>, k: int)
    requires
        1 <= k <= s.len(),
    ensures
        without_pivot(s, pivot, k).len() >= 1,
        without_pivot(s, pivot, k)[0] == pivot,
        forall|t: int|
            1 <= t < without_pivot(s, pivot, k).len() ==> #[trigger] without_pivot(s, pivot, k)[t] != pivot
                && s.contains(without_pivot(s, pivot, k)[t]),
        forall|j: int| 1 <= j < k && s[j] != pivot ==> without_pivot(s, pivot, k).contains(#[trigger] s[j]),
    decreases k,
{
    if k > 1 {
        lemma_without_pivot(s, pivot, k - 1);
        let prev = without_pivot(s, pivot, k - 1);
        let cur = without_pivot(s, pivot, k);
        assert forall|t: int| 1 <= t < cur.len() implies #[trigger] cur[t] != pivot && s.contains(cur[t]) by {
            if t < prev.len() {
                assert(cur[t] == prev[t]);
            } else {
                assert(cur[t] == s[k - 1]);
            }
        }
        assert forall|j: int| 1 <= j < k && s[j] != pivot implies cur.contains(#[trigger] s[j]) by {
            if j < k - 1 {
                let t = choose|t: int| 0 <= t < prev.len() && prev[t] == s[j];
                assert(cur[t] == s[j]);
            } else {
                assert(cur[cur.len() - 1] == s[j]);
            }
        }
    }
}

/// A run of points collinear with the pivot and `s[i]`, from `j` on, ends
/// within `s`; every point of it is collinear, and the point after it is not.
pub(crate) proof fn lemma_run_end<T: Widen>(s: Seq<Point2<T>>, pivot: Point2<T>, i: int, j: int)
    requires
        0 <= i <= j < s.len(),
        forall|k: int| i < k <= j ==> orient2d_det(pivot, s[i], #[trigger] s[k]) == 0,
    ensures
        j <= run_end(s, pivot, i, j) < s.len(),
        forall|k: int| i < k <= run_end(s, pivot, i, j) ==> orient2d_det(pivot, s[i], #[trigger] s[k]) == 0,
        run_end(s, pivot, i, j) + 1 < s.len() ==> orient2d_det(pivot, s[i], s[run_end(s, pivot, i, j) + 1]) != 0,
    decreases s.len() - j,
{
    if j + 1 < s.len() && orient2d_det(pivot, s[i], s[j + 1]) == 0 {
        lemma_run_end(s, pivot, i, j + 1);
    }
}

/// Every point `farthest_on_rays` keeps from `i` on is a point of `s` at
/// position `i` or later; for `i` inside `s` the first one ends the run
/// starting at `i` and the last one is the last point of `s`.
pub(crate) proof fn lemma_farthest_on_rays<T: Widen>(s: Seq<Point2<T>>, pivot: Point2<T>, i: int)
    requires
        1 <= i,
    ensures
        forall|t: int|
            0 <= t < farthest_on_rays(s, pivot, i).len() ==> exists|k: int|
                i <= k < s.len() && #[trigger] farthest_on_rays(s, pivot, i)[t] == s[k],
        i < s.len() ==> farthest_on_rays(s, pivot, i).len() >= 1 && farthest_on_rays(s, pivot, i)[0]
            == s[run_end(s, pivot, i, i)] && farthest_on_rays(s, pivot, i).last() == s[s.len() - 1],
    decreases s.len() - i,
{
    if i < s.len() {
        lemma_run_end(s, pivot, i, i);
        let j = run_end(s, pivot, i, i);
        lemma_farthest_on_rays(s, pivot, j + 1);
        let rest = farthest_on_rays(s, pivot, j + 1);
        let f = farthest_on_rays(s, pivot, i);
        assert(f == seq![s[j]] + rest);
        assert forall|t: int| 0 <= t < f.len() implies exists|k: int| i <= k < s.len() && #[trigger] f[t] == s[k] by {
            if t == 0 {
                assert(f[0] == s[j]);
            } else {
                assert(f[t] == rest[t - 1]);
                let k = choose|k: int| j + 1 <= k < s.len() && rest[t - 1] == s[k];
                assert(f[t] == s[k]);
            }
        }
        if j + 1 >= s.len() {
            assert(rest.len() == 0);
        }
    }
}

/// Popping never reaches below the first two points when the point to add
/// turns left from them.
pub(crate) proof fn lemma_pop_keeps_base<T: Widen>(h: Seq<Point2<T>>, p: Point2<T>)
    requires
        h.len() >= 2,
        orient2d_det(h[0], h[1], p) > 0,
    ensures
        pop_non_left(h, p).len() >= 2,
        pop_non_left(h, p)[0] == h[0],
        pop_non_left(h, p)[1] == h[1],
    decreases h.len(),
{
    if h.len() >= 2 && !(orient2d_det(h[h.len() - 2], h[h.len() - 1], p) > 0) {
        assert(h.len() > 2);
        let d = h.drop_last();
        assert(d[0] == h[0] && d[1] == h[1]);
        lemma_pop_keeps_base(d, p);
    }
}

/// The scan keeps the first two points of `u` and ends with the last one it
/// has seen, when every later point turns left from the first two.
pub(crate) proof fn lemma_hull_stack_ends<T: Widen>(u: Seq<Point2<T>>, t: int)
    requires
        2 <= t <= u.len(),
        forall|j: int| 2 <= j < u.len() ==> orient2d_det(u[0], u[1], #[trigger] u[j]) > 0,
    ensures
        hull_stack(u, t).len() >= 2,
        hull_stack(u, t)[0] == u[0],
        hull_stack(u, t)[1] == u[1],
        hull_stack(u, t).last() == u[t - 1],
    decreases t,
{
    if t == 2 {
        assert(hull_stack(u, 1) == seq![u[0]]) by {
            assert(hull_stack(u, 0) == Seq::<Point2<T>>::empty());
            assert(pop_non_left(hull_stack(u, 0), u[0]) == hull_stack(u, 0));
        }
        assert(pop_non_left(seq![u[0]], u[1]) == seq![u[0]]);
    } else {
        lemma_hull_stack_ends(u, t - 1);
        let h = hull_stack(u, t - 1);
        assert(orient2d_det(h[0], h[1], u[t - 1]) > 0);
        lemma_pop_keeps_base(h, u[t - 1]);
    }
}

/// A point other than the pivot, and not below or left of it on its row,
/// lies above the pivot.
pub(crate) proof fn lemma_above_pivot<T: Widen>(pivot: Point2<T>, q: Point2<T>)
    requires
        q != pivot,
        pivot.y.value() < q.y.value() || (pivot.y.value() == q.y.value() && pivot.x.value() <= q.x.value()),
    ensures
        above_pivot(pivot, q),
{
    pivot.x.value_injective(q.x);
    pivot.y.value_injective(q.y);
}

/// A repeated point gives no turn.
pub(crate) proof fn lemma_orient_repeat<T: Widen>(a: Point2<T>, b: Point2<T>)
    ensures
        orient2d_det(a, b, b) == 0,
        orient2d_det(a, b, a) == 0,
{
    let (ax, ay, bx, by) = (a.x.value(), a.y.value(), b.x.value(), b.y.value());
    assert((bx - ax) * (by - ay) - (by - ay) * (bx - ax) == 0) by (nonlinear_arith);
    assert((bx - ax) * (ay - ay) - (by - ay) * (ax - ax) == 0) by (nonlinear_arith);
}

/// Every input point lies in the angle that the hull spans at its first
/// vertex, the pivot: on the left of (or on) the hull's first edge and the
/// edge closing the hull back to the pivot.
#[verifier::rlimit(50)]
pub proof fn lemma_hull_angle_holds_points<T: Widen>(points: Seq<Point2<T>>)
    requires
        graham_hull(points).len() >= 3,
    ensures
        forall|q: Point2<T>|
            #![trigger points.contains(q)]
            points.contains(q) ==> orient2d_det(graham_hull(points)[0], graham_hull(points)[1], q) >= 0
                && orient2d_det(graham_hull(points)[graham_hull(points).len() - 1], graham_hull(points)[0], q)
                >= 0,
{
    let n = points.len() as int;
    assert(n >= 3);
    lemma_pivot_lowest(points, n);
    let pi = pivot_index(points, n);
    let pivot = points[pi];
    let swapped = points.update(0, pivot).update(pi, points[0]);
    lemma_without_pivot(swapped, pivot, n);
    let rest = without_pivot(swapped, pivot, n);
    let m = rest.len() as int;
    assert(m >= 3);
    assert forall|t: int| 1 <= t < m implies above_pivot(pivot, #[trigger] rest[t]) by {
        assert(swapped.contains(rest[t]));
        let k = choose|k: int| 0 <= k < swapped.len() && swapped[k] == rest[t];
        let k0 = if k == pi { 0 } else if k == 0 { pi } else { k };
        assert(points[k0] == rest[t]);
        lemma_above_pivot(pivot, rest[t]);
    }
    lemma_angle_sorted(rest, pivot, m);
    let srt = angle_sorted(rest, pivot, m);
    lemma_farthest_on_rays(srt, pivot, 1);
    lemma_run_end(srt, pivot, 1, 1);
    let j1 = run_end(srt, pivot, 1, 1);
    lemma_farthest_on_rays(srt, pivot, j1 + 1);
    let f = farthest_on_rays(srt, pivot, 1);
    let later = farthest_on_rays(srt, pivot, j1 + 1);
    assert(f == seq![srt[j1]] + later);
    let uq = seq![srt[0]] + f;
    assert(graham_hull(points) == hull_stack(uq, uq.len() as int));
    assert(uq.len() >= 3);
    assert(j1 + 1 < m);
    let s1 = srt[1];
    let sj = srt[j1];
    lemma_orient_repeat(pivot, s1);
    lemma_turns(pivot, s1, sj, s1);
    assert(orient2d_det(pivot, sj, s1) == 0);
    // every point after the first run turns strictly left from it
    assert(orient2d_det(pivot, s1, srt[j1 + 1]) > 0) by {
        assert(angle_le(pivot, srt[1], srt[j1 + 1]));
    }
    assert forall|k: int| j1 + 1 <= k < m implies orient2d_det(pivot, sj, #[trigger] srt[k]) > 0 by {
        if k > j1 + 1 {
            assert(angle_le(pivot, srt[j1 + 1], srt[k]));
            lemma_turns(pivot, s1, srt[j1 + 1], srt[k]);
        }
        lemma_turns(pivot, sj, s1, srt[k]);
    }
    assert forall|j: int| 2 <= j < uq.len() implies orient2d_det(uq[0], uq[1], #[trigger] uq[j]) > 0 by {
        assert(uq[j] == later[j - 2]);
        let k = choose|k: int| j1 + 1 <= k < srt.len() && later[j - 2] == srt[k];
        assert(orient2d_det(pivot, sj, srt[k]) > 0);
    }
    lemma_hull_stack_ends(uq, uq.len() as int);
    let h = graham_hull(points);
    assert(h[0] == pivot && h[1] == sj && h[h.len() - 1] == srt[m - 1]);
    assert forall|q: Point2<T>| #![trigger points.contains(q)] points.contains(q) implies orient2d_det(h[0], h[1], q)
        >= 0 && orient2d_det(h[h.len() - 1], h[0], q) >= 0 by {
        lemma_orient2d_symmetry(srt[m - 1], pivot, q);
        if q == pivot {
            lemma_orient_repeat(pivot, sj);
            lemma_orient_repeat(srt[m - 1], pivot);
            lemma_orient2d_symmetry(srt[m - 1], pivot, pivot);
        } else {
            let k = choose|k: int| 0 <= k < points.len() && points[k] == q;
            let k1 = if k == 0 { pi } else { k };
            assert(swapped[k1] == q);
            assert(rest.contains(q));
            assert(srt.contains(q));
            let b = choose|b: int| 0 <= b < srt.len() && srt[b] == q;
            assert(b >= 1);
            if b > 1 {
                assert(angle_le(pivot, srt[1], srt[b]));
            } else {
                lemma_orient_repeat(pivot, q);
            }
            assert(orient2d_det(pivot, s1, q) >= 0);
            lemma_turns(pivot, sj, s1, q);
            assert(orient2d_det(pivot, sj, q) >= 0);
            if b < m - 1 {
                assert(angle_le(pivot, srt[b], srt[m - 1]));
            } else {
                lemma_orient_repeat(pivot, q);
            }
            assert(orient2d_det(pivot, q, srt[m - 1]) >= 0);
        }
    }
}

/// Weighting two values of an affine function.
pub(crate) proof fn lemma_weighted_affine(wb: int, wc: int, k0: int, k1: int, k2: int, bx: int, by: int, cx: int, cy: int)
    ensures
        wb * (k0 + k1 * bx + k2 * by) + wc * (k0 + k1 * cx + k2 * cy) == (wb + wc) * k0 + k1 * (wb * bx + wc * cx)
            + k2 * (wb * by + wc * cy),
{
    lemma_one_weight(wb, k0, k1, k2, bx, by);
    lemma_one_weight(wc, k0, k1, k2, cx, cy);
    assert((wb + wc) * k0 == wb * k0 + wc * k0) by (nonlinear_arith);
    assert(k1 * (wb * bx + wc * cx) == k1 * (wb * bx) + k1 * (wc * cx)) by (nonlinear_arith);
    assert(k2 * (wb * by + wc * cy) == k2 * (wb * by) + k2 * (wc * cy)) by (nonlinear_arith);
}

/// Weighting one value of an affine function.
pub(crate) proof fn lemma_one_weight(w: int, k0: int, k1: int, k2: int, x: int, y: int)
    ensures
        w * (k0 + k1 * x + k2 * y) == w * k0 + k1 * (w * x) + k2 * (w * y),
{
    assert(w * (k0 + k1 * x + k2 * y) == w * k0 + w * (k1 * x) + w * (k2 * y)) by (nonlinear_arith);
    assert(w * (k1 * x) == k1 * (w * x)) by (nonlinear_arith);
    assert(w * (k2 * y) == k2 * (w * y)) by (nonlinear_arith);
}

/// Barycentric weights, with the triangle's first corner at the origin:
/// for corners `0`, `b`, `c`, the weights `wa = cross(b - x, c - x)`,
/// `wb = cross(x, c)`, `wc = cross(b, x)` add up to `d = cross(b, c)`, and
/// `wb * b + wc * c == d * x`; so an affine `g` with `g(0) == k0` has
/// `d * g(x) == wa * g(0) + wb * g(b) + wc * g(c)`.
pub(crate) proof fn lemma_barycentric(bx: int, by: int, cx: int, cy: int, xx: int, xy: int, k0: int, k1: int, k2: int)
    ensures
        ({
            let d = bx * cy - by * cx;
            let wa = (bx - xx) * (cy - xy) - (by - xy) * (cx - xx);
            let wb = xx * cy - xy * cx;
            let wc = bx * xy - by * xx;
            d * (k0 + k1 * xx + k2 * xy) == wa * k0 + wb * (k0 + k1 * bx + k2 * by) + wc * (k0 + k1 * cx + k2
                * cy)
        }),
{
    let d = bx * cy - by * cx;
    let wa = (bx - xx) * (cy - xy) - (by - xy) * (cx - xx);
    let wb = xx * cy - xy * cx;
    let wc = bx * xy - by * xx;
    lemma_expand_product(bx, xx, cy, xy);
    lemma_expand_product(by, xy, cx, xx);
    assert(xx * xy == xy * xx) by (nonlinear_arith);
    assert(wa + wb + wc == d);
    lemma_mul_sub_left(xx * cy, xy * cx, bx);
    lemma_mul_sub_left(bx * xy, by * xx, cx);
    lemma_mul_sub_left(bx * cy, by * cx, xx);
    lemma_perm3(xx, cy, bx);
    lemma_perm3(xy, cx, bx);
    lemma_perm3(by, xx, cx);
    assert(wb * bx + wc * cx == d * xx);
    lemma_mul_sub_left(xx * cy, xy * cx, by);
    lemma_mul_sub_left(bx * xy, by * xx, cy);
    lemma_mul_sub_left(bx * cy, by * cx, xy);
    lemma_perm3(xx, cy, by);
    lemma_perm3(bx, xy, cy);
    lemma_perm3(xy, cx, by);
    assert(wb * by + wc * cy == d * xy);
    assert(k1 * (wb * bx + wc * cx) == k1 * (d * xx));
    assert(k2 * (wb * by + wc * cy) == k2 * (d * xy));
    assert(d * (k0 + k1 * xx + k2 * xy) == d * k0 + k1 * (d * xx) + k2 * (d * xy)) by (nonlinear_arith);
    lemma_weighted_affine(wb, wc, k0, k1, k2, bx, by, cx, cy);
    assert(wa * k0 + (wb + wc) * k0 == d * k0) by (nonlinear_arith)
        requires
            wa + wb + wc == d,
    ;
}

/// The value of `orient2d_det(a2, b2, y)` moves affinely with `y`.
pub(crate) proof fn lemma_orient_affine<T: Widen>(a2: Point2<T>, b2: Point2<T>, y: Point2<T>, a: Point2<T>)
    ensures
        orient2d_det(a2, b2, y) == orient2d_det(a2, b2, a) + (a2.y.value() - b2.y.value()) * (y.x.value()
            - a.x.value()) + (b2.x.value() - a2.x.value()) * (y.y.value() - a.y.value()),
{
    let (px, py, qx, qy) = (a2.x.value(), a2.y.value(), b2.x.value(), b2.y.value());
    let (yx, yy, ax, ay) = (y.x.value(), y.y.value(), a.x.value(), a.y.value());
    assert((qx - px) * (yy - py) - (qy - py) * (yx - px) == (qx - px) * (ay - py) - (qy - py) * (ax - px) + (py
        - qy) * (yx - ax) + (qx - px) * (yy - ay)) by (nonlinear_arith);
}

/// Barycentric weights over points: `orient(a, b, c) * g(x)` is the sum of
/// `g` at the corners weighted by `orient(x, b, c)`, `orient(a, x, c)` and
/// `orient(a, b, x)`, for `g = orient(a2, b2, _)`.
pub(crate) proof fn lemma_orient_barycentric<T: Widen>(
    a: Point2<T>,
    b: Point2<T>,
    c: Point2<T>,
    x: Point2<T>,
    a2: Point2<T>,
    b2: Point2<T>,
)
    ensures
        orient2d_det(a, b, c) * orient2d_det(a2, b2, x) == orient2d_det(x, b, c) * orient2d_det(a2, b2, a)
            + orient2d_det(a, x, c) * orient2d_det(a2, b2, b) + orient2d_det(a, b, x) * orient2d_det(a2, b2, c),
{
    let (ax, ay) = (a.x.value(), a.y.value());
    let (bx, by) = (b.x.value() - ax, b.y.value() - ay);
    let (cx, cy) = (c.x.value() - ax, c.y.value() - ay);
    let (xx, xy) = (x.x.value() - ax, x.y.value() - ay);
    let k0 = orient2d_det(a2, b2, a);
    let k1 = a2.y.value() - b2.y.value();
    let k2 = b2.x.value() - a2.x.value();
    lemma_barycentric(bx, by, cx, cy, xx, xy, k0, k1, k2);
    lemma_orient_affine(a2, b2, x, a);
    lemma_orient_affine(a2, b2, b, a);
    lemma_orient_affine(a2, b2, c, a);
    assert(orient2d_det(x, b, c) == (bx - xx) * (cy - xy) - (by - xy) * (cx - xx));
    assert(orient2d_det(a, x, c) == xx * cy - xy * cx);
    assert(orient2d_det(a, b, x) == bx * xy - by * xx);
    assert(orient2d_det(a, b, c) == bx * cy - by * cx);
}

/// A point between two stack points in angle lies between two consecutive
/// stack points.
pub(crate) proof fn lemma_fan_member<T: Widen>(pivot: Point2<T>, h: Seq<Point2<T>>, w: Point2<T>, lo: int, hi: int)
    requires
        1 <= lo < hi < h.len(),
        orient2d_det(pivot, h[lo], w) >= 0,
        orient2d_det(pivot, w, h[hi]) >= 0,
    ensures
        exists|j: int|
            lo <= j < hi && orient2d_det(pivot, #[trigger] h[j], w) >= 0 && orient2d_det(pivot, w, h[j + 1]) >= 0,
    decreases hi - lo,
{
    if orient2d_det(pivot, w, h[lo + 1]) >= 0 {
        assert(orient2d_det(pivot, h[lo], w) >= 0 && orient2d_det(pivot, w, h[lo + 1]) >= 0);
    } else {
        lemma_orient2d_symmetry(pivot, w, h[lo + 1]);
        lemma_fan_member(pivot, h, w, lo + 1, hi);
    }
}

/// A point inside the triangle `p, a, b` (counter-clockwise) is on the left
/// of a line that has the three corners on its left.
pub(crate) proof fn lemma_inside_left<T: Widen>(
    p: Point2<T>,
    a: Point2<T>,
    b: Point2<T>,
    w: Point2<T>,
    a2: Point2<T>,
    b2: Point2<T>,
)
    requires
        orient2d_det(p, a, b) > 0,
        orient2d_det(w, a, b) >= 0,
        orient2d_det(p, w, b) >= 0,
        orient2d_det(p, a, w) >= 0,
        orient2d_det(a2, b2, p) >= 0,
        orient2d_det(a2, b2, a) >= 0,
        orient2d_det(a2, b2, b) >= 0,
    ensures
        orient2d_det(a2, b2, w) >= 0,
{
    lemma_orient_barycentric(p, a, b, w, a2, b2);
    let d = orient2d_det(p, a, b);
    let (w1, w2, w3) = (orient2d_det(w, a, b), orient2d_det(p, w, b), orient2d_det(p, a, w));
    let (g1, g2, g3) = (orient2d_det(a2, b2, p), orient2d_det(a2, b2, a), orient2d_det(a2, b2, b));
    let gw = orient2d_det(a2, b2, w);
    vstd::arithmetic::mul::lemma_mul_nonnegative(w1, g1);
    vstd::arithmetic::mul::lemma_mul_nonnegative(w2, g2);
    vstd::arithmetic::mul::lemma_mul_nonnegative(w3, g3);
    lemma_quotient_sign(d, gw, w1 * g1 + w2 * g2 + w3 * g3);
}

/// A product with a positive factor has the sign of the other factor.
pub(crate) proof fn lemma_quotient_sign(d: int, x: int, s: int)
    by (nonlinear_arith)
    requires
        d > 0,
        d * x == s,
    ensures
        s >= 0 ==> x >= 0,
        s > 0 ==> x > 0,
{
}

/// A mix of two non-negative values with weights `d - mu` and `mu`, divided
/// by `d`, is non-negative.
pub(crate) proof fn lemma_mix_nonneg(d: int, mu: int, g0: int, gw: int, gq: int)
    by (nonlinear_arith)
    requires
        d * gq == (d - mu) * g0 + mu * gw,
        0 < mu <= d,
        g0 >= 0,
        gw >= 0,
    ensures
        gq >= 0,
{
}

/// Popping the stack for `p` keeps a prefix of at least two points, stops at
/// a left turn, and every popped point lies on the left of (or on) the line
/// from the new top to `p`.
#[verifier::rlimit(50)]
pub(crate) proof fn lemma_pop_facts<T: Widen>(h: Seq<Point2<T>>, p: Point2<T>)
    requires
        h.len() >= 2,
        forall|a: int| 1 <= a < h.len() ==> orient2d_det(h[0], #[trigger] h[a], p) > 0,
        forall|a: int, b: int| #![trigger h[a], h[b]] 1 <= a < b < h.len() ==> orient2d_det(h[0], h[a], h[b]) > 0,
    ensures
        2 <= pop_non_left(h, p).len() <= h.len(),
        pop_non_left(h, p) == h.subrange(0, pop_non_left(h, p).len() as int),
        orient2d_det(
            pop_non_left(h, p)[pop_non_left(h, p).len() - 2],
            pop_non_left(h, p)[pop_non_left(h, p).len() - 1],
            p,
        ) > 0,
        forall|j: int|
            pop_non_left(h, p).len() <= j < h.len() ==> orient2d_det(
                pop_non_left(h, p)[pop_non_left(h, p).len() - 1],
                p,
                #[trigger] h[j],
            ) >= 0,
    decreases h.len(),
{
    let r = pop_non_left(h, p);
    if h.len() >= 2 && !(orient2d_det(h[h.len() - 2], h[h.len() - 1], p) > 0) {
        assert(h.len() > 2) by {
            assert(orient2d_det(h[0], h[1], p) > 0);
        }
        let d = h.drop_last();
        assert forall|a: int| 1 <= a < d.len() implies orient2d_det(d[0], #[trigger] d[a], p) > 0 by {
            assert(d[a] == h[a]);
            assert(orient2d_det(h[0], h[a], p) > 0);
        }
        assert forall|a: int, b: int| #![trigger d[a], d[b]] 1 <= a < b < d.len() implies orient2d_det(d[0], d[a], d[b])
            > 0 by {
            assert(d[a] == h[a] && d[b] == h[b]);
            assert(orient2d_det(h[0], h[a], h[b]) > 0);
        }
        lemma_pop_facts(d, p);
        assert(r == pop_non_left(d, p));
        let c = r[r.len() - 1];
        let x = h[h.len() - 1];
        let y = h[h.len() - 2];
        assert(r == h.subrange(0, r.len() as int)) by {
            assert(r =~= h.subrange(0, r.len() as int));
        }
        // the top that was just popped
        lemma_orient2d_symmetry(y, x, p);
        lemma_orient2d_symmetry(c, p, x);
        if r.len() == d.len() {
            assert(c == y);
            lemma_orient2d_symmetry(x, c, p);
            assert(orient2d_det(c, p, x) >= 0);
        } else {
            assert(orient2d_det(c, p, y) >= 0) by {
                assert(d[d.len() - 1] == y);
            }
            lemma_orient_repeat(c, p);
            assert(r.len() >= 2);
            assert(c == h[r.len() - 1]);
            assert(orient2d_det(h[0], c, p) > 0);
            lemma_orient2d_symmetry(h[0], c, p);
            lemma_orient2d_symmetry(c, p, h[0]);
            assert(orient2d_det(h[0], y, p) > 0);
            assert(orient2d_det(h[0], x, p) > 0);
            assert(orient2d_det(h[0], y, x) > 0);
            lemma_orient2d_symmetry(x, y, p);
            lemma_inside_left(h[0], y, p, x, c, p);
        }
        assert forall|j: int| r.len() <= j < h.len() implies orient2d_det(c, p, #[trigger] h[j]) >= 0 by {
            if j < h.len() - 1 {
                assert(h[j] == d[j]);
            }
        }
    }
}

/// The stack facts the scan keeps: the first point is the pivot, the later
/// points turn strictly left around it in order, consecutive triples turn
/// left, and every stack point is on the left of (or on) every stack edge.
pub(crate) open spec fn chain_ok<T: Widen>(h: Seq<Point2<T>>) -> bool {
    &&& h.len() >= 2
    &&& forall|a: int, b: int| #![trigger h[a], h[b]] 1 <= a < b < h.len() ==> orient2d_det(h[0], h[a], h[b]) > 0
    &&& left_turns(h)
    &&& forall|i: int, a: int|
        0 <= i && i + 1 < h.len() && 0 <= a < h.len() ==> #[trigger] edge_keeps(h, i, h[a])
}

/// `w` is on the left of (or on) the edge from `h[i]` to `h[i + 1]`.
pub(crate) open spec fn edge_keeps<T: Widen>(h: Seq<Point2<T>>, i: int, w: Point2<T>) -> bool {
    orient2d_det(h[i], h[i + 1], w) >= 0
}

/// A point beyond every chain point in angle, turning left from the last
/// edge, is strictly on the left of every edge from edge `i` on.
pub(crate) proof fn lemma_chain_left_from<T: Widen>(h: Seq<Point2<T>>, p: Point2<T>, i: int)
    requires
        chain_ok(h),
        forall|a: int| 1 <= a < h.len() ==> orient2d_det(h[0], #[trigger] h[a], p) > 0,
        orient2d_det(h[h.len() - 2], h[h.len() - 1], p) > 0,
        0 <= i <= h.len() - 2,
    ensures
        orient2d_det(h[i], h[i + 1], p) > 0,
    decreases h.len() - i,
{
    if i < h.len() - 2 {
        lemma_chain_left_from(h, p, i + 1);
        let (pv, a, b, c) = (h[0], h[i], h[i + 1], h[i + 2]);
        lemma_orient_barycentric(pv, b, c, p, a, b);
        let d = orient2d_det(pv, b, c);
        assert(d > 0);
        lemma_orient2d_symmetry(p, b, c);
        lemma_orient2d_symmetry(pv, c, p);
        assert(orient2d_det(pv, b, p) > 0);
        let w1 = orient2d_det(p, b, c);
        let w2 = orient2d_det(pv, p, c);
        let w3 = orient2d_det(pv, b, p);
        assert(w1 > 0 && w3 > 0);
        let g1 = orient2d_det(a, b, pv);
        let g3 = orient2d_det(a, b, c);
        assert(edge_keeps(h, i, h[0]));
        assert(g1 >= 0);
        assert(g3 > 0);
        lemma_orient_repeat(a, b);
        let gp = orient2d_det(a, b, p);
        assert(d > 0);
        assert(d * gp == w1 * g1 + w2 * 0 + w3 * g3);
        vstd::arithmetic::mul::lemma_mul_nonnegative(w1, g1);
        vstd::arithmetic::mul::lemma_mul_strictly_positive(w3, g3);
        lemma_quotient_sign(d, gp, w1 * g1 + w2 * 0 + w3 * g3);
    }
}

/// Every chain point is on the left of (or on) the line from the chain's
/// last point to a point beyond it that turns left from the last edge.
pub(crate) proof fn lemma_chain_before_new_edge<T: Widen>(h: Seq<Point2<T>>, p: Point2<T>, j: int)
    requires
        chain_ok(h),
        forall|a: int| 1 <= a < h.len() ==> orient2d_det(h[0], #[trigger] h[a], p) > 0,
        orient2d_det(h[h.len() - 2], h[h.len() - 1], p) > 0,
        0 <= j < h.len(),
    ensures
        orient2d_det(h[h.len() - 1], p, h[j]) >= 0,
    decreases h.len() - j,
{
    let c = h[h.len() - 1];
    let pv = h[0];
    lemma_orient_repeat(c, p);
    if j == 0 {
        assert(orient2d_det(pv, c, p) > 0);
        lemma_orient2d_symmetry(pv, c, p);
        lemma_orient2d_symmetry(c, p, pv);
    } else if j == h.len() - 2 {
        lemma_orient2d_symmetry(h[j], c, p);
        lemma_orient2d_symmetry(c, p, h[j]);
    } else if j < h.len() - 2 {
        lemma_chain_before_new_edge(h, p, j + 1);
        assert(orient2d_det(pv, c, p) > 0);
        lemma_orient2d_symmetry(pv, c, p);
        lemma_orient2d_symmetry(c, p, pv);
        let (v, b) = (h[j], h[j + 1]);
        lemma_orient_barycentric(pv, b, c, v, c, p);
        let d = orient2d_det(pv, b, c);
        assert(d > 0);
        let w1 = orient2d_det(v, b, c);
        let w2 = orient2d_det(pv, v, c);
        let w3 = orient2d_det(pv, b, v);
        assert(edge_keeps(h, j, h[h.len() - 1]));
        lemma_orient2d_symmetry(v, b, c);
        assert(w1 >= 0);
        assert(w2 > 0);
        let g1 = orient2d_det(c, p, pv);
        let g2 = orient2d_det(c, p, b);
        let gv = orient2d_det(c, p, v);
        assert(d > 0);
        assert(d * gv == w1 * g1 + w2 * g2 + w3 * 0);
        vstd::arithmetic::mul::lemma_mul_nonnegative(w1, g1);
        vstd::arithmetic::mul::lemma_mul_nonnegative(w2, g2);
        lemma_quotient_sign(d, gv, w1 * g1 + w2 * g2 + w3 * 0);
    }
}

/// After the first point, the points of `u` turn strictly left around it in order.
pub(crate) open spec fn fan_ready<T: Widen>(u: Seq<Point2<T>>) -> bool {
    &&& u.len() >= 2
    &&& forall|a: int, b: int| #![trigger u[a], u[b]] 1 <= a < b < u.len() ==> orient2d_det(u[0], u[a], u[b]) > 0
}

/// The stack `h` after scanning the first `t` points of `u`: a chain from the
/// first two points to the last point scanned, with every point still to come
/// beyond each stack point, and every scanned point on the left of (or on)
/// every stack edge.
pub(crate) open spec fn scan_ok<T: Widen>(u: Seq<Point2<T>>, t: int, h: Seq<Point2<T>>) -> bool {
    &&& chain_ok(h)
    &&& h[0] == u[0]
    &&& h[1] == u[1]
    &&& h[h.len() - 1] == u[t - 1]
    &&& forall|a: int, s: int|
        #![trigger h[a], u[s]]
        1 <= a < h.len() && t <= s < u.len() ==> orient2d_det(u[0], h[a], u[s]) > 0
    &&& forall|i: int, s: int|
        0 <= s < t && 0 <= i && i + 1 < h.len() ==> #[trigger] edge_keeps(h, i, u[s])
}

/// A prefix of a chain, of at least two points, is a chain.
pub(crate) proof fn lemma_prefix_chain<T: Widen>(h: Seq<Point2<T>>, r: Seq<Point2<T>>)
    requires
        chain_ok(h),
        2 <= r.len() <= h.len(),
        r == h.subrange(0, r.len() as int),
    ensures
        chain_ok(r),
{
    assert forall|a: int, b: int| #![trigger r[a], r[b]] 1 <= a < b < r.len() implies orient2d_det(r[0], r[a], r[b])
        > 0 by {
        assert(orient2d_det(h[0], h[a], h[b]) > 0);
    }
    assert forall|i: int| 0 <= i && i + 2 < r.len() implies #[trigger] orient2d_det(r[i], r[i + 1], r[i + 2]) > 0 by {
        assert(orient2d_det(h[i], h[i + 1], h[i + 2]) > 0);
    }
    assert forall|i: int, a: int|
        0 <= i && i + 1 < r.len() && 0 <= a < r.len() implies #[trigger] edge_keeps(r, i, r[a]) by {
        assert(edge_keeps(h, i, h[a]));
    }
}

/// A point no later in angle than the top `c` left after popping, and on the
/// left of every edge of the remaining chain, is on the left of the new edge
/// from `c` to `p`.
#[verifier::rlimit(60)]
pub(crate) proof fn lemma_new_edge_before<T: Widen>(r: Seq<Point2<T>>, p: Point2<T>, w: Point2<T>)
    requires
        chain_ok(r),
        forall|a: int| 1 <= a < r.len() ==> orient2d_det(r[0], #[trigger] r[a], p) > 0,
        orient2d_det(r[r.len() - 2], r[r.len() - 1], p) > 0,
        orient2d_det(r[0], w, r[r.len() - 1]) >= 0,
        w == r[1] || orient2d_det(r[0], r[1], w) > 0,
        forall|j: int| 0 <= j && j + 1 < r.len() ==> #[trigger] edge_keeps(r, j, w),
    ensures
        orient2d_det(r[r.len() - 1], p, w) >= 0,
{
    let k = r.len() - 1;
    let (pv, c) = (r[0], r[k]);
    lemma_orient_repeat(c, p);
    lemma_chain_before_new_edge(r, p, 0);
    if k == 1 {
        if w != r[1] {
            lemma_orient2d_symmetry(pv, w, r[1]);
            assert(false);
        }
    } else {
        if w == r[1] {
            lemma_orient_repeat(pv, w);
        }
        lemma_fan_member(pv, r, w, 1, k);
        let j = choose|j: int| 1 <= j < k && orient2d_det(pv, #[trigger] r[j], w) >= 0 && orient2d_det(pv, w, r[j + 1]) >= 0;
        assert(edge_keeps(r, j, w));
        lemma_orient2d_symmetry(w, r[j], r[j + 1]);
        assert(orient2d_det(pv, r[j], r[j + 1]) > 0);
        lemma_chain_before_new_edge(r, p, j);
        lemma_chain_before_new_edge(r, p, j + 1);
        lemma_inside_left(pv, r[j], r[j + 1], w, c, p);
    }
}

/// A point beyond the top `c` left after popping, but no later than the old
/// top, and on the left of every old edge, is on the left of the new edge
/// from `c` to `p`.
#[verifier::rlimit(50)]
pub(crate) proof fn lemma_new_edge_beyond<T: Widen>(h: Seq<Point2<T>>, k: int, p: Point2<T>, w: Point2<T>)
    requires
        chain_ok(h),
        1 <= k < h.len(),
        orient2d_det(h[k], p, h[0]) >= 0,
        forall|j: int| k < j < h.len() ==> orient2d_det(h[k], p, #[trigger] h[j]) >= 0,
        orient2d_det(h[0], h[k], w) > 0,
        orient2d_det(h[0], w, h[h.len() - 1]) >= 0,
        forall|j: int| 0 <= j && j + 1 < h.len() ==> #[trigger] edge_keeps(h, j, w),
    ensures
        orient2d_det(h[k], p, w) >= 0,
{
    let last = h.len() - 1;
    let (pv, c) = (h[0], h[k]);
    if k == last {
        lemma_orient2d_symmetry(pv, w, c);
        assert(false);
    }
    lemma_fan_member(pv, h, w, k, last);
    let j = choose|j: int| k <= j < last && orient2d_det(pv, #[trigger] h[j], w) >= 0 && orient2d_det(pv, w, h[j + 1]) >= 0;
    assert(edge_keeps(h, j, w));
    lemma_orient2d_symmetry(w, h[j], h[j + 1]);
    assert(orient2d_det(pv, h[j], h[j + 1]) > 0);
    lemma_orient_repeat(c, p);
    assert(orient2d_det(c, p, h[j]) >= 0) by {
        if j > k {
            assert(orient2d_det(h[k], p, h[j]) >= 0);
        }
    }
    assert(orient2d_det(c, p, h[j + 1]) >= 0);
    lemma_inside_left(pv, h[j], h[j + 1], w, c, p);
}

/// A scanned point other than the first is on the left of (or on) the new
/// edge from the top left after popping to the point being pushed.
#[verifier::rlimit(50)]
pub(crate) proof fn lemma_new_edge_scanned<T: Widen>(u: Seq<Point2<T>>, t: int, h: Seq<Point2<T>>, s: int)
    requires
        fan_ready(u),
        2 <= t < u.len(),
        scan_ok(u, t, h),
        1 <= s < t,
        forall|a: int| 1 <= a < h.len() ==> orient2d_det(h[0], #[trigger] h[a], u[t]) > 0,
    ensures
        orient2d_det(pop_non_left(h, u[t])[pop_non_left(h, u[t]).len() - 1], u[t], u[s]) >= 0,
{
    let p = u[t];
    let w = u[s];
    lemma_pop_facts(h, p);
    let r = pop_non_left(h, p);
    let k = r.len() - 1;
    lemma_prefix_chain(h, r);
    assert forall|a: int| 1 <= a < r.len() implies orient2d_det(r[0], #[trigger] r[a], p) > 0 by {
        assert(r[a] == h[a]);
    }
    assert forall|j: int| 0 <= j && j + 1 < h.len() implies #[trigger] edge_keeps(h, j, w) by {
        assert(edge_keeps(h, j, u[s]));
    }
    lemma_orient2d_symmetry(u[0], w, r[k]);
    if orient2d_det(u[0], w, r[k]) >= 0 {
        assert forall|j: int| 0 <= j && j + 1 < r.len() implies #[trigger] edge_keeps(r, j, w) by {
            assert(edge_keeps(h, j, w));
        }
        if s > 1 {
            assert(orient2d_det(u[0], u[1], u[s]) > 0);
        }
        lemma_new_edge_before(r, p, w);
    } else {
        lemma_chain_before_new_edge(r, p, 0);
        assert(r[k] == h[k]);
        if s < t - 1 {
            assert(orient2d_det(u[0], u[s], u[t - 1]) > 0);
        } else {
            lemma_orient_repeat(u[0], w);
        }
        lemma_new_edge_beyond(h, k, p, w);
    }
}

/// The scan's stack after the first two points.
pub(crate) proof fn lemma_scan_base<T: Widen>(u: Seq<Point2<T>>)
    requires
        fan_ready(u),
    ensures
        scan_ok(u, 2, hull_stack(u, 2)),
{
    let h = hull_stack(u, 2);
    assert(hull_stack(u, 1) == seq![u[0]]) by {
        assert(pop_non_left(hull_stack(u, 0), u[0]) == hull_stack(u, 0));
    }
    assert(pop_non_left(seq![u[0]], u[1]) == seq![u[0]]);
    assert(h == seq![u[0], u[1]]);
    lemma_orient_repeat(u[0], u[1]);
    assert forall|i: int, a: int| 0 <= i && i + 1 < h.len() && 0 <= a < h.len() implies #[trigger] edge_keeps(h, i, h[a]) by {
    }
    assert forall|i: int, s: int| 0 <= s < 2 && 0 <= i && i + 1 < h.len() implies #[trigger] edge_keeps(h, i, u[s]) by {
    }
    assert forall|a: int, s: int| #![trigger h[a], u[s]] 1 <= a < h.len() && 2 <= s < u.len() implies orient2d_det(u[0], h[a], u[s]) > 0 by {
        assert(orient2d_det(u[0], u[1], u[s]) > 0);
    }
}

/// Pushing a point that turns left from the last edge, and lies beyond every
/// chain point, keeps a chain.
#[verifier::rlimit(50)]
pub(crate) proof fn lemma_push_chain<T: Widen>(r: Seq<Point2<T>>, p: Point2<T>)
    requires
        chain_ok(r),
        forall|a: int| 1 <= a < r.len() ==> orient2d_det(r[0], #[trigger] r[a], p) > 0,
        orient2d_det(r[r.len() - 2], r[r.len() - 1], p) > 0,
    ensures
        chain_ok(r.push(p)),
{
    let hh = r.push(p);
    let k = r.len() - 1;
    lemma_orient_repeat(r[k], p);
    assert forall|a: int, b: int| #![trigger hh[a], hh[b]] 1 <= a < b < hh.len() implies orient2d_det(hh[0], hh[a], hh[b])
        > 0 by {
        if b < r.len() {
            assert(orient2d_det(r[0], r[a], r[b]) > 0);
        }
    }
    assert forall|i: int| 0 <= i && i + 2 < hh.len() implies #[trigger] orient2d_det(hh[i], hh[i + 1], hh[i + 2]) > 0 by {
        if i + 2 < r.len() {
            assert(orient2d_det(r[i], r[i + 1], r[i + 2]) > 0);
        }
    }
    assert forall|i: int, a: int| 0 <= i && i + 1 < hh.len() && 0 <= a < hh.len() implies #[trigger] edge_keeps(hh, i, hh[a]) by {
        if i + 1 < r.len() {
            if a < r.len() {
                assert(edge_keeps(r, i, r[a]));
            } else {
                lemma_chain_left_from(r, p, i);
            }
        } else if a < r.len() {
            lemma_chain_before_new_edge(r, p, a);
        }
    }
}

/// Every scanned point is on the left of every edge after one more step.
#[verifier::rlimit(50)]
pub(crate) proof fn lemma_scan_step_edges<T: Widen>(u: Seq<Point2<T>>, t: int)
    requires
        fan_ready(u),
        2 <= t < u.len(),
        scan_ok(u, t, hull_stack(u, t)),
    ensures
        forall|i: int, s: int|
            0 <= s < t + 1 && 0 <= i && i + 1 < hull_stack(u, t + 1).len() ==> #[trigger] edge_keeps(
                hull_stack(u, t + 1),
                i,
                u[s],
            ),
{
    let h = hull_stack(u, t);
    let p = u[t];
    assert forall|a: int| 1 <= a < h.len() implies orient2d_det(h[0], #[trigger] h[a], p) > 0 by {
        assert(orient2d_det(u[0], h[a], u[t]) > 0);
    }
    lemma_pop_facts(h, p);
    let r = pop_non_left(h, p);
    let k = r.len() - 1;
    lemma_prefix_chain(h, r);
    assert forall|a: int| 1 <= a < r.len() implies orient2d_det(r[0], #[trigger] r[a], p) > 0 by {
        assert(r[a] == h[a]);
    }
    let hh = r.push(p);
    assert(hull_stack(u, t + 1) == hh);
    lemma_orient_repeat(r[k], p);
    assert forall|i: int, s: int| 0 <= s < t + 1 && 0 <= i && i + 1 < hh.len() implies #[trigger] edge_keeps(hh, i, u[s]) by {
        if i + 1 < r.len() {
            if s < t {
                assert(edge_keeps(h, i, u[s]));
            } else {
                lemma_chain_left_from(r, p, i);
            }
        } else if s == 0 {
            lemma_chain_before_new_edge(r, p, 0);
        } else if s < t {
            lemma_new_edge_scanned(u, t, h, s);
        }
    }
}

/// One scan step keeps the scan's facts.
#[verifier::rlimit(50)]
pub(crate) proof fn lemma_scan_step<T: Widen>(u: Seq<Point2<T>>, t: int)
    requires
        fan_ready(u),
        2 <= t < u.len(),
        scan_ok(u, t, hull_stack(u, t)),
    ensures
        scan_ok(u, t + 1, hull_stack(u, t + 1)),
{
    let h = hull_stack(u, t);
    let p = u[t];
    assert forall|a: int| 1 <= a < h.len() implies orient2d_det(h[0], #[trigger] h[a], p) > 0 by {
        assert(orient2d_det(u[0], h[a], u[t]) > 0);
    }
    lemma_pop_facts(h, p);
    let r = pop_non_left(h, p);
    lemma_prefix_chain(h, r);
    assert forall|a: int| 1 <= a < r.len() implies orient2d_det(r[0], #[trigger] r[a], p) > 0 by {
        assert(r[a] == h[a]);
    }
    let hh = r.push(p);
    assert(hull_stack(u, t + 1) == hh);
    lemma_push_chain(r, p);
    lemma_scan_step_edges(u, t);
    // points still to come lie beyond every stack point
    assert forall|a: int, s: int| #![trigger hh[a], u[s]] 1 <= a < hh.len() && t + 1 <= s < u.len() implies orient2d_det(
        u[0],
        hh[a],
        u[s],
    ) > 0 by {
        if a < r.len() {
            assert(hh[a] == h[a]);
            assert(orient2d_det(u[0], h[a], u[s]) > 0);
        } else {
            assert(orient2d_det(u[0], u[t], u[s]) > 0);
        }
    }
}

/// The scan's facts after any number of points.
pub(crate) proof fn lemma_scan<T: Widen>(u: Seq<Point2<T>>, t: int)
    requires
        fan_ready(u),
        2 <= t <= u.len(),
    ensures
        scan_ok(u, t, hull_stack(u, t)),
    decreases t,
{
    if t == 2 {
        lemma_scan_base(u);
    } else {
        lemma_scan(u, t - 1);
        lemma_scan_step(u, t - 1);
    }
}

/// Every point after the run starting at `i` turns strictly left from the
/// run's points.
pub(crate) proof fn lemma_run_beyond<T: Widen>(s: Seq<Point2<T>>, pivot: Point2<T>, i: int)
    requires
        1 <= i < s.len(),
        sorted_around(s, pivot, 1, s.len() as int),
        all_above(s, pivot, 1, s.len() as int),
    ensures
        forall|k: int|
            run_end(s, pivot, i, i) < k < s.len() ==> orient2d_det(pivot, s[run_end(s, pivot, i, i)], #[trigger] s[k])
                > 0,
{
    lemma_run_end(s, pivot, i, i);
    let j = run_end(s, pivot, i, i);
    let (si, sj) = (s[i], s[j]);
    lemma_orient_repeat(pivot, si);
    lemma_turns(pivot, si, sj, si);
    assert(orient2d_det(pivot, sj, si) == 0);
    assert forall|k: int| j < k < s.len() implies orient2d_det(pivot, sj, #[trigger] s[k]) > 0 by {
        assert(orient2d_det(pivot, si, s[j + 1]) > 0) by {
            assert(angle_le(pivot, s[i], s[j + 1]));
        }
        if k > j + 1 {
            assert(angle_le(pivot, s[j + 1], s[k]));
            lemma_turns(pivot, si, s[j + 1], s[k]);
        }
        lemma_turns(pivot, sj, si, s[k]);
    }
}

/// The points `farthest_on_rays` keeps turn strictly left around the pivot in order.
#[verifier::rlimit(50)]
pub(crate) proof fn lemma_farthest_increasing<T: Widen>(s: Seq<Point2<T>>, pivot: Point2<T>, i: int)
    requires
        1 <= i,
        sorted_around(s, pivot, 1, s.len() as int),
        all_above(s, pivot, 1, s.len() as int),
    ensures
        forall|a: int, b: int|
            #![trigger farthest_on_rays(s, pivot, i)[a], farthest_on_rays(s, pivot, i)[b]]
            0 <= a < b < farthest_on_rays(s, pivot, i).len() ==> orient2d_det(
                pivot,
                farthest_on_rays(s, pivot, i)[a],
                farthest_on_rays(s, pivot, i)[b],
            ) > 0,
    decreases s.len() - i,
{
    if i < s.len() {
        lemma_run_end(s, pivot, i, i);
        let j = run_end(s, pivot, i, i);
        lemma_farthest_increasing(s, pivot, j + 1);
        lemma_farthest_on_rays(s, pivot, j + 1);
        lemma_run_beyond(s, pivot, i);
        let rest = farthest_on_rays(s, pivot, j + 1);
        let f = farthest_on_rays(s, pivot, i);
        assert(f == seq![s[j]] + rest);
        assert forall|a: int, b: int| #![trigger f[a], f[b]] 0 <= a < b < f.len() implies orient2d_det(pivot, f[a], f[b])
            > 0 by {
            assert(f[b] == rest[b - 1]);
            if a == 0 {
                let k = choose|k: int| j + 1 <= k < s.len() && #[trigger] rest[b - 1] == s[k];
                assert(orient2d_det(pivot, s[j], s[k]) > 0);
            } else {
                assert(f[a] == rest[a - 1]);
                assert(orient2d_det(pivot, rest[a - 1], rest[b - 1]) > 0);
            }
        }
    }
}

/// Every point of `s` from `i` on lies on the ray of a point that
/// `farthest_on_rays` keeps, no farther from the pivot.
#[verifier::rlimit(50)]
pub(crate) proof fn lemma_farthest_covers<T: Widen>(s: Seq<Point2<T>>, pivot: Point2<T>, i: int, b: int)
    requires
        1 <= i <= b < s.len(),
        sorted_around(s, pivot, 1, s.len() as int),
        all_above(s, pivot, 1, s.len() as int),
    ensures
        exists|t: int|
            0 <= t < farthest_on_rays(s, pivot, i).len() && orient2d_det(
                pivot,
                #[trigger] farthest_on_rays(s, pivot, i)[t],
                s[b],
            ) == 0 && dist2(pivot, s[b]) <= dist2(pivot, farthest_on_rays(s, pivot, i)[t]),
    decreases s.len() - i,
{
    lemma_run_end(s, pivot, i, i);
    let j = run_end(s, pivot, i, i);
    lemma_farthest_on_rays(s, pivot, i);
    let f = farthest_on_rays(s, pivot, i);
    let rest = farthest_on_rays(s, pivot, j + 1);
    assert(f == seq![s[j]] + rest);
    if b <= j {
        let (si, sj, sb) = (s[i], s[j], s[b]);
        lemma_orient_repeat(pivot, si);
        lemma_turns(pivot, si, sj, si);
        lemma_turns(pivot, sj, si, sb);
        assert(orient2d_det(pivot, sj, sb) == 0);
        lemma_turns(pivot, sb, sj, sb);
        if b < j {
            assert(angle_le(pivot, s[b], s[j]));
        }
        assert(f[0] == sj);
    } else {
        lemma_farthest_covers(s, pivot, j + 1, b);
        let t = choose|t: int| 0 <= t < rest.len() && orient2d_det(pivot, #[trigger] rest[t], s[b]) == 0 && dist2(pivot, s[b])
            <= dist2(pivot, rest[t]);
        assert(f[t + 1] == rest[t]);
    }
}

/// Parallel offsets: `|v|^2 u == (u . v) v`.
pub(crate) proof fn lemma_parallel_scale(ux: int, uy: int, vx: int, vy: int)
    requires
        vx * uy - vy * ux == 0,
    ensures
        (vx * vx + vy * vy) * ux == (ux * vx + uy * vy) * vx,
        (vx * vx + vy * vy) * uy == (ux * vx + uy * vy) * vy,
{
    assert((vx * vx + vy * vy) * ux - (ux * vx + uy * vy) * vx == vy * (vy * ux - vx * uy)) by (nonlinear_arith);
    assert((vx * vx + vy * vy) * uy - (ux * vx + uy * vy) * vy == vx * (vx * uy - vy * ux)) by (nonlinear_arith);
    assert(vy * (vy * ux - vx * uy) == 0) by (nonlinear_arith)
        requires
            vx * uy - vy * ux == 0,
    ;
    assert(vx * (vx * uy - vy * ux) == 0) by (nonlinear_arith)
        requires
            vx * uy - vy * ux == 0,
    ;
}

/// For parallel offsets above the pivot, the first no longer than the
/// second: `0 < u . v <= |v|^2`.
pub(crate) proof fn lemma_parallel_ratio(ux: int, uy: int, vx: int, vy: int)
    requires
        uy > 0 || (uy == 0 && ux > 0),
        vy > 0 || (vy == 0 && vx > 0),
        vx * uy - vy * ux == 0,
        ux * ux + uy * uy <= vx * vx + vy * vy,
    ensures
        0 < ux * vx + uy * vy <= vx * vx + vy * vy,
{
    let d = vx * vx + vy * vy;
    let mu = ux * vx + uy * vy;
    let uu = ux * ux + uy * uy;
    lemma_parallel_scale(ux, uy, vx, vy);
    lemma_square_sum_pos(vx, vy);
    lemma_scaled_dir_pos(d, mu, ux, uy, vx, vy);
    lemma_weighted_squares(d, ux, uy);
    lemma_weighted_squares_dir(mu, ux, uy, vx, vy);
    assert(d * uu == mu * mu);
    lemma_ratio_le(d, mu, uu);
}

/// The squared length of a direction above the pivot is positive.
pub(crate) proof fn lemma_square_sum_pos(vx: int, vy: int)
    by (nonlinear_arith)
    requires
        vy > 0 || (vy == 0 && vx > 0),
    ensures
        vx * vx + vy * vy > 0,
{
}

/// A positive multiple `d` of a direction `u` above the pivot that equals
/// `mu` times another direction `v` above the pivot has `mu > 0`.
pub(crate) proof fn lemma_scaled_dir_pos(d: int, mu: int, ux: int, uy: int, vx: int, vy: int)
    by (nonlinear_arith)
    requires
        d > 0,
        d * ux == mu * vx,
        d * uy == mu * vy,
        uy > 0 || (uy == 0 && ux > 0),
        vy > 0 || (vy == 0 && vx > 0),
    ensures
        mu > 0,
{
}

/// `d * (ux^2 + uy^2) == (d ux) ux + (d uy) uy`.
pub(crate) proof fn lemma_weighted_squares(d: int, ux: int, uy: int)
    by (nonlinear_arith)
    ensures
        d * (ux * ux + uy * uy) == (d * ux) * ux + (d * uy) * uy,
{
}

/// `(mu vx) ux + (mu vy) uy == mu (u . v)`.
pub(crate) proof fn lemma_weighted_squares_dir(mu: int, ux: int, uy: int, vx: int, vy: int)
    by (nonlinear_arith)
    ensures
        (mu * vx) * ux + (mu * vy) * uy == mu * (ux * vx + uy * vy),
{
}

/// `d * uu == mu^2` with `uu <= d`, `d > 0` and `mu > 0` gives `mu <= d`.
pub(crate) proof fn lemma_ratio_le(d: int, mu: int, uu: int)
    by (nonlinear_arith)
    requires
        d > 0,
        mu > 0,
        d * uu == mu * mu,
        uu <= d,
    ensures
        mu <= d,
{
}

/// A point on the segment from the pivot to `w` is on the left of (or on)
/// every line that has the pivot and `w` on its left.
pub(crate) proof fn lemma_on_segment_left<T: Widen>(
    pivot: Point2<T>,
    w: Point2<T>,
    q: Point2<T>,
    a2: Point2<T>,
    b2: Point2<T>,
)
    requires
        above_pivot(pivot, w),
        above_pivot(pivot, q),
        orient2d_det(pivot, w, q) == 0,
        dist2(pivot, q) <= dist2(pivot, w),
        orient2d_det(a2, b2, pivot) >= 0,
        orient2d_det(a2, b2, w) >= 0,
    ensures
        orient2d_det(a2, b2, q) >= 0,
{
    let (px, py) = (pivot.x.value(), pivot.y.value());
    let (ux, uy) = (q.x.value() - px, q.y.value() - py);
    let (vx, vy) = (w.x.value() - px, w.y.value() - py);
    assert(dist2(pivot, q) == ux * ux + uy * uy);
    assert(dist2(pivot, w) == vx * vx + vy * vy);
    lemma_parallel_scale(ux, uy, vx, vy);
    lemma_parallel_ratio(ux, uy, vx, vy);
    let d = vx * vx + vy * vy;
    let mu = ux * vx + uy * vy;
    lemma_orient_affine(a2, b2, q, pivot);
    lemma_orient_affine(a2, b2, w, pivot);
    let k1 = a2.y.value() - b2.y.value();
    let k2 = b2.x.value() - a2.x.value();
    let g0 = orient2d_det(a2, b2, pivot);
    let gw = orient2d_det(a2, b2, w);
    let gq = orient2d_det(a2, b2, q);
    assert(gq == g0 + k1 * ux + k2 * uy);
    assert(gw == g0 + k1 * vx + k2 * vy);
    lemma_one_weight(d, g0, k1, k2, ux, uy);
    lemma_one_weight(mu, g0, k1, k2, vx, vy);
    lemma_mul_sub_left(d, mu, g0);
    assert(d * gq == (d - mu) * g0 + mu * gw);
    assert(0 < mu <= d && g0 >= 0 && gw >= 0);
    lemma_mix_nonneg(d, mu, g0, gw, gq);
}

/// The hull holds every input point: each one is on the left of (or on)
/// every hull edge, the closing edge included.
#[verifier::rlimit(50)]
pub proof fn lemma_hull_holds_points<T: Widen>(points: Seq<Point2<T>>)
    requires
        graham_hull(points).len() >= 3,
    ensures
        forall|q: Point2<T>| #[trigger] points.contains(q) ==> polygon_holds(graham_hull(points), q),
{
    lemma_hull_angle_holds_points(points);
    let n = points.len() as int;
    lemma_pivot_lowest(points, n);
    let pi = pivot_index(points, n);
    let pivot = points[pi];
    let swapped = points.update(0, pivot).update(pi, points[0]);
    lemma_without_pivot(swapped, pivot, n);
    let rest = without_pivot(swapped, pivot, n);
    let m = rest.len() as int;
    assert forall|t: int| 1 <= t < m implies above_pivot(pivot, #[trigger] rest[t]) by {
        assert(swapped.contains(rest[t]));
        let k = choose|k: int| 0 <= k < swapped.len() && swapped[k] == rest[t];
        let k0 = if k == pi { 0 } else if k == 0 { pi } else { k };
        assert(points[k0] == rest[t]);
        lemma_above_pivot(pivot, rest[t]);
    }
    lemma_angle_sorted(rest, pivot, m);
    let srt = angle_sorted(rest, pivot, m);
    lemma_farthest_on_rays(srt, pivot, 1);
    lemma_farthest_increasing(srt, pivot, 1);
    let f = farthest_on_rays(srt, pivot, 1);
    let uq = seq![srt[0]] + f;
    let h = graham_hull(points);
    assert(h == hull_stack(uq, uq.len() as int));
    assert(fan_ready(uq)) by {
        assert forall|a: int, b: int| #![trigger uq[a], uq[b]] 1 <= a < b < uq.len() implies orient2d_det(uq[0], uq[a], uq[b])
            > 0 by {
            assert(uq[a] == f[a - 1] && uq[b] == f[b - 1]);
            assert(orient2d_det(pivot, f[a - 1], f[b - 1]) > 0);
        }
    }
    lemma_scan(uq, uq.len() as int);
    assert forall|q: Point2<T>| #[trigger] points.contains(q) implies polygon_holds(h, q) by {
        assert forall|i: int| 0 <= i && i + 1 < h.len() implies orient2d_det(#[trigger] h[i], h[i + 1], q) >= 0 by {
            assert(edge_keeps(h, i, uq[0]));
            if q != pivot {
                let k = choose|k: int| 0 <= k < points.len() && points[k] == q;
                let k1 = if k == 0 { pi } else { k };
                assert(swapped[k1] == q);
                assert(rest.contains(q));
                assert(srt.contains(q));
                let b = choose|b: int| 0 <= b < srt.len() && srt[b] == q;
                assert(b >= 1);
                lemma_farthest_covers(srt, pivot, 1, b);
                let t = choose|t: int| 0 <= t < f.len() && orient2d_det(pivot, #[trigger] f[t], srt[b]) == 0 && dist2(pivot, srt[b])
                    <= dist2(pivot, f[t]);
                let w = f[t];
                assert(uq[t + 1] == w);
                assert(edge_keeps(h, i, uq[t + 1]));
                let kw = choose|kw: int| 1 <= kw < srt.len() && #[trigger] f[t] == srt[kw];
                assert(above_pivot(pivot, srt[kw]));
                assert(above_pivot(pivot, srt[b]));
                lemma_on_segment_left(pivot, w, q, h[i], h[i + 1]);
            }
        }
    }
}

} // verus!
