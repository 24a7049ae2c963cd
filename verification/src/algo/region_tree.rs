//! Bucketed space-partitioning tree shared by the quadtree and the octree:
//! each internal node splits its box at its center into one child box per
//! orthant, and leaves hold up to a bucket of point indices.
use vstd::prelude::*;
use vstd::set_lib::set_int_range;

use crate::algo::kdtree::{
    index_set, knn_ok, lemma_knn_complete, lemma_skip_far, listed, offer, KdPoint, NearestResult,
};
use crate::rational::fits_i128;

verus! {

/// An axis-aligned box that splits into orthants around its center.
pub(crate) trait Region: Copy + Sized {
    type Pt: KdPoint;

    /// The lower corner is below the upper corner in every coordinate.
    spec fn ordered(self) -> bool;

    /// Sum of the box's side lengths.
    spec fn size(self) -> int;

    /// The point lies in the box, bounds included.
    spec fn contains_spec(self, p: Self::Pt) -> bool;

    /// The two boxes share a point.
    spec fn intersects_spec(self, o: Self) -> bool;

    /// Squared distance from `q` to the nearest point of the box.
    spec fn box_dist_spec(self, q: Self::Pt) -> int;

    /// The center of the box, each coordinate rounded toward zero.
    spec fn center_spec(self) -> Self::Pt;

    /// Number of orthants.
    spec fn child_count() -> int;

    /// The orthant of `p` around the center `c`.
    spec fn which_spec(c: Self::Pt, p: Self::Pt) -> int;

    /// The box of orthant `k` around the center `c`.
    spec fn child_spec(self, k: int, c: Self::Pt) -> Self;

    /// The box is tight around `pts`: each bound is attained by a point.
    spec fn is_bounding(self, pts: Seq<Self::Pt>) -> bool;

    /// No point of a box is closer to `q` than the box.
    proof fn lemma_box_dist(b: Self, p: Self::Pt, q: Self::Pt)
        requires
            b.contains_spec(p),
        ensures
            0 <= b.box_dist_spec(q) <= p.dist_spec(q),
    ;

    /// Two boxes holding the same point intersect.
    proof fn lemma_meet(b: Self, o: Self, p: Self::Pt)
        requires
            b.contains_spec(p),
            o.contains_spec(p),
        ensures
            b.intersects_spec(o),
    ;

    /// A point of a box lies in the box of its orthant.
    proof fn lemma_child_contains(b: Self, p: Self::Pt)
        requires
            b.ordered(),
            b.contains_spec(p),
        ensures
            0 <= Self::which_spec(b.center_spec(), p) < Self::child_count(),
            b.child_spec(Self::which_spec(b.center_spec(), p), b.center_spec()).contains_spec(p),
    ;

    /// An orthant box is ordered and no larger than its box, and only as
    /// large when it is the box itself.
    proof fn lemma_child_shrinks(b: Self, k: int)
        requires
            b.ordered(),
            0 <= k < Self::child_count(),
        ensures
            b.child_spec(k, b.center_spec()).ordered(),
            0 <= b.child_spec(k, b.center_spec()).size() <= b.size(),
            b.child_spec(k, b.center_spec()).size() == b.size() ==> b.child_spec(k, b.center_spec()) == b,
    ;

    /// Number of orthants.
    fn child_count_exec() -> (r: usize)
        ensures
            r as int == Self::child_count(),
            1 <= r <= 8,
    ;

    /// The box `((0, .., 0), (0, .., 0))`.
    spec fn origin_spec() -> Self;

    /// The box `((0, .., 0), (0, .., 0))`.
    fn origin() -> (r: Self)
        ensures
            r == Self::origin_spec(),
    ;

    /// The tight box around `pts`.
    fn bounding(pts: &Vec<Self::Pt>) -> (r: Self)
        requires
            pts@.len() > 0,
        ensures
            r.ordered(),
            r.is_bounding(pts@),
            forall|j: int| 0 <= j < pts@.len() ==> #[trigger] r.contains_spec(pts@[j]),
    ;

    fn center_of(&self) -> (c: Self::Pt)
        ensures
            c == self.center_spec(),
    ;

    fn which(c: Self::Pt, p: Self::Pt) -> (k: usize)
        ensures
            k as int == Self::which_spec(c, p),
    ;

    fn child(&self, k: usize, c: Self::Pt) -> (r: Self)
        requires
            (k as int) < Self::child_count(),
        ensures
            r == self.child_spec(k as int, c),
    ;

    fn contains_pt(&self, p: Self::Pt) -> (r: bool)
        ensures
            r == self.contains_spec(p),
    ;

    fn same(&self, o: &Self) -> (r: bool)
        ensures
            r == (*self == *o),
    ;

    fn meets(&self, o: &Self) -> (r: bool)
        ensures
            r == self.intersects_spec(*o),
    ;

    fn box_dist(&self, q: Self::Pt) -> (r: i128)
        requires
            self.box_dist_spec(q) <= i128::MAX,
        ensures
            r as int == self.box_dist_spec(q),
    ;
}

/// A node: its box, and either a bucket of point indices or one optional
/// child per orthant.
#[derive(Clone)]
pub(crate) struct RegionNode<B> {
    bounds: B,
    leaf: bool,
    items: Vec<usize>,
    kids: Vec<Option<usize>>,
}

/// Point indices of the subtree at `c`, empty for no subtree.
spec fn opt_set(sub: Seq<Set<int>>, c: Option<usize>) -> Set<int> {
    match c {
        Some(x) => sub[x as int],
        None => Set::empty(),
    }
}

/// Node `i` is well formed: its points lie in its box, and it is a leaf
/// listing them once each, or the disjoint union of children stored before
/// it.
spec fn rnode_ok<B: Region>(nodes: Seq<RegionNode<B>>, sub: Seq<Set<int>>, pts: Seq<B::Pt>, i: int) -> bool {
    let nd = nodes[i];
    &&& nd.bounds.ordered()
    &&& exists|j: int| #[trigger] sub[i].contains(j)
    &&& forall|j: int| #[trigger]
        sub[i].contains(j) ==> 0 <= j < pts.len() && nd.bounds.contains_spec(pts[j])
    &&& if nd.leaf {
        sub[i] == index_set(nd.items@) && nd.items@.no_duplicates()
    } else {
        &&& nd.kids@.len() == B::child_count()
        &&& forall|q: int| 0 <= q < nd.kids@.len() ==> (#[trigger] nd.kids@[q] matches Some(c) ==> c < i)
        &&& forall|j: int| #[trigger]
            sub[i].contains(j) <==> exists|q: int| 0 <= q < nd.kids@.len() && #[trigger] opt_set(sub, nd.kids@[q]).contains(j)
        &&& forall|q1: int, q2: int, j: int|
            0 <= q1 < nd.kids@.len() && 0 <= q2 < nd.kids@.len() && q1 != q2 && #[trigger] opt_set(
                sub,
                nd.kids@[q1],
            ).contains(j) ==> !#[trigger] opt_set(sub, nd.kids@[q2]).contains(j)
    }
}

/// A region tree over points of type `B::Pt`, children stored before their
/// parent.
#[derive(Clone)]
pub(crate) struct RegionCore<B: Region> {
    nodes: Vec<RegionNode<B>>,
    points: Vec<B::Pt>,
    root: Option<usize>,
    bounds: B,
    sub: Ghost<Seq<Set<int>>>,
}


/// The points of `idx` in orthant `q` around `c`.
spec fn orth_set<P: KdPoint, B: Region<Pt = P>>(pts: Seq<P>, idx: Set<int>, c: P, q: int) -> Set<int> {
    Set::new(|j: int| idx.contains(j) && B::which_spec(c, pts[j]) == q)
}

/// Nodes `lo..` of `n1` are well formed, and `n2` keeps them and their
/// subtree sets: they stay well formed in `n2`.
proof fn lemma_rnodes_kept<B: Region>(
    n1: Seq<RegionNode<B>>,
    s1: Seq<Set<int>>,
    n2: Seq<RegionNode<B>>,
    s2: Seq<Set<int>>,
    pts: Seq<B::Pt>,
    lo: int,
)
    requires
        forall|i: int| lo <= i < n1.len() ==> #[trigger] rnode_ok(n1, s1, pts, i),
        forall|i: int| lo <= i < n1.len() ==> (#[trigger] n1[i]).leaf || forall|q: int|
            0 <= q < n1[i].kids@.len() ==> (#[trigger] n1[i].kids@[q] matches Some(c) ==> lo <= c),
        n2.len() >= n1.len(),
        forall|x: int| lo <= x < n1.len() ==> #[trigger] n2[x] == n1[x],
        forall|x: int| lo <= x < n1.len() ==> #[trigger] s2[x] == s1[x],
    ensures
        forall|i: int| lo <= i < n1.len() ==> #[trigger] rnode_ok(n2, s2, pts, i),
{
    assert forall|i: int| lo <= i < n1.len() implies #[trigger] rnode_ok(n2, s2, pts, i) by {
        assert(rnode_ok(n1, s1, pts, i));
        let nd = n1[i];
        assert(n2[i] == nd);
        assert(s2[i] == s1[i]);
        let w = choose|j: int| #[trigger] s1[i].contains(j);
        assert(s2[i].contains(w));
        if !nd.leaf {
            assert forall|q: int| 0 <= q < nd.kids@.len() implies opt_set(s2, nd.kids@[q]) == opt_set(
                s1,
                nd.kids@[q],
            ) by {
                if let Some(c) = nd.kids@[q] {
                    assert(lo <= c < i);
                }
            }
            assert forall|j: int| #[trigger] s2[i].contains(j) <==> exists|q: int|
                0 <= q < nd.kids@.len() && #[trigger] opt_set(s2, nd.kids@[q]).contains(j) by {
                if s1[i].contains(j) {
                    let q = choose|q: int| 0 <= q < nd.kids@.len() && #[trigger] opt_set(s1, nd.kids@[q]).contains(j);
                    assert(opt_set(s2, nd.kids@[q]).contains(j));
                }
                if exists|q: int| 0 <= q < nd.kids@.len() && #[trigger] opt_set(s2, nd.kids@[q]).contains(j) {
                    let q = choose|q: int| 0 <= q < nd.kids@.len() && #[trigger] opt_set(s2, nd.kids@[q]).contains(j);
                    assert(opt_set(s1, nd.kids@[q]).contains(j));
                }
            }
            assert forall|q1: int, q2: int, j: int|
                0 <= q1 < nd.kids@.len() && 0 <= q2 < nd.kids@.len() && q1 != q2 && #[trigger] opt_set(
                    s2,
                    nd.kids@[q1],
                ).contains(j) implies !#[trigger] opt_set(s2, nd.kids@[q2]).contains(j) by {
                assert(opt_set(s1, nd.kids@[q1]).contains(j));
            }
        }
    }
}

/// The indices of `idx` whose points lie in orthant `q` around `c`, in order.
fn orthant_part<B: Region>(points: &Vec<B::Pt>, idx: &Vec<usize>, c: B::Pt, q: usize) -> (r: Vec<usize>)
    requires
        forall|t: int| 0 <= t < idx@.len() ==> (#[trigger] idx@[t]) < points@.len(),
        idx@.no_duplicates(),
    ensures
        r@.no_duplicates(),
        r@.len() <= idx@.len(),
        index_set(r@) == orth_set::<B::Pt, B>(points@, index_set(idx@), c, q as int),
        forall|t: int| 0 <= t < r@.len() ==> (#[trigger] r@[t]) < points@.len(),
        r@.len() == idx@.len() ==> forall|t: int|
            0 <= t < idx@.len() ==> B::which_spec(c, #[trigger] points@[idx@[t] as int]) == q,
        (forall|t: int| 0 <= t < idx@.len() ==> B::which_spec(c, #[trigger] points@[idx@[t] as int]) == q)
            ==> r@.len() == idx@.len(),
{
    let mut r: Vec<usize> = Vec::new();
    let mut t: usize = 0;
    while t < idx.len()
        invariant
            t <= idx@.len(),
            forall|u: int| 0 <= u < idx@.len() ==> (#[trigger] idx@[u]) < points@.len(),
            idx@.no_duplicates(),
            r@.no_duplicates(),
            r@.len() <= t,
            forall|u: int| 0 <= u < r@.len() ==> (#[trigger] r@[u]) < points@.len(),
            forall|x: usize| #[trigger] r@.contains(x) <==> (exists|u: int| 0 <= u < t && idx@[u] == x)
                && B::which_spec(c, points@[x as int]) == q,
            r@.len() == t ==> forall|u: int|
                0 <= u < t ==> B::which_spec(c, #[trigger] points@[idx@[u] as int]) == q,
            (forall|u: int| 0 <= u < t ==> B::which_spec(c, #[trigger] points@[idx@[u] as int]) == q) ==> r@.len()
                == t,
        decreases idx@.len() - t,
    {
        let x = idx[t];
        let k = B::which(c, points[x]);
        let ghost r0 = r@;
        if k == q {
            proof {
                assert(!r0.contains(x)) by {
                    if r0.contains(x) {
                        let u = choose|u: int| 0 <= u < t && idx@[u] == x;
                        assert(idx@[t as int] == x);
                    }
                }
            }
            r.push(x);
            proof {
                assert forall|a: int, b: int| 0 <= a < r@.len() && 0 <= b < r@.len() && a != b implies r@[a]
                    != r@[b] by {
                    if a == r0.len() {
                        assert(r0.contains(r@[b]));
                    } else if b == r0.len() {
                        assert(r0.contains(r@[a]));
                    }
                }
                assert forall|y: usize| #[trigger] r@.contains(y) <==> (exists|u: int| 0 <= u < t + 1 && idx@[u] == y)
                    && B::which_spec(c, points@[y as int]) == q by {
                    if r@.contains(y) && y != x {
                        let a = choose|a: int| 0 <= a < r@.len() && r@[a] == y;
                        assert(r0.contains(y));
                    }
                    if y == x {
                        assert(r@[r0.len() as int] == x);
                    } else if (exists|u: int| 0 <= u < t + 1 && idx@[u] == y) && B::which_spec(c, points@[y as int]) == q {
                        let u = choose|u: int| 0 <= u < t + 1 && idx@[u] == y;
                        assert(u < t);
                        assert(r0.contains(y));
                        let a = choose|a: int| 0 <= a < r0.len() && r0[a] == y;
                        assert(r@[a] == y);
                    }
                }
            }
        } else {
            proof {
                assert forall|y: usize| #[trigger] r@.contains(y) <==> (exists|u: int| 0 <= u < t + 1 && idx@[u] == y)
                    && B::which_spec(c, points@[y as int]) == q by {
                    if (exists|u: int| 0 <= u < t + 1 && idx@[u] == y) && B::which_spec(c, points@[y as int]) == q {
                        let u = choose|u: int| 0 <= u < t + 1 && idx@[u] == y;
                        assert(u != t);
                    }
                }
            }
        }
        t = t + 1;
    }
    proof {
        assert forall|j: int| #[trigger] index_set(r@).contains(j) <==> orth_set::<B::Pt, B>(
            points@,
            index_set(idx@),
            c,
            q as int,
        ).contains(j) by {
            if index_set(r@).contains(j) {
                let a = choose|a: int| 0 <= a < r@.len() && r@[a] as int == j;
                assert(r@.contains(r@[a]));
                let u = choose|u: int| 0 <= u < t && idx@[u] == r@[a];
                assert(index_set(idx@).contains(j));
            }
            if orth_set::<B::Pt, B>(points@, index_set(idx@), c, q as int).contains(j) {
                let u = choose|u: int| 0 <= u < idx@.len() && idx@[u] as int == j;
                let x = idx@[u];
                assert(r@.contains(x));
                let a = choose|a: int| 0 <= a < r@.len() && r@[a] == x;
            }
        }
        assert(index_set(r@) =~= orth_set::<B::Pt, B>(points@, index_set(idx@), c, q as int));
    }
    r
}


/// Builds the subtree over the point indices `idx` inside `bounds`,
/// appending its nodes to `nodes` (children before parents) and their
/// subtree sets to `sub`. A box whose points all fall in an orthant that is
/// the box itself becomes a leaf, however many points it holds.
fn build_region<B: Region>(
    points: &Vec<B::Pt>,
    idx: Vec<usize>,
    bounds: B,
    cap: usize,
    nodes: &mut Vec<RegionNode<B>>,
    Ghost(sub): Ghost<Seq<Set<int>>>,
) -> (r: (usize, Ghost<Seq<Set<int>>>))
    requires
        idx@.len() >= 1,
        idx@.no_duplicates(),
        forall|t: int| 0 <= t < idx@.len() ==> (#[trigger] idx@[t]) < points@.len(),
        forall|t: int| 0 <= t < idx@.len() ==> bounds.contains_spec(points@[#[trigger] idx@[t] as int]),
        bounds.ordered(),
        old(nodes)@.len() == sub.len(),
    ensures
        old(nodes)@.len() <= r.0 < final(nodes)@.len(),
        r.1@.len() == final(nodes)@.len(),
        forall|x: int| 0 <= x < old(nodes)@.len() ==> #[trigger] final(nodes)@[x] == old(nodes)@[x],
        forall|x: int| 0 <= x < old(nodes)@.len() ==> #[trigger] r.1@[x] == sub[x],
        forall|i: int|
            old(nodes)@.len() <= i < final(nodes)@.len() ==> #[trigger] rnode_ok(final(nodes)@, r.1@, points@, i),
        forall|i: int|
            old(nodes)@.len() <= i < final(nodes)@.len() ==> (#[trigger] final(nodes)@[i]).leaf || forall|q: int|
                0 <= q < final(nodes)@[i].kids@.len() ==> (#[trigger] final(nodes)@[i].kids@[q] matches Some(c)
                    ==> old(nodes)@.len() <= c),
        final(nodes)@[r.0 as int].bounds == bounds,
        r.1@[r.0 as int] == index_set(idx@),
    decreases bounds.size(), idx@.len(),
{
    let ghost n0 = nodes@;
    let ghost iset = index_set(idx@);
    proof {
        assert(iset.contains(idx@[0] as int));
        assert forall|j: int| #[trigger] iset.contains(j) implies 0 <= j < points@.len() && bounds.contains_spec(
            points@[j],
        ) by {
            let t = choose|t: int| 0 <= t < idx@.len() && idx@[t] as int == j;
        }
    }
    if idx.len() <= cap {
        let id = nodes.len();
        nodes.push(RegionNode { bounds, leaf: true, items: idx, kids: Vec::new() });
        let ghost s1 = sub.push(iset);
        proof {
            assert(s1[id as int].contains(idx@[0] as int));
            assert(rnode_ok(nodes@, s1, points@, id as int));
        }
        return (id, Ghost(s1));
    }
    let center = bounds.center_of();
    let count = B::child_count_exec();
    // all points in one orthant whose box is the whole box: splitting makes no progress
    let q0 = B::which(center, points[idx[0]]);
    proof {
        B::lemma_child_contains(bounds, points@[idx@[0] as int]);
    }
    let part0 = orthant_part::<B>(points, &idx, center, q0);
    let stuck = part0.len() == idx.len() && bounds.child(q0, center).same(&bounds);
    if stuck {
        let id = nodes.len();
        nodes.push(RegionNode { bounds, leaf: true, items: idx, kids: Vec::new() });
        let ghost s1 = sub.push(iset);
        proof {
            assert(s1[id as int].contains(idx@[0] as int));
            assert(rnode_ok(nodes@, s1, points@, id as int));
        }
        return (id, Ghost(s1));
    }
    let mut kids: Vec<Option<usize>> = Vec::new();
    let mut cur: Ghost<Seq<Set<int>>> = Ghost(sub);
    let mut q: usize = 0;
    while q < count
        invariant
            count as int == B::child_count(),
            q <= count,
            center == bounds.center_spec(),
            bounds.ordered(),
            idx@.no_duplicates(),
            idx@.len() > cap,
            iset == index_set(idx@),
            forall|t: int| 0 <= t < idx@.len() ==> (#[trigger] idx@[t]) < points@.len(),
            forall|t: int| 0 <= t < idx@.len() ==> bounds.contains_spec(points@[#[trigger] idx@[t] as int]),
            !(part0@.len() == idx@.len() && bounds.child_spec(q0 as int, center) == bounds),
            part0@.len() == idx@.len() ==> forall|t: int|
                0 <= t < idx@.len() ==> B::which_spec(center, #[trigger] points@[idx@[t] as int]) == q0,
            (forall|t: int| 0 <= t < idx@.len() ==> B::which_spec(center, #[trigger] points@[idx@[t] as int]) == q0)
                ==> part0@.len() == idx@.len(),
            q0 as int == B::which_spec(center, points@[idx@[0] as int]),
            nodes@.len() >= n0.len(),
            cur@.len() == nodes@.len(),
            kids@.len() == q,
            forall|x: int| 0 <= x < n0.len() ==> #[trigger] nodes@[x] == n0[x],
            forall|x: int| 0 <= x < n0.len() ==> #[trigger] cur@[x] == sub[x],
            forall|i: int| n0.len() <= i < nodes@.len() ==> #[trigger] rnode_ok(nodes@, cur@, points@, i),
            forall|i: int|
                n0.len() <= i < nodes@.len() ==> (#[trigger] nodes@[i]).leaf || forall|u: int|
                    0 <= u < nodes@[i].kids@.len() ==> (#[trigger] nodes@[i].kids@[u] matches Some(c) ==> n0.len()
                        <= c),
            forall|u: int|
                0 <= u < q ==> (#[trigger] kids@[u] matches Some(c) ==> n0.len() <= c < nodes@.len()),
            forall|u: int|
                0 <= u < q ==> opt_set(cur@, #[trigger] kids@[u]) == orth_set::<B::Pt, B>(
                    points@,
                    iset,
                    center,
                    u,
                ),
        decreases count - q,
    {
        let part = orthant_part::<B>(points, &idx, center, q);
        let ghost pset = orth_set::<B::Pt, B>(points@, iset, center, q as int);
        if part.len() > 0 {
            let cb = bounds.child(q, center);
            proof {
                B::lemma_child_shrinks(bounds, q as int);
                assert forall|t: int| 0 <= t < part@.len() implies cb.contains_spec(
                    points@[#[trigger] part@[t] as int],
                ) by {
                    assert(index_set(part@).contains(part@[t] as int));
                    let u = choose|u: int| 0 <= u < idx@.len() && idx@[u] as int == part@[t] as int;
                    B::lemma_child_contains(bounds, points@[idx@[u] as int]);
                }
                if cb.size() == bounds.size() {
                    assert(cb == bounds);
                    if part@.len() == idx@.len() {
                        // all points are in orthant q, so q is q0 and the guard held
                        assert(B::which_spec(center, points@[idx@[0] as int]) == q as int);
                        assert(part0@.len() == idx@.len());
                        assert(false);
                    }
                }
            }
            let ghost nb = nodes@;
            let ghost sb = cur@;
            let (id, s) = build_region(points, part, cb, cap, nodes, cur);
            proof {
                lemma_rnodes_kept(nb, sb, nodes@, s@, points@, n0.len() as int);
            }
            kids.push(Some(id));
            cur = s;
            proof {
                assert forall|u: int| 0 <= u < q + 1 implies opt_set(cur@, #[trigger] kids@[u]) == orth_set::<
                    B::Pt,
                    B,
                >(points@, iset, center, u) by {
                    if u < q {
                        if let Some(c) = kids@[u] {
                            assert(sb[c as int] == cur@[c as int]);
                        }
                    }
                }
            }
        } else {
            kids.push(None);
            proof {
                assert(pset =~= Set::empty()) by {
                    assert forall|j: int| !pset.contains(j) by {
                        if pset.contains(j) {
                            assert(index_set(part@).contains(j));
                        }
                    }
                }
            }
        }
        q = q + 1;
    }
    let id = nodes.len();
    let ghost nb = nodes@;
    let ghost sb = cur@;
    nodes.push(RegionNode { bounds, leaf: false, items: Vec::new(), kids });
    let ghost s1 = cur@.push(iset);
    proof {
        lemma_rnodes_kept(nb, sb, nodes@, s1, points@, n0.len() as int);
        let nd = nodes@[id as int];
        assert forall|j: int| #[trigger] s1[id as int].contains(j) <==> exists|u: int|
            0 <= u < nd.kids@.len() && #[trigger] opt_set(s1, nd.kids@[u]).contains(j) by {
            if iset.contains(j) {
                B::lemma_child_contains(bounds, points@[j]);
                let u = B::which_spec(center, points@[j]);
                assert(orth_set::<B::Pt, B>(points@, iset, center, u).contains(j));
                assert(opt_set(sb, nd.kids@[u]) == opt_set(s1, nd.kids@[u])) by {
                    if let Some(c) = nd.kids@[u] {
                        assert(c < nb.len());
                    }
                }
                assert(opt_set(s1, nd.kids@[u]).contains(j));
            }
            if exists|u: int| 0 <= u < nd.kids@.len() && #[trigger] opt_set(s1, nd.kids@[u]).contains(j) {
                let u = choose|u: int| 0 <= u < nd.kids@.len() && #[trigger] opt_set(s1, nd.kids@[u]).contains(j);
                assert(opt_set(sb, nd.kids@[u]) == opt_set(s1, nd.kids@[u])) by {
                    if let Some(c) = nd.kids@[u] {
                        assert(c < nb.len());
                    }
                }
                assert(orth_set::<B::Pt, B>(points@, iset, center, u).contains(j));
            }
        }
        assert forall|q1: int, q2: int, j: int|
            0 <= q1 < nd.kids@.len() && 0 <= q2 < nd.kids@.len() && q1 != q2 && #[trigger] opt_set(
                s1,
                nd.kids@[q1],
            ).contains(j) implies !#[trigger] opt_set(s1, nd.kids@[q2]).contains(j) by {
            assert(opt_set(sb, nd.kids@[q1]) == opt_set(s1, nd.kids@[q1])) by {
                if let Some(c) = nd.kids@[q1] {
                    assert(c < nb.len());
                }
            }
            assert(opt_set(sb, nd.kids@[q2]) == opt_set(s1, nd.kids@[q2])) by {
                if let Some(c) = nd.kids@[q2] {
                    assert(c < nb.len());
                }
            }
            assert(orth_set::<B::Pt, B>(points@, iset, center, q1).contains(j));
        }
        assert(s1[id as int].contains(idx@[0] as int));
        assert forall|j: int| #[trigger] s1[id as int].contains(j) implies 0 <= j < points@.len()
            && bounds.contains_spec(points@[j]) by {
            let t = choose|t: int| 0 <= t < idx@.len() && idx@[t] as int == j;
        }
        assert(rnode_ok(nodes@, s1, points@, id as int));
    }
    (id, Ghost(s1))
}


/// Swapping two adjacent entries keeps the elements and their distinctness.
proof fn lemma_swap_perm<A>(s: Seq<A>, t: Seq<A>, j: int)
    requires
        1 <= j < s.len(),
        t == s.update(j, s[j - 1]).update(j - 1, s[j]),
    ensures
        t.len() == s.len(),
        forall|x: A| t.contains(x) <==> s.contains(x),
        s.no_duplicates() ==> t.no_duplicates(),
{
    assert forall|x: A| t.contains(x) <==> s.contains(x) by {
        if s.contains(x) {
            let k = choose|k: int| 0 <= k < s.len() && s[k] == x;
            if k == j {
                assert(t[j - 1] == x);
            } else if k == j - 1 {
                assert(t[j] == x);
            } else {
                assert(t[k] == x);
            }
        }
        if t.contains(x) {
            let k = choose|k: int| 0 <= k < t.len() && t[k] == x;
            if k == j {
                assert(s[j - 1] == x);
            } else if k == j - 1 {
                assert(s[j] == x);
            } else {
                assert(s[k] == x);
            }
        }
    }
    if s.no_duplicates() {
        assert forall|a: int, b: int| 0 <= a < t.len() && 0 <= b < t.len() && a != b implies t[a] != t[b] by {
            let pa = if a == j {
                j - 1
            } else if a == j - 1 {
                j
            } else {
                a
            };
            let pb = if b == j {
                j - 1
            } else if b == j - 1 {
                j
            } else {
                b
            };
            assert(t[a] == s[pa] && t[b] == s[pb]);
        }
    }
}

/// Sorts by the second component, keeping the order of equal ones.
fn sort_by_distance(v: &mut Vec<(usize, i128)>)
    ensures
        final(v)@.len() == old(v)@.len(),
        forall|x: (usize, i128)| final(v)@.contains(x) <==> old(v)@.contains(x),
        old(v)@.no_duplicates() ==> final(v)@.no_duplicates(),
{
    let n = v.len();
    let mut i: usize = 1;
    while i < n
        invariant
            v@.len() == n,
            forall|x: (usize, i128)| v@.contains(x) <==> old(v)@.contains(x),
            old(v)@.no_duplicates() ==> v@.no_duplicates(),
        decreases n - i,
    {
        let mut j = i;
        while j > 0 && v[j - 1].1 > v[j].1
            invariant
                v@.len() == n,
                j <= i < n,
                forall|x: (usize, i128)| v@.contains(x) <==> old(v)@.contains(x),
                old(v)@.no_duplicates() ==> v@.no_duplicates(),
            decreases j,
        {
            let a = v[j - 1];
            let b = v[j];
            let ghost before = v@;
            v.set(j, a);
            v.set(j - 1, b);
            proof {
                lemma_swap_perm(before, v@, j as int);
            }
            j = j - 1;
        }
        i = i + 1;
    }
}

/// The first `t` indices of `s`, as a set of integers.
spec fn prefix_set(s: Seq<usize>, t: int) -> Set<int> {
    Set::new(|j: int| exists|u: int| 0 <= u < t && #[trigger] s[u] as int == j)
}

/// Squared distances of all points to the query, by point index.
spec fn point_dists<P: KdPoint>(pts: Seq<P>, q: P) -> Seq<int> {
    Seq::new(pts.len(), |j: int| pts[j].dist_spec(q))
}

impl<B: Region> RegionCore<B> {
    /// Every node is well formed and the root's subtree holds every point.
    pub(crate) closed spec fn wf(&self) -> bool {
        &&& self.sub@.len() == self.nodes@.len()
        &&& forall|i: int|
            0 <= i < self.nodes@.len() ==> #[trigger] rnode_ok(self.nodes@, self.sub@, self.points@, i)
        &&& match self.root {
            None => self.points@.len() == 0,
            Some(r) => r < self.nodes@.len() && self.sub@[r as int] == set_int_range(
                0,
                self.points@.len() as int,
            ),
        }
    }

    /// The points, in the order they were given.
    pub(crate) closed spec fn pts(&self) -> Seq<B::Pt> {
        self.points@
    }

    /// The tree's box.
    pub(crate) closed spec fn region(&self) -> B {
        self.bounds
    }

    /// Builds the tree with leaves of up to `cap` points; its box is the
    /// tight box around the points, or the origin box when there are none.
    pub(crate) fn build(points: &[B::Pt], cap: usize) -> (t: Self)
        ensures
            t.wf(),
            t.pts() == points@,
            points@.len() > 0 ==> t.region().is_bounding(points@),
            points@.len() == 0 ==> t.region() == B::origin_spec(),
    {
        let points_vec = vstd::slice::slice_to_vec(points);
        let n = points_vec.len();
        let mut nodes: Vec<RegionNode<B>> = Vec::new();
        if n == 0 {
            return RegionCore {
                nodes,
                points: points_vec,
                root: None,
                bounds: B::origin(),
                sub: Ghost(Seq::empty()),
            };
        }
        let bounds = B::bounding(&points_vec);
        let mut indices: Vec<usize> = Vec::new();
        let mut t: usize = 0;
        while t < n
            invariant
                t <= n,
                indices@.len() == t,
                forall|a: int| 0 <= a < t ==> #[trigger] indices@[a] == a,
            decreases n - t,
        {
            indices.push(t);
            t = t + 1;
        }
        proof {
            assert(index_set(indices@) =~= set_int_range(0, n as int)) by {
                assert forall|j: int| set_int_range(0, n as int).contains(j) implies index_set(indices@).contains(j) by {
                    assert(indices@[j] as int == j);
                }
            }
            assert forall|a: int| 0 <= a < n implies bounds.contains_spec(points_vec@[#[trigger] indices@[a] as int]) by {
                assert(bounds.contains_spec(points_vec@[a]));
            }
        }
        let (root, sub) = build_region(&points_vec, indices, bounds, cap, &mut nodes, Ghost(Seq::empty()));
        RegionCore { nodes, points: points_vec, root: Some(root), bounds, sub }
    }

    /// Squared distance from every point of the subtree at `i` to the query
    /// is at least that of the returned result, which is `best` or a strictly
    /// closer point of that subtree.
    fn nearest_rec(&self, i: usize, query: B::Pt, best: NearestResult) -> (r: NearestResult)
        requires
            self.wf(),
            i < self.nodes@.len(),
            forall|j: int| 0 <= j < self.points@.len() ==> #[trigger] self.points@[j].dist_spec(query) < i128::MAX,
        ensures
            r.distance_squared <= best.distance_squared,
            r == best || (r.point_idx < self.points@.len() && r.distance_squared == self.points@[r.point_idx as int].dist_spec(
                query,
            )),
            forall|j: int| #[trigger]
                self.sub@[i as int].contains(j) ==> r.distance_squared <= self.points@[j].dist_spec(query),
        decreases i,
    {
        proof {
            assert(rnode_ok(self.nodes@, self.sub@, self.points@, i as int));
        }
        let mut best = best;
        let ghost b0 = best;
        if self.nodes[i].leaf {
            let items = &self.nodes[i].items;
            let mut t: usize = 0;
            while t < items.len()
                invariant
                    self.wf(),
                    i < self.nodes@.len(),
                    items@ == self.nodes@[i as int].items@,
                    self.nodes@[i as int].leaf,
                    rnode_ok(self.nodes@, self.sub@, self.points@, i as int),
                    forall|j: int| 0 <= j < self.points@.len() ==> #[trigger] self.points@[j].dist_spec(query) < i128::MAX,
                    t <= items@.len(),
                    best.distance_squared <= b0.distance_squared,
                    best == b0 || (best.point_idx < self.points@.len() && best.distance_squared
                        == self.points@[best.point_idx as int].dist_spec(query)),
                    forall|u: int| 0 <= u < t ==> best.distance_squared <= self.points@[#[trigger] items@[u] as int].dist_spec(query),
                decreases items@.len() - t,
            {
                let idx = items[t];
                proof {
                    assert(index_set(items@).contains(idx as int));
                    assert(self.points@[idx as int].dist_spec(query) < i128::MAX);
                    <B::Pt as KdPoint>::lemma_dist_nonneg(self.points@[idx as int], query);
                }
                let dist = self.points[idx].dist(&query);
                if dist < best.distance_squared {
                    best = NearestResult { point_idx: idx, distance_squared: dist };
                }
                t = t + 1;
            }
            proof {
                assert forall|j: int| #[trigger] self.sub@[i as int].contains(j) implies best.distance_squared
                    <= self.points@[j].dist_spec(query) by {
                    let u = choose|u: int| 0 <= u < items@.len() && items@[u] as int == j;
                }
            }
        } else {
            let order = self.child_order(i, query);
            let kids = &self.nodes[i].kids;
            let mut t: usize = 0;
            while t < order.len()
                invariant
                    self.wf(),
                    i < self.nodes@.len(),
                    kids@ == self.nodes@[i as int].kids@,
                    !self.nodes@[i as int].leaf,
                    rnode_ok(self.nodes@, self.sub@, self.points@, i as int),
                    forall|j: int| 0 <= j < self.points@.len() ==> #[trigger] self.points@[j].dist_spec(query) < i128::MAX,
                    self.child_order_ok(i as int, query, order@),
                    t <= order@.len(),
                    best.distance_squared <= b0.distance_squared,
                    best == b0 || (best.point_idx < self.points@.len() && best.distance_squared
                        == self.points@[best.point_idx as int].dist_spec(query)),
                    forall|u: int, j: int|
                        0 <= u < t && #[trigger] opt_set(self.sub@, kids@[order@[u].0 as int]).contains(j)
                            ==> best.distance_squared <= self.points@[j].dist_spec(query),
                decreases order@.len() - t,
            {
                let (q, dq) = order[t];
                let c = kids[q].unwrap();
                let ghost bb = best;
                if dq < best.distance_squared {
                    best = self.nearest_rec(c, query, best);
                } else {
                    proof {
                        assert forall|j: int| #[trigger] self.sub@[c as int].contains(j) implies best.distance_squared
                            <= self.points@[j].dist_spec(query) by {
                            assert(rnode_ok(self.nodes@, self.sub@, self.points@, c as int));
                            B::lemma_box_dist(self.nodes@[c as int].bounds, self.points@[j], query);
                        }
                    }
                }
                t = t + 1;
            }
            proof {
                assert forall|j: int| #[trigger] self.sub@[i as int].contains(j) implies best.distance_squared
                    <= self.points@[j].dist_spec(query) by {
                    let q = choose|q: int| 0 <= q < kids@.len() && #[trigger] opt_set(self.sub@, kids@[q]).contains(j);
                    let u = choose|u: int| 0 <= u < order@.len() && order@[u].0 == q;
                    assert(opt_set(self.sub@, kids@[order@[u].0 as int]).contains(j));
                }
            }
        }
        best
    }

    /// `order` lists each child of internal node `i` once, with the squared
    /// distance from the query to its box.
    spec fn child_order_ok(&self, i: int, query: B::Pt, order: Seq<(usize, i128)>) -> bool {
        let kids = self.nodes@[i].kids@;
        &&& order.no_duplicates()
        &&& forall|u: int|
            0 <= u < order.len() ==> (#[trigger] order[u]).0 < kids.len() && kids[order[u].0 as int] is Some
                && order[u].1 == self.nodes@[kids[order[u].0 as int]->0 as int].bounds.box_dist_spec(query)
        &&& forall|q: int|
            0 <= q < kids.len() && #[trigger] kids[q] is Some ==> exists|u: int|
                0 <= u < order.len() && order[u].0 == q
    }

    /// The children of internal node `i` with the squared distances from the
    /// query to their boxes, nearest first.
    fn child_order(&self, i: usize, query: B::Pt) -> (order: Vec<(usize, i128)>)
        requires
            self.wf(),
            i < self.nodes@.len(),
            !self.nodes@[i as int].leaf,
            forall|j: int| 0 <= j < self.points@.len() ==> #[trigger] self.points@[j].dist_spec(query) < i128::MAX,
        ensures
            self.child_order_ok(i as int, query, order@),
    {
        proof {
            assert(rnode_ok(self.nodes@, self.sub@, self.points@, i as int));
        }
        let kids = &self.nodes[i].kids;
        let mut order: Vec<(usize, i128)> = Vec::new();
        let mut q: usize = 0;
        while q < kids.len()
            invariant
                self.wf(),
                i < self.nodes@.len(),
                kids@ == self.nodes@[i as int].kids@,
                !self.nodes@[i as int].leaf,
                rnode_ok(self.nodes@, self.sub@, self.points@, i as int),
                forall|j: int| 0 <= j < self.points@.len() ==> #[trigger] self.points@[j].dist_spec(query) < i128::MAX,
                q <= kids@.len(),
                order@.no_duplicates(),
                forall|u: int|
                    0 <= u < order@.len() ==> (#[trigger] order@[u]).0 < q && kids@[order@[u].0 as int] is Some
                        && order@[u].1 == self.nodes@[kids@[order@[u].0 as int]->0 as int].bounds.box_dist_spec(query),
                forall|p: int|
                    0 <= p < q && #[trigger] kids@[p] is Some ==> exists|u: int| 0 <= u < order@.len() && order@[u].0 == p,
            decreases kids@.len() - q,
        {
            if let Some(c) = kids[q] {
                proof {
                    assert(rnode_ok(self.nodes@, self.sub@, self.points@, c as int));
                    let w = choose|j: int| #[trigger] self.sub@[c as int].contains(j);
                    B::lemma_box_dist(self.nodes@[c as int].bounds, self.points@[w], query);
                }
                let dq = self.nodes[c].bounds.box_dist(query);
                let ghost before = order@;
                order.push((q, dq));
                proof {
                    assert(order@[before.len() as int].0 == q);
                    assert forall|a: int, b: int| 0 <= a < order@.len() && 0 <= b < order@.len() && a != b implies order@[a]
                        != order@[b] by {
                        if a == before.len() {
                            assert(before[b].0 < q);
                        } else if b == before.len() {
                            assert(before[a].0 < q);
                        }
                    }
                    assert forall|p: int| 0 <= p < q + 1 && #[trigger] kids@[p] is Some implies exists|u: int|
                        0 <= u < order@.len() && order@[u].0 == p by {
                        if p < q {
                            let u = choose|u: int| 0 <= u < before.len() && before[u].0 == p;
                            assert(order@[u].0 == p);
                        } else {
                            assert(order@[before.len() as int].0 == p);
                        }
                    }
                }
            }
            q = q + 1;
        }
        let ghost unsorted = order@;
        sort_by_distance(&mut order);
        proof {
            assert forall|u: int| 0 <= u < order@.len() implies (#[trigger] order@[u]).0 < kids@.len()
                && kids@[order@[u].0 as int] is Some && order@[u].1 == self.nodes@[kids@[order@[u].0 as int]->0 as int].bounds.box_dist_spec(
                query,
            ) by {
                assert(unsorted.contains(order@[u]));
            }
            assert forall|p: int| 0 <= p < kids@.len() && #[trigger] kids@[p] is Some implies exists|u: int|
                0 <= u < order@.len() && order@[u].0 == p by {
                let u = choose|u: int| 0 <= u < unsorted.len() && unsorted[u].0 == p;
                assert(unsorted.contains(unsorted[u]));
                assert(order@.contains(unsorted[u]));
                let w = choose|w: int| 0 <= w < order@.len() && order@[w] == unsorted[u];
            }
        }
        order
    }

    /// Offers every point of the subtree at `i` to the candidate list.
    fn k_nearest_rec(
        &self,
        i: usize,
        query: B::Pt,
        k: usize,
        c: &mut Vec<NearestResult>,
        Ghost(seen): Ghost<Set<int>>,
    )
        requires
            self.wf(),
            i < self.nodes@.len(),
            forall|j: int| 0 <= j < self.points@.len() ==> #[trigger] self.points@[j].dist_spec(query) < i128::MAX,
            k >= 1,
            knn_ok(old(c)@, k as int, seen, point_dists(self.points@, query)),
            seen.disjoint(self.sub@[i as int]),
        ensures
            knn_ok(final(c)@, k as int, seen.union(self.sub@[i as int]), point_dists(self.points@, query)),
        decreases i,
    {
        let ghost d = point_dists(self.points@, query);
        proof {
            assert(rnode_ok(self.nodes@, self.sub@, self.points@, i as int));
        }
        if self.nodes[i].leaf {
            let items = &self.nodes[i].items;
            let mut t: usize = 0;
            while t < items.len()
                invariant
                    self.wf(),
                    i < self.nodes@.len(),
                    items@ == self.nodes@[i as int].items@,
                    self.nodes@[i as int].leaf,
                    rnode_ok(self.nodes@, self.sub@, self.points@, i as int),
                    forall|j: int| 0 <= j < self.points@.len() ==> #[trigger] self.points@[j].dist_spec(query) < i128::MAX,
                    k >= 1,
                    d == point_dists(self.points@, query),
                    seen.disjoint(self.sub@[i as int]),
                    t <= items@.len(),
                    knn_ok(c@, k as int, seen.union(prefix_set(items@, t as int)), d),
                decreases items@.len() - t,
            {
                let idx = items[t];
                let ghost s0 = seen.union(prefix_set(items@, t as int));
                proof {
                    assert(index_set(items@).contains(idx as int));
                    <B::Pt as KdPoint>::lemma_dist_nonneg(self.points@[idx as int], query);
                    assert(!s0.contains(idx as int)) by {
                        if prefix_set(items@, t as int).contains(idx as int) {
                            let u = choose|u: int| 0 <= u < t && #[trigger] items@[u] as int == idx as int;
                            assert(items@[u] == items@[t as int]);
                        }
                    }
                }
                let dist = self.points[idx].dist(&query);
                offer(c, k, idx, dist, Ghost(s0), Ghost(d));
                proof {
                    assert(s0.insert(idx as int) =~= seen.union(prefix_set(items@, t + 1))) by {
                        assert forall|j: int| prefix_set(items@, t + 1).contains(j) implies prefix_set(items@, t as int).contains(j)
                            || j == idx by {
                            let u = choose|u: int| 0 <= u < t + 1 && #[trigger] items@[u] as int == j;
                            if u < t {
                                assert(prefix_set(items@, t as int).contains(j));
                            }
                        }
                        assert(prefix_set(items@, t + 1).contains(idx as int)) by {
                            assert(items@[t as int] as int == idx as int);
                        }
                    }
                }
                t = t + 1;
            }
            proof {
                assert(prefix_set(items@, items@.len() as int) =~= index_set(items@));
            }
        } else {
            let order = self.child_order(i, query);
            let kids = &self.nodes[i].kids;
            let ghost done0: Set<int> = Set::empty();
            let mut t: usize = 0;
            while t < order.len()
                invariant
                    self.wf(),
                    i < self.nodes@.len(),
                    kids@ == self.nodes@[i as int].kids@,
                    !self.nodes@[i as int].leaf,
                    rnode_ok(self.nodes@, self.sub@, self.points@, i as int),
                    forall|j: int| 0 <= j < self.points@.len() ==> #[trigger] self.points@[j].dist_spec(query) < i128::MAX,
                    k >= 1,
                    d == point_dists(self.points@, query),
                    seen.disjoint(self.sub@[i as int]),
                    self.child_order_ok(i as int, query, order@),
                    t <= order@.len(),
                    knn_ok(c@, k as int, seen.union(self.done_set(i as int, order@, t as int)), d),
                decreases order@.len() - t,
            {
                let (q, dq) = order[t];
                let ch = kids[q].unwrap();
                let ghost s0 = seen.union(self.done_set(i as int, order@, t as int));
                let ghost cset = self.sub@[ch as int];
                proof {
                    assert(rnode_ok(self.nodes@, self.sub@, self.points@, ch as int));
                    assert(opt_set(self.sub@, kids@[q as int]) == cset);
                    assert(s0.disjoint(cset)) by {
                        assert forall|j: int| s0.contains(j) implies !cset.contains(j) by {
                            if cset.contains(j) {
                                assert(self.sub@[i as int].contains(j));
                                if self.done_set(i as int, order@, t as int).contains(j) {
                                    let u = choose|u: int| 0 <= u < t && #[trigger] opt_set(self.sub@, kids@[order@[u].0 as int]).contains(j);
                                    assert(order@[u] != order@[t as int]);
                                    assert(order@[u].0 != q) by {
                                        if order@[u].0 == q {
                                            assert(order@[u].1 == order@[t as int].1);
                                        }
                                    }
                                }
                            }
                        }
                    }
                    assert(seen.union(self.done_set(i as int, order@, t + 1)) =~= s0.union(cset)) by {
                        assert forall|j: int| self.done_set(i as int, order@, t + 1).contains(j) <==> (self.done_set(
                            i as int,
                            order@,
                            t as int,
                        ).contains(j) || cset.contains(j)) by {
                            if cset.contains(j) {
                                assert(opt_set(self.sub@, kids@[order@[t as int].0 as int]).contains(j));
                            }
                            if self.done_set(i as int, order@, t + 1).contains(j) {
                                let u = choose|u: int| 0 <= u < t + 1 && #[trigger] opt_set(self.sub@, kids@[order@[u].0 as int]).contains(j);
                                if u < t {
                                } else {
                                    assert(u == t);
                                }
                            }
                        }
                    }
                }
                let n = c.len();
                if n < k || dq < c[n - 1].distance_squared {
                    self.k_nearest_rec(ch, query, k, c, Ghost(s0));
                } else {
                    proof {
                        assert forall|j: int| #[trigger] cset.contains(j) implies c@.last().distance_squared <= d[j] by {
                            B::lemma_box_dist(self.nodes@[ch as int].bounds, self.points@[j], query);
                        }
                        lemma_skip_far(c@, k as int, s0, cset, d);
                    }
                }
                t = t + 1;
            }
            proof {
                assert(self.done_set(i as int, order@, order@.len() as int) =~= self.sub@[i as int]) by {
                    assert forall|j: int| #[trigger] self.sub@[i as int].contains(j) implies self.done_set(
                        i as int,
                        order@,
                        order@.len() as int,
                    ).contains(j) by {
                        let q = choose|q: int| 0 <= q < kids@.len() && #[trigger] opt_set(self.sub@, kids@[q]).contains(j);
                        let u = choose|u: int| 0 <= u < order@.len() && order@[u].0 == q;
                        assert(opt_set(self.sub@, kids@[order@[u].0 as int]).contains(j));
                    }
                }
            }
        }
    }

    /// Points of the children at `order[..t]` of internal node `i`.
    spec fn done_set(&self, i: int, order: Seq<(usize, i128)>, t: int) -> Set<int> {
        Set::new(
            |j: int|
                exists|u: int|
                    0 <= u < t && #[trigger] opt_set(self.sub@, self.nodes@[i].kids@[order[u].0 as int]).contains(j),
        )
    }

    /// Appends the indices of the points of the subtree at `i` that lie in
    /// the query box.
    fn range_rec(&self, i: usize, query: B, results: &mut Vec<usize>)
        requires
            self.wf(),
            i < self.nodes@.len(),
            old(results)@.no_duplicates(),
            forall|x: usize| #[trigger] old(results)@.contains(x) ==> !self.sub@[i as int].contains(x as int),
        ensures
            final(results)@.no_duplicates(),
            forall|x: usize| #[trigger]
                final(results)@.contains(x) <==> old(results)@.contains(x) || (self.sub@[i as int].contains(
                    x as int,
                ) && query.contains_spec(self.points@[x as int])),
        decreases i,
    {
        proof {
            assert(rnode_ok(self.nodes@, self.sub@, self.points@, i as int));
        }
        let ghost r0 = results@;
        if self.nodes[i].leaf {
            let items = &self.nodes[i].items;
            let mut t: usize = 0;
            while t < items.len()
                invariant
                    self.wf(),
                    i < self.nodes@.len(),
                    items@ == self.nodes@[i as int].items@,
                    self.nodes@[i as int].leaf,
                    rnode_ok(self.nodes@, self.sub@, self.points@, i as int),
                    t <= items@.len(),
                    r0.no_duplicates(),
                    forall|x: usize| #[trigger] r0.contains(x) ==> !self.sub@[i as int].contains(x as int),
                    results@.no_duplicates(),
                    forall|x: usize| #[trigger]
                        results@.contains(x) <==> r0.contains(x) || (prefix_set(items@, t as int).contains(x as int)
                            && query.contains_spec(self.points@[x as int])),
                decreases items@.len() - t,
            {
                let idx = items[t];
                proof {
                    assert(index_set(items@).contains(idx as int));
                }
                let inside = query.contains_pt(self.points[idx]);
                let ghost before = results@;
                if inside {
                    proof {
                        assert(!before.contains(idx)) by {
                            if before.contains(idx) {
                                if r0.contains(idx) {
                                } else {
                                    let u = choose|u: int| 0 <= u < t && #[trigger] items@[u] as int == idx as int;
                                    assert(items@[u] == items@[t as int]);
                                }
                            }
                        }
                    }
                    results.push(idx);
                    proof {
                        assert forall|a: int, b: int| 0 <= a < results@.len() && 0 <= b < results@.len() && a != b implies results@[a]
                            != results@[b] by {
                            if a == before.len() {
                                assert(before.contains(results@[b]));
                            } else if b == before.len() {
                                assert(before.contains(results@[a]));
                            }
                        }
                    }
                }
                proof {
                    assert forall|x: usize| #[trigger] results@.contains(x) <==> r0.contains(x) || (prefix_set(
                        items@,
                        t + 1,
                    ).contains(x as int) && query.contains_spec(self.points@[x as int])) by {
                        if prefix_set(items@, t + 1).contains(x as int) {
                            let u = choose|u: int| 0 <= u < t + 1 && #[trigger] items@[u] as int == x as int;
                            if u < t {
                                assert(prefix_set(items@, t as int).contains(x as int));
                            }
                        }
                        if prefix_set(items@, t as int).contains(x as int) {
                            let u = choose|u: int| 0 <= u < t && #[trigger] items@[u] as int == x as int;
                            assert(prefix_set(items@, t + 1).contains(x as int));
                        }
                        if x == idx {
                            assert(items@[t as int] as int == x as int);
                            assert(prefix_set(items@, t + 1).contains(x as int));
                        }
                        if inside {
                            if results@.contains(x) && !before.contains(x) {
                                let a = choose|a: int| 0 <= a < results@.len() && results@[a] == x;
                                assert(a == before.len());
                            }
                            if before.contains(x) {
                                let a = choose|a: int| 0 <= a < before.len() && before[a] == x;
                                assert(results@[a] == x);
                            }
                            if x == idx {
                                assert(results@[before.len() as int] == x);
                            }
                        }
                    }
                }
                t = t + 1;
            }
            proof {
                assert(prefix_set(items@, items@.len() as int) =~= index_set(items@));
            }
        } else {
            let kids = &self.nodes[i].kids;
            let mut q: usize = 0;
            while q < kids.len()
                invariant
                    self.wf(),
                    i < self.nodes@.len(),
                    kids@ == self.nodes@[i as int].kids@,
                    !self.nodes@[i as int].leaf,
                    rnode_ok(self.nodes@, self.sub@, self.points@, i as int),
                    q <= kids@.len(),
                    r0.no_duplicates(),
                    forall|x: usize| #[trigger] r0.contains(x) ==> !self.sub@[i as int].contains(x as int),
                    results@.no_duplicates(),
                    forall|x: usize| #[trigger]
                        results@.contains(x) <==> r0.contains(x) || (self.kids_set(i as int, q as int).contains(x as int)
                            && query.contains_spec(self.points@[x as int])),
                decreases kids@.len() - q,
            {
                let ghost before = results@;
                let ghost cset = opt_set(self.sub@, kids@[q as int]);
                proof {
                    assert(self.kids_set(i as int, q + 1) =~= self.kids_set(i as int, q as int).union(cset)) by {
                        assert forall|j: int| self.kids_set(i as int, q + 1).contains(j) implies self.kids_set(
                            i as int,
                            q as int,
                        ).contains(j) || cset.contains(j) by {
                            let u = choose|u: int| 0 <= u < q + 1 && #[trigger] opt_set(self.sub@, kids@[u]).contains(j);
                            if u < q {
                                assert(self.kids_set(i as int, q as int).contains(j));
                            }
                        }
                        assert forall|j: int| cset.contains(j) implies self.kids_set(i as int, q + 1).contains(j) by {
                            assert(opt_set(self.sub@, kids@[q as int]).contains(j));
                        }
                        assert forall|j: int| self.kids_set(i as int, q as int).contains(j) implies self.kids_set(
                            i as int,
                            q + 1,
                        ).contains(j) by {
                            let u = choose|u: int| 0 <= u < q && #[trigger] opt_set(self.sub@, kids@[u]).contains(j);
                        }
                    }
                    assert forall|x: usize| #[trigger] before.contains(x) implies !cset.contains(x as int) by {
                        if cset.contains(x as int) {
                            assert(self.sub@[i as int].contains(x as int));
                            if !r0.contains(x) {
                                let u = choose|u: int| 0 <= u < q && #[trigger] opt_set(self.sub@, kids@[u]).contains(x as int);
                                assert(u != q);
                            }
                        }
                    }
                }
                if let Some(ch) = kids[q] {
                    proof {
                        assert(cset == self.sub@[ch as int]);
                    }
                    if query.meets(&self.nodes[ch].bounds) {
                        self.range_rec(ch, query, results);
                    } else {
                        proof {
                            assert forall|j: int| #[trigger] cset.contains(j) implies !query.contains_spec(self.points@[j]) by {
                                assert(rnode_ok(self.nodes@, self.sub@, self.points@, ch as int));
                                if query.contains_spec(self.points@[j]) {
                                    B::lemma_meet(query, self.nodes@[ch as int].bounds, self.points@[j]);
                                }
                            }
                        }
                    }
                }
                q = q + 1;
            }
            proof {
                assert forall|x: usize| #[trigger] results@.contains(x) <==> r0.contains(x) || (self.sub@[i as int].contains(
                    x as int,
                ) && query.contains_spec(self.points@[x as int])) by {
                    if self.sub@[i as int].contains(x as int) {
                        let u = choose|u: int| 0 <= u < kids@.len() && #[trigger] opt_set(self.sub@, kids@[u]).contains(x as int);
                        assert(self.kids_set(i as int, kids@.len() as int).contains(x as int));
                    }
                    if self.kids_set(i as int, kids@.len() as int).contains(x as int) {
                        let u = choose|u: int| 0 <= u < kids@.len() && #[trigger] opt_set(self.sub@, kids@[u]).contains(x as int);
                    }
                }
            }
        }
    }

    /// Points of the children `0..q` of internal node `i`.
    spec fn kids_set(&self, i: int, q: int) -> Set<int> {
        Set::new(
            |j: int| exists|u: int| 0 <= u < q && #[trigger] opt_set(self.sub@, self.nodes@[i].kids@[u]).contains(j),
        )
    }

    /// The point nearest to `query`, if any.
    pub(crate) fn nearest(&self, query: B::Pt) -> (r: Option<NearestResult>)
        requires
            self.wf(),
            forall|j: int| 0 <= j < self.pts().len() ==> #[trigger] self.pts()[j].dist_spec(query) < i128::MAX,
        ensures
            r is None <==> self.pts().len() == 0,
            r matches Some(res) ==> {
                &&& res.point_idx < self.pts().len()
                &&& res.distance_squared == self.pts()[res.point_idx as int].dist_spec(query)
                &&& forall|j: int| 0 <= j < self.pts().len() ==> res.distance_squared <= #[trigger] self.pts()[j].dist_spec(query)
            },
    {
        proof {
            assert forall|j: int| 0 <= j < self.points@.len() implies #[trigger] self.points@[j].dist_spec(query) < i128::MAX by {
                assert(self.pts()[j].dist_spec(query) < i128::MAX);
            }
        }
        match self.root {
            None => None,
            Some(root) => {
                let start = NearestResult { point_idx: usize::MAX, distance_squared: i128::MAX };
                let res = self.nearest_rec(root, query, start);
                proof {
                    assert(rnode_ok(self.nodes@, self.sub@, self.points@, root as int));
                    let n = self.points@.len();
                    assert(set_int_range(0, n as int).contains(0int));
                    assert(self.points@[0].dist_spec(query) < i128::MAX);
                    assert forall|j: int| 0 <= j < n implies res.distance_squared <= #[trigger] self.points@[j].dist_spec(query) by {
                        assert(self.sub@[root as int].contains(j));
                    }
                }
                Some(res)
            },
        }
    }

    /// The `k` points nearest to `query`, closest first.
    pub(crate) fn k_nearest(&self, query: B::Pt, k: usize) -> (r: Vec<NearestResult>)
        requires
            self.wf(),
            forall|j: int| 0 <= j < self.pts().len() ==> #[trigger] self.pts()[j].dist_spec(query) < i128::MAX,
        ensures
            k == 0 ==> r@.len() == 0,
            k > 0 ==> r@.len() == if k < self.pts().len() {
                k as int
            } else {
                self.pts().len() as int
            },
            crate::algo::kdtree::sorted_results(r@),
            forall|a: int|
                0 <= a < r@.len() ==> (#[trigger] r@[a]).point_idx < self.pts().len() && r@[a].distance_squared
                    == self.pts()[r@[a].point_idx as int].dist_spec(query),
            k > 0 ==> forall|j: int|
                0 <= j < self.pts().len() && !listed(r@, j) ==> r@.last().distance_squared <= #[trigger] self.pts()[j].dist_spec(
                    query,
                ),
    {
        let mut c: Vec<NearestResult> = Vec::new();
        if k == 0 {
            return c;
        }
        let ghost d = point_dists(self.points@, query);
        let ghost n = self.points@.len() as int;
        proof {
            assert forall|j: int| 0 <= j < self.points@.len() implies #[trigger] self.points@[j].dist_spec(query) < i128::MAX by {
                assert(self.pts()[j].dist_spec(query) < i128::MAX);
            }
        }
        match self.root {
            None => {
                proof {
                    assert(knn_ok(c@, k as int, Set::empty(), d));
                    assert(set_int_range(0, n) =~= Set::empty());
                }
            },
            Some(root) => {
                proof {
                    assert(knn_ok(c@, k as int, Set::empty(), d));
                }
                self.k_nearest_rec(root, query, k, &mut c, Ghost(Set::empty()));
                proof {
                    assert(Set::<int>::empty().union(self.sub@[root as int]) =~= set_int_range(0, n));
                }
            },
        }
        proof {
            lemma_knn_complete(c@, k as int, n, d);
            assert forall|a: int| 0 <= a < c@.len() implies (#[trigger] c@[a]).point_idx < n && c@[a].distance_squared
                == self.points@[c@[a].point_idx as int].dist_spec(query) by {
                assert(c@[a].distance_squared == d[c@[a].point_idx as int]);
            }
            assert forall|j: int| 0 <= j < n && !listed(c@, j) implies c@.last().distance_squared
                <= #[trigger] self.points@[j].dist_spec(query) by {
                assert(set_int_range(0, n).contains(j));
            }
        }
        c
    }

    /// Indices of the points in the query box, each once.
    pub(crate) fn range_query(&self, query: B) -> (r: Vec<usize>)
        requires
            self.wf(),
        ensures
            r@.no_duplicates(),
            forall|x: usize| #[trigger] r@.contains(x) <==> x < self.pts().len() && query.contains_spec(self.pts()[x as int]),
    {
        let mut results: Vec<usize> = Vec::new();
        if let Some(root) = self.root {
            self.range_rec(root, query, &mut results);
            proof {
                assert forall|x: usize| #[trigger] results@.contains(x) <==> x < self.points@.len() && query.contains_spec(
                    self.points@[x as int],
                ) by {
                    if x < self.points@.len() {
                        assert(set_int_range(0, self.points@.len() as int).contains(x as int));
                    }
                }
            }
        }
        results
    }

    /// The number of points.
    pub(crate) fn len(&self) -> (r: usize)
        ensures
            r == self.pts().len(),
    {
        self.points.len()
    }

    /// The tree's box.
    pub(crate) fn region_exec(&self) -> (r: B)
        ensures
            r == self.region(),
    {
        self.bounds
    }

    /// The point at `idx`, if any.
    pub(crate) fn get_point(&self, idx: usize) -> (r: Option<&B::Pt>)
        ensures
            r == if idx < self.pts().len() {
                Some(&self.pts()[idx as int])
            } else {
                None
            },
    {
        if idx < self.points.len() {
            Some(&self.points[idx])
        } else {
            None
        }
    }
}

} // verus!
