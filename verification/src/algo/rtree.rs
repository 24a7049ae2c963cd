//! R-tree for spatial indexing of axis-aligned bounding boxes.
//!
//! R-trees index rectangles (bounding boxes), supporting range queries and
//! nearest-neighbor searches. Uses STR (Sort-Tile-Recursive) bulk loading.
use vstd::multiset::Multiset;
use vstd::prelude::*;

use crate::algo::quadtree::{bounds_center, bounds_contain, bounds_dist2, bounds_meet, Bounds};
use crate::Point2;

verus! {

/// Default maximum entries per node.
const DEFAULT_NODE_CAPACITY: usize = 16;

// ---------------------------------------------------------------------------
// Sort-Tile-Recursive packing
// ---------------------------------------------------------------------------

/// The smallest `s` with `s * s >= v`.
pub open spec fn is_ceil_sqrt(v: int, s: int) -> bool {
    s >= 0 && s * s >= v && (s == 0 || (s - 1) * (s - 1) < v)
}

/// Computes the smallest `s` with `s * s >= v`.
fn ceil_sqrt(v: usize) -> (s: usize)
    ensures
        is_ceil_sqrt(v as int, s as int),
        v >= 1 ==> 1 <= s <= v,
{
    if v == 0 {
        return 0;
    }
    // invariant: lo * lo < v <= hi * hi
    let mut lo: u128 = 0;
    let mut hi: u128 = v as u128;
    proof {
        assert(hi * hi >= v) by (nonlinear_arith)
            requires
                hi == v,
                v >= 1,
        ;
    }
    while hi - lo > 1
        invariant
            lo < hi <= v,
            lo * lo < v,
            hi * hi >= v,
            v >= 1,
        decreases hi - lo,
    {
        let mid = lo + (hi - lo) / 2;
        proof {
            assert(mid * mid <= hi * hi) by (nonlinear_arith)
                requires
                    0 <= mid <= hi,
            ;
            assert(hi * hi <= (v as int) * (v as int)) by (nonlinear_arith)
                requires
                    0 <= hi <= v,
            ;
            assert((v as int) * (v as int) <= 0xffff_ffff_ffff_ffff * 0xffff_ffff_ffff_ffff) by (nonlinear_arith)
                requires
                    0 <= v <= 0xffff_ffff_ffff_ffff,
            ;
        }
        if mid * mid >= v as u128 {
            hi = mid;
        } else {
            lo = mid;
        }
    }
    proof {
        assert(hi - 1 == lo);
    }
    hi as usize
}

/// `a > b` in lexicographic order.
fn lex_gt(a: (i64, i64), b: (i64, i64)) -> (r: bool)
    ensures
        r == (a.0 > b.0 || (a.0 == b.0 && a.1 > b.1)),
{
    a.0 > b.0 || (a.0 == b.0 && a.1 > b.1)
}

/// Swapping two adjacent entries keeps the elements and their distinctness.
proof fn lemma_swap_keeps<A>(s: Seq<A>, t: Seq<A>, j: int)
    requires
        1 <= j < s.len(),
        t == s.update(j, s[j - 1]).update(j - 1, s[j]),
    ensures
        t.len() == s.len(),
        forall|x: A| t.contains(x) <==> s.contains(x),
        s.no_duplicates() ==> t.no_duplicates(),
{
    assert forall|x: A| t.contains(x) <==> s.contains(x) by {
        if s.contains(x) {
            let k = choose|k: int| 0 <= k < s.len() && s[k] == x;
            if k == j {
                assert(t[j - 1] == x);
            } else if k == j - 1 {
                assert(t[j] == x);
            } else {
                assert(t[k] == x);
            }
        }
        if t.contains(x) {
            let k = choose|k: int| 0 <= k < t.len() && t[k] == x;
            if k == j {
                assert(s[j - 1] == x);
            } else if k == j - 1 {
                assert(s[j] == x);
            } else {
                assert(s[k] == x);
            }
        }
    }
    if s.no_duplicates() {
        assert forall|a: int, b: int| 0 <= a < t.len() && 0 <= b < t.len() && a != b implies t[a] != t[b] by {
            let pa = if a == j {
                j - 1
            } else if a == j - 1 {
                j
            } else {
                a
            };
            let pb = if b == j {
                j - 1
            } else if b == j - 1 {
                j
            } else {
                b
            };
            assert(t[a] == s[pa] && t[b] == s[pb]);
        }
    }
}

/// Sorts the positions `ord` by `keys`, keeping the order of equal keys.
fn stable_sort_by_key(ord: &mut Vec<usize>, keys: &Vec<(i64, i64)>)
    requires
        forall|t: int| 0 <= t < old(ord)@.len() ==> (#[trigger] old(ord)@[t]) < keys@.len(),
    ensures
        final(ord)@.len() == old(ord)@.len(),
        forall|x: usize| final(ord)@.contains(x) <==> old(ord)@.contains(x),
        old(ord)@.no_duplicates() ==> final(ord)@.no_duplicates(),
{
    let n = ord.len();
    let mut i: usize = 1;
    while i < n
        invariant
            ord@.len() == n,
            forall|x: usize| ord@.contains(x) <==> old(ord)@.contains(x),
            old(ord)@.no_duplicates() ==> ord@.no_duplicates(),
            forall|t: int| 0 <= t < ord@.len() ==> (#[trigger] ord@[t]) < keys@.len(),
        decreases n - i,
    {
        let mut j = i;
        while j > 0 && lex_gt(keys[ord[j - 1]], keys[ord[j]])
            invariant
                ord@.len() == n,
                j <= i < n,
                forall|x: usize| ord@.contains(x) <==> old(ord)@.contains(x),
                old(ord)@.no_duplicates() ==> ord@.no_duplicates(),
                forall|t: int| 0 <= t < ord@.len() ==> (#[trigger] ord@[t]) < keys@.len(),
            decreases j,
        {
            let a = ord[j - 1];
            let b = ord[j];
            let ghost before = ord@;
            ord.set(j, a);
            ord.set(j - 1, b);
            proof {
                lemma_swap_keeps(before, ord@, j as int);
                assert forall|t: int| 0 <= t < ord@.len() implies (#[trigger] ord@[t]) < keys@.len() by {
                    assert(before.contains(ord@[t]));
                }
            }
            j = j - 1;
        }
        i = i + 1;
    }
}

/// `ceil(a / b)` for `a >= 1`, without overflow.
fn ceil_div(a: usize, b: usize) -> (r: usize)
    requires
        a >= 1,
        b >= 1,
    ensures
        r == (a - 1) / (b as int) + 1,
        r >= 1,
        r <= a,
{
    proof {
        assert((a - 1) / (b as int) <= a - 1) by (nonlinear_arith)
            requires
                a >= 1,
                b >= 1,
        ;
    }
    (a - 1) / b + 1
}

/// Sort-Tile-Recursive grouping of the items `ord` (already in x order):
/// cut the order into `ceil(sqrt(ceil(m / cap)))` vertical slices of equal
/// size, order each slice by `key_y` (keeping ties in order), and cut it
/// into runs of `cap`. Every item lands in exactly one group, and there are
/// fewer groups than items.
fn str_groups(ord: &Vec<usize>, key_y: &Vec<(i64, i64)>, cap: usize) -> (groups: Vec<Vec<usize>>)
    requires
        cap >= 2,
        ord@.len() > cap,
        ord@.no_duplicates(),
        forall|t: int| 0 <= t < ord@.len() ==> (#[trigger] ord@[t]) < key_y@.len(),
    ensures
        1 <= groups@.len() < ord@.len(),
        forall|g: int|
            0 <= g < groups@.len() ==> 1 <= (#[trigger] groups@[g])@.len() <= cap && groups@[g]@.no_duplicates(),
        forall|g: int, t: int|
            0 <= g < groups@.len() && 0 <= t < groups@[g]@.len() ==> ord@.contains(#[trigger] groups@[g]@[t]),
        forall|x: usize| ord@.contains(x) ==> exists|g: int| 0 <= g < groups@.len() && #[trigger] groups@[g]@.contains(x),
        forall|g1: int, g2: int, x: usize|
            0 <= g1 < groups@.len() && 0 <= g2 < groups@.len() && g1 != g2 && #[trigger] groups@[g1]@.contains(x)
                ==> !#[trigger] groups@[g2]@.contains(x),
{
    let m = ord.len();
    let leaves_needed = ceil_div(m, cap);
    let slices = ceil_sqrt(leaves_needed);
    proof {
        // fewer slices than items, so the first slice holds at least two
        assert((m - 1) / (cap as int) <= (m - 1) / 2) by (nonlinear_arith)
            requires
                m >= 1,
                cap >= 2,
        ;
    }
    let per_slice = ceil_div(m, slices);
    proof {
        assert(per_slice >= 2) by (nonlinear_arith)
            requires
                per_slice == (m - 1) / (slices as int) + 1,
                1 <= slices < m,
        ;
    }
    let mut groups: Vec<Vec<usize>> = Vec::new();
    let mut start: usize = 0;
    while start < m
        invariant
            m == ord@.len(),
            m > cap >= 2,
            per_slice >= 2,
            ord@.no_duplicates(),
            forall|t: int| 0 <= t < ord@.len() ==> (#[trigger] ord@[t]) < key_y@.len(),
            start <= m,
            start == 0 ==> groups@.len() == 0,
            start > 0 ==> 1 <= groups@.len() <= start - 1,
            forall|g: int|
                0 <= g < groups@.len() ==> 1 <= (#[trigger] groups@[g])@.len() <= cap && groups@[g]@.no_duplicates(),
            forall|g: int, t: int|
                0 <= g < groups@.len() && 0 <= t < groups@[g]@.len() ==> ord@.subrange(0, start as int).contains(
                    #[trigger] groups@[g]@[t],
                ),
            forall|x: usize|
                ord@.subrange(0, start as int).contains(x) ==> exists|g: int|
                    0 <= g < groups@.len() && #[trigger] groups@[g]@.contains(x),
            forall|g1: int, g2: int, x: usize|
                0 <= g1 < groups@.len() && 0 <= g2 < groups@.len() && g1 != g2 && #[trigger] groups@[g1]@.contains(x)
                    ==> !#[trigger] groups@[g2]@.contains(x),
        decreases m - start,
    {
        let end = if m - start > per_slice {
            start + per_slice
        } else {
            m
        };
        let mut slice: Vec<usize> = Vec::new();
        let mut t = start;
        while t < end
            invariant
                start <= t <= end <= m == ord@.len(),
                slice@ == ord@.subrange(start as int, t as int),
            decreases end - t,
        {
            slice.push(ord[t]);
            t = t + 1;
        }
        proof {
            assert forall|a: int, b: int| 0 <= a < slice@.len() && 0 <= b < slice@.len() && a != b implies slice@[a]
                != slice@[b] by {
                assert(slice@[a] == ord@[start + a] && slice@[b] == ord@[start + b]);
            }
            assert forall|u: int| 0 <= u < slice@.len() implies (#[trigger] slice@[u]) < key_y@.len() by {
                assert(slice@[u] == ord@[start + u]);
            }
        }
        let ghost slice0 = slice@;
        stable_sort_by_key(&mut slice, key_y);
        let ghost gs0 = groups@;
        let mut c: usize = 0;
        while c < slice.len()
            invariant
                m == ord@.len(),
                m > cap >= 2,
                start < end <= m,
                end - start <= per_slice || end == m,
                start == 0 ==> end - start >= 2,
                slice@.len() == end - start,
                slice@.no_duplicates(),
                forall|x: usize| slice@.contains(x) <==> ord@.subrange(start as int, end as int).contains(x),
                ord@.no_duplicates(),
                c <= slice@.len(),
                groups@.len() >= gs0.len(),
                forall|g: int| 0 <= g < gs0.len() ==> #[trigger] groups@[g] == gs0[g],
                c == 0 ==> groups@.len() == gs0.len(),
                c > 0 && start == 0 ==> 1 <= groups@.len() <= c - 1,
                c > 0 && start > 0 ==> groups@.len() <= gs0.len() + c,
                start > 0 ==> 1 <= gs0.len() <= start - 1,
                start == 0 ==> gs0.len() == 0,
                forall|g: int|
                    0 <= g < groups@.len() ==> 1 <= (#[trigger] groups@[g])@.len() <= cap && groups@[g]@.no_duplicates(),
                forall|g: int, u: int|
                    0 <= g < gs0.len() && 0 <= u < groups@[g]@.len() ==> ord@.subrange(0, start as int).contains(
                        #[trigger] groups@[g]@[u],
                    ),
                forall|g: int, u: int|
                    gs0.len() <= g < groups@.len() && 0 <= u < groups@[g]@.len() ==> slice@.subrange(0, c as int).contains(
                        #[trigger] groups@[g]@[u],
                    ),
                forall|x: usize|
                    ord@.subrange(0, start as int).contains(x) ==> exists|g: int|
                        0 <= g < gs0.len() && #[trigger] groups@[g]@.contains(x),
                forall|x: usize|
                    slice@.subrange(0, c as int).contains(x) ==> exists|g: int|
                        gs0.len() <= g < groups@.len() && #[trigger] groups@[g]@.contains(x),
                forall|g1: int, g2: int, x: usize|
                    0 <= g1 < groups@.len() && 0 <= g2 < groups@.len() && g1 != g2 && #[trigger] groups@[g1]@.contains(x)
                        ==> !#[trigger] groups@[g2]@.contains(x),
            decreases slice@.len() - c,
        {
            let ce = if slice.len() - c > cap {
                c + cap
            } else {
                slice.len()
            };
            let mut chunk: Vec<usize> = Vec::new();
            let mut u = c;
            while u < ce
                invariant
                    c <= u <= ce <= slice@.len(),
                    chunk@ == slice@.subrange(c as int, u as int),
                decreases ce - u,
            {
                chunk.push(slice[u]);
                u = u + 1;
            }
            proof {
                assert forall|a: int, b: int| 0 <= a < chunk@.len() && 0 <= b < chunk@.len() && a != b implies chunk@[a]
                    != chunk@[b] by {
                    assert(chunk@[a] == slice@[c + a] && chunk@[b] == slice@[c + b]);
                }
            }
            let ghost gb = groups@;
            groups.push(chunk);
            proof {
                assert forall|g: int, v: int|
                    gs0.len() <= g < groups@.len() && 0 <= v < groups@[g]@.len() implies slice@.subrange(0, ce as int).contains(
                        #[trigger] groups@[g]@[v],
                    ) by {
                    if g < gb.len() {
                        assert(gb[g] == groups@[g]);
                        let w = choose|w: int| 0 <= w < c && slice@.subrange(0, c as int)[w] == groups@[g]@[v];
                        assert(slice@.subrange(0, ce as int)[w] == groups@[g]@[v]);
                    } else {
                        assert(groups@[g]@[v] == slice@[c + v]);
                        assert(slice@.subrange(0, ce as int)[c + v] == groups@[g]@[v]);
                    }
                }
                assert forall|x: usize| slice@.subrange(0, ce as int).contains(x) implies exists|g: int|
                    gs0.len() <= g < groups@.len() && #[trigger] groups@[g]@.contains(x) by {
                    let w = choose|w: int| 0 <= w < ce && slice@.subrange(0, ce as int)[w] == x;
                    if w < c {
                        assert(slice@.subrange(0, c as int)[w] == x);
                        assert(slice@.subrange(0, c as int).contains(x));
                        let g = choose|g: int| gs0.len() <= g < gb.len() && #[trigger] gb[g]@.contains(x);
                        assert(groups@[g] == gb[g]);
                    } else {
                        assert(chunk@[w - c] == x);
                        assert(groups@[gb.len() as int]@.contains(x));
                    }
                }
                assert forall|x: usize| ord@.subrange(0, start as int).contains(x) implies exists|g: int|
                    0 <= g < gs0.len() && #[trigger] groups@[g]@.contains(x) by {
                    let g = choose|g: int| 0 <= g < gs0.len() && #[trigger] gb[g]@.contains(x);
                    assert(groups@[g] == gb[g]);
                }
                assert forall|g: int, v: int|
                    0 <= g < gs0.len() && 0 <= v < groups@[g]@.len() implies ord@.subrange(0, start as int).contains(
                        #[trigger] groups@[g]@[v],
                    ) by {
                    assert(groups@[g] == gb[g]);
                }
                // the new chunk shares nothing with earlier groups
                assert forall|g1: int, g2: int, x: usize|
                    0 <= g1 < groups@.len() && 0 <= g2 < groups@.len() && g1 != g2 && #[trigger] groups@[g1]@.contains(
                        x,
                    ) implies !#[trigger] groups@[g2]@.contains(x) by {
                    if g1 < gb.len() && g2 < gb.len() {
                        assert(groups@[g1] == gb[g1] && groups@[g2] == gb[g2]);
                    } else {
                        let (gold, gnew) = if g1 < gb.len() {
                            (g1, g2)
                        } else {
                            (g2, g1)
                        };
                        if groups@[gold]@.contains(x) && groups@[gnew]@.contains(x) {
                            assert(groups@[gold] == gb[gold]);
                            let v = choose|v: int| 0 <= v < chunk@.len() && chunk@[v] == x;
                            assert(x == slice@[c + v]);
                            let v2 = choose|v2: int| 0 <= v2 < gb[gold]@.len() && gb[gold]@[v2] == x;
                            if gold < gs0.len() {
                                assert(ord@.subrange(0, start as int).contains(gb[gold]@[v2]));
                                let w = choose|w: int| 0 <= w < start && ord@.subrange(0, start as int)[w] == x;
                                assert(slice@.contains(x));
                                let w2 = choose|w2: int| 0 <= w2 < end - start && ord@.subrange(start as int, end as int)[w2] == x;
                                assert(ord@[w] == ord@[start + w2]);
                            } else {
                                assert(slice@.subrange(0, c as int).contains(gb[gold]@[v2]));
                                let w = choose|w: int| 0 <= w < c && slice@.subrange(0, c as int)[w] == x;
                                assert(slice@[w] == slice@[c + v]);
                            }
                        }
                    }
                }
                if start == 0 {
                    assert(groups@.len() <= ce - 1) by {
                        if c == 0 {
                            assert(ce >= 2);
                        }
                    }
                }
            }
            c = ce;
        }
        proof {
            assert(slice@.subrange(0, slice@.len() as int) =~= slice@);
            assert forall|g: int, v: int|
                0 <= g < groups@.len() && 0 <= v < groups@[g]@.len() implies ord@.subrange(0, end as int).contains(
                    #[trigger] groups@[g]@[v],
                ) by {
                if g < gs0.len() {
                    let w = choose|w: int| 0 <= w < start && ord@.subrange(0, start as int)[w] == groups@[g]@[v];
                    assert(ord@.subrange(0, end as int)[w] == groups@[g]@[v]);
                } else {
                    assert(slice@.contains(groups@[g]@[v]));
                    let w = choose|w: int| 0 <= w < end - start && ord@.subrange(start as int, end as int)[w] == groups@[g]@[v];
                    assert(ord@.subrange(0, end as int)[start + w] == groups@[g]@[v]);
                }
            }
            assert forall|x: usize| ord@.subrange(0, end as int).contains(x) implies exists|g: int|
                0 <= g < groups@.len() && #[trigger] groups@[g]@.contains(x) by {
                let w = choose|w: int| 0 <= w < end && ord@.subrange(0, end as int)[w] == x;
                if w < start {
                    assert(ord@.subrange(0, start as int)[w] == x);
                    assert(ord@.subrange(0, start as int).contains(x));
                } else {
                    assert(ord@.subrange(start as int, end as int)[w - start] == x);
                    assert(ord@.subrange(start as int, end as int).contains(x));
                    assert(slice@.contains(x));
                    assert(slice@.subrange(0, slice@.len() as int).contains(x));
                }
            }
        }
        start = end;
    }
    proof {
        assert(ord@.subrange(0, m as int) =~= ord@);
    }
    groups
}


// ---------------------------------------------------------------------------
// Entries, boxes and nodes
// ---------------------------------------------------------------------------

/// An entry in the R-tree (bounding box + data index).
#[derive(Debug, Clone, Copy, PartialEq, Eq)]
pub struct RTreeEntry {
    /// The bounding box of this entry.
    pub bounds: Bounds,
    /// Index into the original data array.
    pub data_idx: usize,
}

impl RTreeEntry {
    /// Creates a new R-tree entry.
    pub fn new(bounds: Bounds, data_idx: usize) -> (e: Self)
        ensures
            e.bounds == bounds,
            e.data_idx == data_idx,
    {
        Self { bounds, data_idx }
    }
}

/// Result of a nearest-neighbor query on the R-tree.
#[derive(Debug, Clone, Copy, PartialEq, Eq)]
pub struct RTreeNearestResult {
    /// Index of the entry in the original data array.
    pub data_idx: usize,
    /// Bounding box of the nearest entry.
    pub bounds: Bounds,
    /// Squared distance from the query point to the nearest point on the bounds.
    pub distance_squared: i128,
}

/// The smallest box holding both `a` and `b`.
pub open spec fn mbr_spec(a: Bounds, b: Bounds) -> Bounds {
    Bounds {
        min: Point2 {
            x: if a.min.x <= b.min.x {
                a.min.x
            } else {
                b.min.x
            },
            y: if a.min.y <= b.min.y {
                a.min.y
            } else {
                b.min.y
            },
        },
        max: Point2 {
            x: if a.max.x >= b.max.x {
                a.max.x
            } else {
                b.max.x
            },
            y: if a.max.y >= b.max.y {
                a.max.y
            } else {
                b.max.y
            },
        },
    }
}

/// Computes the minimum bounding rectangle containing both inputs.
fn mbr_union(a: &Bounds, b: &Bounds) -> (r: Bounds)
    ensures
        r == mbr_spec(*a, *b),
{
    let min_x = if a.min.x <= b.min.x {
        a.min.x
    } else {
        b.min.x
    };
    let min_y = if a.min.y <= b.min.y {
        a.min.y
    } else {
        b.min.y
    };
    let max_x = if a.max.x >= b.max.x {
        a.max.x
    } else {
        b.max.x
    };
    let max_y = if a.max.y >= b.max.y {
        a.max.y
    } else {
        b.max.y
    };
    Bounds::new(Point2::new(min_x, min_y), Point2::new(max_x, max_y))
}

/// `inner`'s corners lie inside `outer`'s, coordinate by coordinate.
pub open spec fn within(inner: Bounds, outer: Bounds) -> bool {
    outer.min.x <= inner.min.x && outer.min.y <= inner.min.y && inner.max.x <= outer.max.x && inner.max.y
        <= outer.max.y
}

/// `b` is the tightest box around the boxes of `bs`.
pub open spec fn tight_over(b: Bounds, bs: Seq<Bounds>) -> bool {
    &&& forall|t: int| 0 <= t < bs.len() ==> within(#[trigger] bs[t], b)
    &&& exists|t: int| 0 <= t < bs.len() && #[trigger] bs[t].min.x == b.min.x
    &&& exists|t: int| 0 <= t < bs.len() && #[trigger] bs[t].min.y == b.min.y
    &&& exists|t: int| 0 <= t < bs.len() && #[trigger] bs[t].max.x == b.max.x
    &&& exists|t: int| 0 <= t < bs.len() && #[trigger] bs[t].max.y == b.max.y
}

/// The boxes of the entries of `es` at `pos`.
spec fn entry_boxes(es: Seq<RTreeEntry>, pos: Seq<usize>) -> Seq<Bounds> {
    pos.map_values(|p: usize| es[p as int].bounds)
}

/// A node: its box, and either entry positions (a leaf) or child nodes.
#[derive(Clone)]
struct RNode {
    bounds: Bounds,
    leaf: bool,
    items: Vec<usize>,
}

/// The boxes of the nodes of `ns` at `ids`.
spec fn node_boxes(ns: Seq<RNode>, ids: Seq<usize>) -> Seq<Bounds> {
    ids.map_values(|c: usize| ns[c as int].bounds)
}

/// The tightest box around the boxes `bs[0..]`, folded left to right.
fn fold_mbr(bs: &Vec<Bounds>) -> (r: Bounds)
    requires
        bs@.len() >= 1,
    ensures
        tight_over(r, bs@),
{
    let mut r = bs[0];
    let mut t: usize = 1;
    proof {
        let pre = bs@.subrange(0, 1);
        assert(pre[0] == r);
        assert(pre[0].min.x == r.min.x && pre[0].min.y == r.min.y);
        assert(pre[0].max.x == r.max.x && pre[0].max.y == r.max.y);
        assert forall|u: int| 0 <= u < pre.len() implies within(#[trigger] pre[u], r) by {
            assert(u == 0);
        }
    }
    while t < bs.len()
        invariant
            1 <= t <= bs@.len(),
            tight_over(r, bs@.subrange(0, t as int)),
        decreases bs@.len() - t,
    {
        let ghost before = r;
        let ghost pre = bs@.subrange(0, t as int);
        r = mbr_union(&r, &bs[t]);
        proof {
            let cur = bs@.subrange(0, t + 1);
            assert forall|u: int| 0 <= u < cur.len() implies within(#[trigger] cur[u], r) by {
                if u < t {
                    assert(cur[u] == pre[u]);
                }
            }
            let a = choose|u: int| 0 <= u < pre.len() && #[trigger] pre[u].min.x == before.min.x;
            let b = choose|u: int| 0 <= u < pre.len() && #[trigger] pre[u].min.y == before.min.y;
            let c = choose|u: int| 0 <= u < pre.len() && #[trigger] pre[u].max.x == before.max.x;
            let d = choose|u: int| 0 <= u < pre.len() && #[trigger] pre[u].max.y == before.max.y;
            assert(cur[a] == pre[a] && cur[b] == pre[b] && cur[c] == pre[c] && cur[d] == pre[d]);
            assert(cur[t as int] == bs@[t as int]);
        }
        t = t + 1;
    }
    proof {
        assert(bs@.subrange(0, bs@.len() as int) =~= bs@);
    }
    r
}

/// Node `i` is well formed: it holds at least one entry, its box is the
/// tightest box around its entries' boxes, and it is a leaf listing entry
/// positions once each or the disjoint union of distinct children stored
/// before it.
spec fn rt_node_ok(ns: Seq<RNode>, sub: Seq<Set<int>>, es: Seq<RTreeEntry>, i: int) -> bool {
    let nd = ns[i];
    &&& nd.items@.len() >= 1
    &&& nd.items@.no_duplicates()
    &&& forall|j: int| #[trigger] sub[i].contains(j) ==> 0 <= j < es.len() && within(es[j].bounds, nd.bounds)
    &&& exists|j: int| #[trigger] sub[i].contains(j) && es[j].bounds.min.x == nd.bounds.min.x
    &&& exists|j: int| #[trigger] sub[i].contains(j) && es[j].bounds.min.y == nd.bounds.min.y
    &&& exists|j: int| #[trigger] sub[i].contains(j) && es[j].bounds.max.x == nd.bounds.max.x
    &&& exists|j: int| #[trigger] sub[i].contains(j) && es[j].bounds.max.y == nd.bounds.max.y
    &&& if nd.leaf {
        sub[i] == crate::algo::kdtree::index_set(nd.items@)
    } else {
        &&& forall|t: int| 0 <= t < nd.items@.len() ==> (#[trigger] nd.items@[t]) < i
        &&& forall|j: int| #[trigger]
            sub[i].contains(j) <==> exists|t: int| 0 <= t < nd.items@.len() && #[trigger] sub[nd.items@[t] as int].contains(j)
        &&& forall|t1: int, t2: int, j: int|
            0 <= t1 < nd.items@.len() && 0 <= t2 < nd.items@.len() && t1 != t2 && #[trigger] sub[nd.items@[t1] as int].contains(
                j,
            ) ==> !#[trigger] sub[nd.items@[t2] as int].contains(j)
    }
}


/// Points of the nodes listed in `ids`.
spec fn union_of(sub: Seq<Set<int>>, ids: Seq<usize>) -> Set<int> {
    Set::new(|j: int| exists|t: int| 0 <= t < ids.len() && #[trigger] sub[ids[t] as int].contains(j))
}

/// The nodes listed in `ids` hold pairwise disjoint sets of entries.
spec fn disjoint_at(sub: Seq<Set<int>>, ids: Seq<usize>) -> bool {
    forall|t1: int, t2: int, j: int|
        0 <= t1 < ids.len() && 0 <= t2 < ids.len() && t1 != t2 && #[trigger] sub[ids[t1] as int].contains(j)
            ==> !#[trigger] sub[ids[t2] as int].contains(j)
}

/// All nodes of `ns` are well formed.
spec fn all_ok(ns: Seq<RNode>, sub: Seq<Set<int>>, es: Seq<RTreeEntry>) -> bool {
    &&& sub.len() == ns.len()
    &&& forall|i: int| 0 <= i < ns.len() ==> #[trigger] rt_node_ok(ns, sub, es, i)
}

/// Appending a node keeps the earlier nodes well formed.
proof fn lemma_rt_kept(n1: Seq<RNode>, s1: Seq<Set<int>>, nd: RNode, st: Set<int>, es: Seq<RTreeEntry>)
    requires
        all_ok(n1, s1, es),
    ensures
        forall|i: int| 0 <= i < n1.len() ==> #[trigger] rt_node_ok(n1.push(nd), s1.push(st), es, i),
{
    let n2 = n1.push(nd);
    let s2 = s1.push(st);
    assert forall|i: int| 0 <= i < n1.len() implies #[trigger] rt_node_ok(n2, s2, es, i) by {
        assert(rt_node_ok(n1, s1, es, i));
        assert(n2[i] == n1[i]);
        assert(s2[i] == s1[i]);
        let nd1 = n1[i];
        if !nd1.leaf {
            assert forall|t: int| 0 <= t < nd1.items@.len() implies s2[nd1.items@[t] as int] == s1[nd1.items@[t] as int] by {
                assert(nd1.items@[t] < i);
            }
            assert forall|j: int| #[trigger] s2[i].contains(j) <==> exists|t: int|
                0 <= t < nd1.items@.len() && #[trigger] s2[nd1.items@[t] as int].contains(j) by {
                if s1[i].contains(j) {
                    let t = choose|t: int| 0 <= t < nd1.items@.len() && #[trigger] s1[nd1.items@[t] as int].contains(j);
                    assert(s2[nd1.items@[t] as int].contains(j));
                }
                if exists|t: int| 0 <= t < nd1.items@.len() && #[trigger] s2[nd1.items@[t] as int].contains(j) {
                    let t = choose|t: int| 0 <= t < nd1.items@.len() && #[trigger] s2[nd1.items@[t] as int].contains(j);
                    assert(s1[nd1.items@[t] as int].contains(j));
                }
            }
            assert forall|t1: int, t2: int, j: int|
                0 <= t1 < nd1.items@.len() && 0 <= t2 < nd1.items@.len() && t1 != t2 && #[trigger] s2[nd1.items@[t1] as int].contains(
                    j,
                ) implies !#[trigger] s2[nd1.items@[t2] as int].contains(j) by {
                assert(s1[nd1.items@[t1] as int].contains(j));
            }
        }
        let w1 = choose|j: int| #[trigger] s1[i].contains(j) && es[j].bounds.min.x == nd1.bounds.min.x;
        let w2 = choose|j: int| #[trigger] s1[i].contains(j) && es[j].bounds.min.y == nd1.bounds.min.y;
        let w3 = choose|j: int| #[trigger] s1[i].contains(j) && es[j].bounds.max.x == nd1.bounds.max.x;
        let w4 = choose|j: int| #[trigger] s1[i].contains(j) && es[j].bounds.max.y == nd1.bounds.max.y;
        assert(s2[i].contains(w1) && s2[i].contains(w2) && s2[i].contains(w3) && s2[i].contains(w4));
    }
}

/// Appends a leaf holding the entry positions `items`.
fn push_leaf(
    es: &Vec<RTreeEntry>,
    items: Vec<usize>,
    nodes: &mut Vec<RNode>,
    Ghost(sub): Ghost<Seq<Set<int>>>,
) -> (r: (usize, Ghost<Seq<Set<int>>>))
    requires
        items@.len() >= 1,
        items@.no_duplicates(),
        forall|t: int| 0 <= t < items@.len() ==> (#[trigger] items@[t]) < es@.len(),
        all_ok(old(nodes)@, sub, es@),
    ensures
        r.0 == old(nodes)@.len(),
        final(nodes)@ == old(nodes)@.push(final(nodes)@[r.0 as int]),
        r.1@ == sub.push(crate::algo::kdtree::index_set(items@)),
        all_ok(final(nodes)@, r.1@, es@),
{
    let mut bs: Vec<Bounds> = Vec::new();
    let mut t: usize = 0;
    while t < items.len()
        invariant
            t <= items@.len(),
            forall|u: int| 0 <= u < items@.len() ==> (#[trigger] items@[u]) < es@.len(),
            bs@ == entry_boxes(es@, items@).subrange(0, t as int),
        decreases items@.len() - t,
    {
        bs.push(es[items[t]].bounds);
        t = t + 1;
    }
    proof {
        assert(bs@ =~= entry_boxes(es@, items@));
    }
    let mbr = fold_mbr(&bs);
    let id = nodes.len();
    let ghost n1 = nodes@;
    let ghost iset = crate::algo::kdtree::index_set(items@);
    let ghost items_v = items@;
    let nd = RNode { bounds: mbr, leaf: true, items };
    nodes.push(nd);
    let ghost s2 = sub.push(iset);
    proof {
        lemma_rt_kept(n1, sub, nd, iset, es@);
        assert forall|j: int| #[trigger] iset.contains(j) implies 0 <= j < es@.len() && within(es@[j].bounds, mbr) by {
            let u = choose|u: int| 0 <= u < items_v.len() && items_v[u] as int == j;
            assert(bs@[u] == es@[j].bounds);
        }
        let a = choose|u: int| 0 <= u < bs@.len() && #[trigger] bs@[u].min.x == mbr.min.x;
        let b = choose|u: int| 0 <= u < bs@.len() && #[trigger] bs@[u].min.y == mbr.min.y;
        let c = choose|u: int| 0 <= u < bs@.len() && #[trigger] bs@[u].max.x == mbr.max.x;
        let d = choose|u: int| 0 <= u < bs@.len() && #[trigger] bs@[u].max.y == mbr.max.y;
        assert(iset.contains(items_v[a] as int) && iset.contains(items_v[b] as int));
        assert(iset.contains(items_v[c] as int) && iset.contains(items_v[d] as int));
        assert(bs@[a] == es@[items_v[a] as int].bounds && bs@[b] == es@[items_v[b] as int].bounds);
        assert(bs@[c] == es@[items_v[c] as int].bounds && bs@[d] == es@[items_v[d] as int].bounds);
        assert(nodes@[id as int] == nd);
        assert(s2[id as int] == iset);
        assert(s2[id as int].contains(items_v[a] as int) && es@[items_v[a] as int].bounds.min.x == nd.bounds.min.x);
        assert(s2[id as int].contains(items_v[b] as int) && es@[items_v[b] as int].bounds.min.y == nd.bounds.min.y);
        assert(s2[id as int].contains(items_v[c] as int) && es@[items_v[c] as int].bounds.max.x == nd.bounds.max.x);
        assert(s2[id as int].contains(items_v[d] as int) && es@[items_v[d] as int].bounds.max.y == nd.bounds.max.y);
        assert(rt_node_ok(nodes@, s2, es@, id as int));
    }
    (id, Ghost(s2))
}

/// Appends an internal node over the distinct, disjoint nodes `kids`.
fn push_internal(
    es: &Vec<RTreeEntry>,
    kids: Vec<usize>,
    nodes: &mut Vec<RNode>,
    Ghost(sub): Ghost<Seq<Set<int>>>,
) -> (r: (usize, Ghost<Seq<Set<int>>>))
    requires
        kids@.len() >= 1,
        kids@.no_duplicates(),
        forall|t: int| 0 <= t < kids@.len() ==> (#[trigger] kids@[t]) < old(nodes)@.len(),
        all_ok(old(nodes)@, sub, es@),
        disjoint_at(sub, kids@),
    ensures
        r.0 == old(nodes)@.len(),
        final(nodes)@ == old(nodes)@.push(final(nodes)@[r.0 as int]),
        r.1@ == sub.push(union_of(sub, kids@)),
        all_ok(final(nodes)@, r.1@, es@),
{
    let mut bs: Vec<Bounds> = Vec::new();
    let mut t: usize = 0;
    while t < kids.len()
        invariant
            t <= kids@.len(),
            forall|u: int| 0 <= u < kids@.len() ==> (#[trigger] kids@[u]) < nodes@.len(),
            bs@ == node_boxes(nodes@, kids@).subrange(0, t as int),
        decreases kids@.len() - t,
    {
        bs.push(nodes[kids[t]].bounds);
        t = t + 1;
    }
    proof {
        assert(bs@ =~= node_boxes(nodes@, kids@));
    }
    let mbr = fold_mbr(&bs);
    let id = nodes.len();
    let ghost n1 = nodes@;
    let ghost uset = union_of(sub, kids@);
    let ghost kids_v = kids@;
    let nd = RNode { bounds: mbr, leaf: false, items: kids };
    nodes.push(nd);
    let ghost s2 = sub.push(uset);
    proof {
        lemma_rt_kept(n1, sub, nd, uset, es@);
        assert forall|t: int| 0 <= t < kids_v.len() implies s2[kids_v[t] as int] == sub[kids_v[t] as int] by {
        }
        assert forall|j: int| #[trigger] uset.contains(j) implies 0 <= j < es@.len() && within(es@[j].bounds, mbr) by {
            let u = choose|u: int| 0 <= u < kids_v.len() && #[trigger] sub[kids_v[u] as int].contains(j);
            assert(rt_node_ok(n1, sub, es@, kids_v[u] as int));
            assert(bs@[u] == n1[kids_v[u] as int].bounds);
        }
        assert forall|j: int| #[trigger] s2[id as int].contains(j) <==> exists|u: int|
            0 <= u < kids_v.len() && #[trigger] s2[kids_v[u] as int].contains(j) by {
            if uset.contains(j) {
                let u = choose|u: int| 0 <= u < kids_v.len() && #[trigger] sub[kids_v[u] as int].contains(j);
                assert(s2[kids_v[u] as int].contains(j));
            }
        }
        assert forall|t1: int, t2: int, j: int|
            0 <= t1 < kids_v.len() && 0 <= t2 < kids_v.len() && t1 != t2 && #[trigger] s2[kids_v[t1] as int].contains(
                j,
            ) implies !#[trigger] s2[kids_v[t2] as int].contains(j) by {
            assert(sub[kids_v[t1] as int].contains(j));
        }
        let a = choose|u: int| 0 <= u < bs@.len() && #[trigger] bs@[u].min.x == mbr.min.x;
        let b = choose|u: int| 0 <= u < bs@.len() && #[trigger] bs@[u].min.y == mbr.min.y;
        let c = choose|u: int| 0 <= u < bs@.len() && #[trigger] bs@[u].max.x == mbr.max.x;
        let d = choose|u: int| 0 <= u < bs@.len() && #[trigger] bs@[u].max.y == mbr.max.y;
        assert(rt_node_ok(n1, sub, es@, kids_v[a] as int));
        assert(rt_node_ok(n1, sub, es@, kids_v[b] as int));
        assert(rt_node_ok(n1, sub, es@, kids_v[c] as int));
        assert(rt_node_ok(n1, sub, es@, kids_v[d] as int));
        let wa = choose|j: int| #[trigger] sub[kids_v[a] as int].contains(j) && es@[j].bounds.min.x == n1[kids_v[a] as int].bounds.min.x;
        let wb = choose|j: int| #[trigger] sub[kids_v[b] as int].contains(j) && es@[j].bounds.min.y == n1[kids_v[b] as int].bounds.min.y;
        let wc = choose|j: int| #[trigger] sub[kids_v[c] as int].contains(j) && es@[j].bounds.max.x == n1[kids_v[c] as int].bounds.max.x;
        let wd = choose|j: int| #[trigger] sub[kids_v[d] as int].contains(j) && es@[j].bounds.max.y == n1[kids_v[d] as int].bounds.max.y;
        assert(uset.contains(wa) && uset.contains(wb) && uset.contains(wc) && uset.contains(wd));
        assert(bs@[a] == n1[kids_v[a] as int].bounds);
        assert(bs@[b] == n1[kids_v[b] as int].bounds);
        assert(bs@[c] == n1[kids_v[c] as int].bounds);
        assert(bs@[d] == n1[kids_v[d] as int].bounds);
        assert(nodes@[id as int] == nd);
        assert(s2[id as int] == uset);
        assert(s2[id as int].contains(wa) && es@[wa].bounds.min.x == nd.bounds.min.x);
        assert(s2[id as int].contains(wb) && es@[wb].bounds.min.y == nd.bounds.min.y);
        assert(s2[id as int].contains(wc) && es@[wc].bounds.max.x == nd.bounds.max.x);
        assert(s2[id as int].contains(wd) && es@[wd].bounds.max.y == nd.bounds.max.y);
        assert(nd.items@ == kids_v);
        assert forall|t1: int, t2: int, j: int|
            0 <= t1 < nd.items@.len() && 0 <= t2 < nd.items@.len() && t1 != t2 && #[trigger] s2[nd.items@[t1] as int].contains(
                j,
            ) implies !#[trigger] s2[nd.items@[t2] as int].contains(j) by {
            assert(s2[kids_v[t1] as int].contains(j));
        }
        assert(rt_node_ok(nodes@, s2, es@, id as int));
    }
    (id, Ghost(s2))
}


/// Center keys of the boxes of the nodes `level`: `(x, 0)` and `(y, 0)`.
fn center_keys(nodes: &Vec<RNode>, level: &Vec<usize>) -> (r: (Vec<(i64, i64)>, Vec<(i64, i64)>))
    requires
        forall|t: int| 0 <= t < level@.len() ==> (#[trigger] level@[t]) < nodes@.len(),
    ensures
        r.0@.len() == level@.len(),
        r.1@.len() == level@.len(),
{
    let mut kx: Vec<(i64, i64)> = Vec::new();
    let mut ky: Vec<(i64, i64)> = Vec::new();
    let mut t: usize = 0;
    while t < level.len()
        invariant
            t <= level@.len(),
            forall|u: int| 0 <= u < level@.len() ==> (#[trigger] level@[u]) < nodes@.len(),
            kx@.len() == t,
            ky@.len() == t,
        decreases level@.len() - t,
    {
        let c = nodes[level[t]].bounds.center();
        kx.push((c.x, 0));
        ky.push((c.y, 0));
        t = t + 1;
    }
    (kx, ky)
}

/// `0, 1, .., m - 1`.
fn identity_order(m: usize) -> (ord: Vec<usize>)
    ensures
        ord@.len() == m,
        forall|t: int| 0 <= t < m ==> #[trigger] ord@[t] == t,
        ord@.no_duplicates(),
{
    let mut ord: Vec<usize> = Vec::new();
    let mut t: usize = 0;
    while t < m
        invariant
            t <= m,
            ord@.len() == t,
            forall|u: int| 0 <= u < t ==> #[trigger] ord@[u] == u,
        decreases m - t,
    {
        ord.push(t);
        t = t + 1;
    }
    ord
}

/// One STR level above the distinct, disjoint nodes `level`: fewer nodes
/// holding the same entries.
fn build_level(
    es: &Vec<RTreeEntry>,
    level: &Vec<usize>,
    cap: usize,
    nodes: &mut Vec<RNode>,
    Ghost(sub): Ghost<Seq<Set<int>>>,
) -> (r: (Vec<usize>, Ghost<Seq<Set<int>>>))
    requires
        cap >= 2,
        level@.len() > cap,
        level@.no_duplicates(),
        forall|t: int| 0 <= t < level@.len() ==> (#[trigger] level@[t]) < old(nodes)@.len(),
        all_ok(old(nodes)@, sub, es@),
        disjoint_at(sub, level@),
    ensures
        1 <= r.0@.len() < level@.len(),
        r.0@.no_duplicates(),
        forall|t: int| 0 <= t < r.0@.len() ==> (#[trigger] r.0@[t]) < final(nodes)@.len(),
        all_ok(final(nodes)@, r.1@, es@),
        disjoint_at(r.1@, r.0@),
        union_of(r.1@, r.0@) == union_of(sub, level@),
        final(nodes)@.len() >= old(nodes)@.len(),
        forall|x: int| 0 <= x < old(nodes)@.len() ==> #[trigger] r.1@[x] == sub[x],
{
    let m = level.len();
    let (kx, ky) = center_keys(nodes, level);
    let mut ord = identity_order(m);
    let ghost ord0 = ord@;
    stable_sort_by_key(&mut ord, &kx);
    proof {
        assert forall|t: int| 0 <= t < ord@.len() implies (#[trigger] ord@[t]) < ky@.len() by {
            assert(ord0.contains(ord@[t]));
        }
        assert forall|p: usize| p < m implies ord@.contains(p) by {
            assert(ord0[p as int] == p);
        }
    }
    let groups = str_groups(&ord, &ky, cap);
    let ghost n0 = nodes@;
    let mut cur: Ghost<Seq<Set<int>>> = Ghost(sub);
    let mut new_level: Vec<usize> = Vec::new();
    let mut g: usize = 0;
    while g < groups.len()
        invariant
            m == level@.len(),
            level@.no_duplicates(),
            forall|t: int| 0 <= t < level@.len() ==> (#[trigger] level@[t]) < n0.len(),
            disjoint_at(sub, level@),
            1 <= groups@.len() < m,
            forall|h: int|
                0 <= h < groups@.len() ==> 1 <= (#[trigger] groups@[h])@.len() <= cap && groups@[h]@.no_duplicates(),
            forall|h: int, t: int|
                0 <= h < groups@.len() && 0 <= t < groups@[h]@.len() ==> ord@.contains(#[trigger] groups@[h]@[t]),
            forall|t: int| 0 <= t < ord@.len() ==> (#[trigger] ord@[t]) < m,
            forall|h1: int, h2: int, x: usize|
                0 <= h1 < groups@.len() && 0 <= h2 < groups@.len() && h1 != h2 && #[trigger] groups@[h1]@.contains(x)
                    ==> !#[trigger] groups@[h2]@.contains(x),
            g <= groups@.len(),
            nodes@.len() == n0.len() + g,
            new_level@.len() == g,
            forall|t: int| 0 <= t < g ==> #[trigger] new_level@[t] == n0.len() + t,
            all_ok(nodes@, cur@, es@),
            forall|x: int| 0 <= x < n0.len() ==> #[trigger] cur@[x] == sub[x],
            forall|t: int|
                0 <= t < g ==> #[trigger] cur@[n0.len() + t] == union_of(
                    sub,
                    groups@[t]@.map_values(|p: usize| level@[p as int]),
                ),
        decreases groups@.len() - g,
    {
        let grp = &groups[g];
        let mut kids: Vec<usize> = Vec::new();
        let mut t: usize = 0;
        proof {
            assert forall|u: int| 0 <= u < grp@.len() implies (#[trigger] grp@[u]) < m by {
                assert(ord@.contains(grp@[u]));
            }
        }
        while t < grp.len()
            invariant
                t <= grp@.len(),
                m == level@.len(),
                forall|u: int| 0 <= u < grp@.len() ==> (#[trigger] grp@[u]) < m,
                kids@ == grp@.map_values(|p: usize| level@[p as int]).subrange(0, t as int),
            decreases grp@.len() - t,
        {
            kids.push(level[grp[t]]);
            t = t + 1;
        }
        let ghost kv = grp@.map_values(|p: usize| level@[p as int]);
        proof {
            assert(kids@ =~= kv);
            assert(kids@.no_duplicates()) by {
                assert forall|a: int, b: int| 0 <= a < kids@.len() && 0 <= b < kids@.len() && a != b implies kids@[a]
                    != kids@[b] by {
                    assert(grp@[a] != grp@[b]);
                }
            }
            assert forall|u: int| 0 <= u < kids@.len() implies (#[trigger] kids@[u]) < nodes@.len() by {
                assert(kids@[u] == level@[grp@[u] as int]);
            }
            assert(disjoint_at(cur@, kids@)) by {
                assert forall|t1: int, t2: int, j: int|
                    0 <= t1 < kids@.len() && 0 <= t2 < kids@.len() && t1 != t2 && #[trigger] cur@[kids@[t1] as int].contains(
                        j,
                    ) implies !#[trigger] cur@[kids@[t2] as int].contains(j) by {
                    assert(kids@[t1] == level@[grp@[t1] as int]);
                    assert(kids@[t2] == level@[grp@[t2] as int]);
                    assert(cur@[kids@[t1] as int] == sub[kids@[t1] as int]);
                    assert(cur@[kids@[t2] as int] == sub[kids@[t2] as int]);
                    assert(grp@[t1] != grp@[t2]);
                }
            }
        }
        let ghost before = cur@;
        let ghost nb = nodes@;
        let (id, s) = push_internal(es, kids, nodes, cur);
        new_level.push(id);
        cur = s;
        proof {
            assert(union_of(before, kv) == union_of(sub, kv)) by {
                assert forall|u: int| 0 <= u < kv.len() implies before[kv[u] as int] == sub[kv[u] as int] by {
                    assert(kv[u] == level@[grp@[u] as int]);
                }
                assert forall|j: int| union_of(before, kv).contains(j) <==> union_of(sub, kv).contains(j) by {
                    if union_of(before, kv).contains(j) {
                        let u = choose|u: int| 0 <= u < kv.len() && #[trigger] before[kv[u] as int].contains(j);
                        assert(sub[kv[u] as int].contains(j));
                    }
                    if union_of(sub, kv).contains(j) {
                        let u = choose|u: int| 0 <= u < kv.len() && #[trigger] sub[kv[u] as int].contains(j);
                        assert(before[kv[u] as int].contains(j));
                    }
                }
                assert(union_of(before, kv) =~= union_of(sub, kv));
            }
            assert forall|t: int| 0 <= t < g + 1 implies #[trigger] cur@[n0.len() + t] == union_of(
                sub,
                groups@[t]@.map_values(|p: usize| level@[p as int]),
            ) by {
                if t < g {
                    assert(before[n0.len() + t] == cur@[n0.len() + t]);
                }
            }
        }
        g = g + 1;
    }
    proof {
        let k = groups@.len() as int;
        // the new nodes partition the entries of the old level
        assert forall|t1: int, t2: int, j: int|
            0 <= t1 < new_level@.len() && 0 <= t2 < new_level@.len() && t1 != t2 && #[trigger] cur@[new_level@[t1] as int].contains(
                j,
            ) implies !#[trigger] cur@[new_level@[t2] as int].contains(j) by {
            let kv1 = groups@[t1]@.map_values(|p: usize| level@[p as int]);
            let kv2 = groups@[t2]@.map_values(|p: usize| level@[p as int]);
            assert(cur@[n0.len() + t1] == union_of(sub, kv1));
            assert(cur@[n0.len() + t2] == union_of(sub, kv2));
            if cur@[new_level@[t2] as int].contains(j) {
                let u1 = choose|u: int| 0 <= u < kv1.len() && #[trigger] sub[kv1[u] as int].contains(j);
                let u2 = choose|u: int| 0 <= u < kv2.len() && #[trigger] sub[kv2[u] as int].contains(j);
                let p1 = groups@[t1]@[u1];
                let p2 = groups@[t2]@[u2];
                assert(groups@[t1]@.contains(p1));
                assert(groups@[t2]@.contains(p2));
                assert(p1 != p2);
                assert(ord@.contains(p1) && ord@.contains(p2));
                assert(sub[level@[p1 as int] as int].contains(j));
                assert(sub[level@[p2 as int] as int].contains(j));
            }
        }
        assert forall|j: int| union_of(cur@, new_level@).contains(j) <==> union_of(sub, level@).contains(j) by {
            if union_of(cur@, new_level@).contains(j) {
                let t = choose|t: int| 0 <= t < new_level@.len() && #[trigger] cur@[new_level@[t] as int].contains(j);
                let kv = groups@[t]@.map_values(|p: usize| level@[p as int]);
                assert(cur@[n0.len() + t] == union_of(sub, kv));
                let u = choose|u: int| 0 <= u < kv.len() && #[trigger] sub[kv[u] as int].contains(j);
                let p = groups@[t]@[u];
                assert(ord@.contains(p));
                assert(sub[level@[p as int] as int].contains(j));
            }
            if union_of(sub, level@).contains(j) {
                let p = choose|p: int| 0 <= p < level@.len() && #[trigger] sub[level@[p] as int].contains(j);
                assert(ord@.contains(p as usize));
                let h = choose|h: int| 0 <= h < groups@.len() && #[trigger] groups@[h]@.contains(p as usize);
                let u = choose|u: int| 0 <= u < groups@[h]@.len() && groups@[h]@[u] == p as usize;
                let kv = groups@[h]@.map_values(|q: usize| level@[q as int]);
                assert(kv[u] == level@[p]);
                assert(union_of(sub, kv).contains(j));
                assert(cur@[n0.len() + h] == union_of(sub, kv));
                assert(cur@[new_level@[h] as int].contains(j));
            }
        }
        assert(union_of(cur@, new_level@) =~= union_of(sub, level@));
    }
    (new_level, cur)
}


/// Builds the levels above the distinct, disjoint nodes `level` until one
/// root remains.
fn build_upper(
    es: &Vec<RTreeEntry>,
    level0: Vec<usize>,
    cap: usize,
    nodes: &mut Vec<RNode>,
    Ghost(sub): Ghost<Seq<Set<int>>>,
) -> (r: (usize, Ghost<Seq<Set<int>>>))
    requires
        cap >= 2,
        level0@.len() >= 2,
        level0@.no_duplicates(),
        forall|t: int| 0 <= t < level0@.len() ==> (#[trigger] level0@[t]) < old(nodes)@.len(),
        all_ok(old(nodes)@, sub, es@),
        disjoint_at(sub, level0@),
    ensures
        r.0 < final(nodes)@.len(),
        all_ok(final(nodes)@, r.1@, es@),
        r.1@[r.0 as int] == union_of(sub, level0@),
{
    let ghost target = union_of(sub, level0@);
    let mut level = level0;
    let mut cur: Ghost<Seq<Set<int>>> = Ghost(sub);
    loop
        invariant
            cap >= 2,
            level@.len() >= 2,
            level@.no_duplicates(),
            forall|t: int| 0 <= t < level@.len() ==> (#[trigger] level@[t]) < nodes@.len(),
            all_ok(nodes@, cur@, es@),
            disjoint_at(cur@, level@),
            union_of(cur@, level@) == target,
            target == union_of(sub, level0@),
        decreases level@.len(),
    {
        if level.len() <= cap {
            let ghost u = union_of(cur@, level@);
            let (id, s) = push_internal(es, level, nodes, cur);
            proof {
                assert(s@[id as int] == u);
            }
            return (id, s);
        }
        let (nl, s) = build_level(es, &level, cap, nodes, cur);
        if nl.len() == 1 {
            proof {
                assert forall|j: int| s@[nl@[0] as int].contains(j) <==> union_of(s@, nl@).contains(j) by {
                    if s@[nl@[0] as int].contains(j) {
                        assert(union_of(s@, nl@).contains(j));
                    }
                }
                assert(s@[nl@[0] as int] =~= union_of(s@, nl@));
                assert(s@[nl@[0] as int] == target);
            }
            return (nl[0], s);
        }
        level = nl;
        cur = s;
    }
}

/// An R-tree for spatial indexing of bounding boxes.
#[derive(Clone)]
pub struct RTree {
    entries: Vec<RTreeEntry>,
    nodes: Vec<RNode>,
    root: Option<usize>,
    sub: Ghost<Seq<Set<int>>>,
}

impl View for RTree {
    type V = Seq<RTreeEntry>;

    /// The entries, in the order they were given.
    closed spec fn view(&self) -> Seq<RTreeEntry> {
        self.entries@
    }
}

impl RTree {
    /// The tree's internal structure is sound.
    pub closed spec fn wf(&self) -> bool {
        &&& all_ok(self.nodes@, self.sub@, self.entries@)
        &&& match self.root {
            None => self.entries@.len() == 0,
            Some(r) => r < self.nodes@.len() && self.sub@[r as int] == vstd::set_lib::set_int_range(
                0,
                self.entries@.len() as int,
            ),
        }
    }

    /// Builds an R-tree from entries using STR bulk loading.
    pub fn new(entries: &[RTreeEntry]) -> (t: Self)
        ensures
            t.wf(),
            t@ == entries@,
    {
        Self::with_capacity(entries, DEFAULT_NODE_CAPACITY)
    }

    /// Builds an R-tree with a custom node capacity (at least 2).
    pub fn with_capacity(entries: &[RTreeEntry], capacity: usize) -> (t: Self)
        ensures
            t.wf(),
            t@ == entries@,
    {
        let es = vstd::slice::slice_to_vec(entries);
        let n = es.len();
        let mut nodes: Vec<RNode> = Vec::new();
        if n == 0 {
            return RTree { entries: es, nodes, root: None, sub: Ghost(Seq::empty()) };
        }
        let cap = if capacity < 2 {
            2
        } else {
            capacity
        };
        // STR: order by the x (then y) of the box centers
        let mut keys: Vec<(i64, i64)> = Vec::new();
        let mut ky: Vec<(i64, i64)> = Vec::new();
        let mut t: usize = 0;
        while t < n
            invariant
                t <= n == es@.len(),
                keys@.len() == t,
                ky@.len() == t,
            decreases n - t,
        {
            let c = es[t].bounds.center();
            keys.push((c.x, c.y));
            ky.push((c.y, 0));
            t = t + 1;
        }
        let mut ord = identity_order(n);
        let ghost ord0 = ord@;
        stable_sort_by_key(&mut ord, &keys);
        let ghost all = vstd::set_lib::set_int_range(0, n as int);
        proof {
            assert forall|u: int| 0 <= u < ord@.len() implies (#[trigger] ord@[u]) < n by {
                assert(ord0.contains(ord@[u]));
            }
            assert forall|p: usize| p < n implies ord@.contains(p) by {
                assert(ord0[p as int] == p);
            }
            assert(crate::algo::kdtree::index_set(ord@) =~= all) by {
                assert forall|j: int| all.contains(j) implies crate::algo::kdtree::index_set(ord@).contains(j) by {
                    assert(ord@.contains(j as usize));
                }
            }
        }
        if n <= cap {
            let (root, s) = push_leaf(&es, ord, &mut nodes, Ghost(Seq::empty()));
            return RTree { entries: es, nodes, root: Some(root), sub: s };
        }
        let groups = str_groups(&ord, &ky, cap);
        let mut level: Vec<usize> = Vec::new();
        let mut cur: Ghost<Seq<Set<int>>> = Ghost(Seq::empty());
        let mut g: usize = 0;
        while g < groups.len()
            invariant
                n == es@.len(),
                forall|u: int| 0 <= u < ord@.len() ==> (#[trigger] ord@[u]) < n,
                forall|h: int|
                    0 <= h < groups@.len() ==> 1 <= (#[trigger] groups@[h])@.len() && groups@[h]@.no_duplicates(),
                forall|h: int, u: int|
                    0 <= h < groups@.len() && 0 <= u < groups@[h]@.len() ==> ord@.contains(#[trigger] groups@[h]@[u]),
                g <= groups@.len(),
                nodes@.len() == g,
                level@.len() == g,
                forall|u: int| 0 <= u < g ==> #[trigger] level@[u] == u,
                all_ok(nodes@, cur@, es@),
                forall|u: int| 0 <= u < g ==> #[trigger] cur@[u] == crate::algo::kdtree::index_set(groups@[u]@),
            decreases groups@.len() - g,
        {
            let items = groups[g].clone();
            proof {
                assert forall|u: int| 0 <= u < items@.len() implies (#[trigger] items@[u]) < es@.len() by {
                    assert(ord@.contains(groups@[g as int]@[u]));
                }
            }
            let ghost before = cur@;
            let (id, s) = push_leaf(&es, items, &mut nodes, cur);
            level.push(id);
            cur = s;
            proof {
                assert forall|u: int| 0 <= u < g + 1 implies #[trigger] cur@[u] == crate::algo::kdtree::index_set(
                    groups@[u]@,
                ) by {
                    if u < g {
                        assert(cur@[u] == before[u]);
                    }
                }
            }
            g = g + 1;
        }
        proof {
            assert(level@.no_duplicates());
            assert(disjoint_at(cur@, level@)) by {
                assert forall|t1: int, t2: int, j: int|
                    0 <= t1 < level@.len() && 0 <= t2 < level@.len() && t1 != t2 && #[trigger] cur@[level@[t1] as int].contains(
                        j,
                    ) implies !#[trigger] cur@[level@[t2] as int].contains(j) by {
                    if cur@[level@[t2] as int].contains(j) {
                        let u1 = choose|u: int| 0 <= u < groups@[t1]@.len() && groups@[t1]@[u] as int == j;
                        let u2 = choose|u: int| 0 <= u < groups@[t2]@.len() && groups@[t2]@[u] as int == j;
                        assert(groups@[t1]@.contains(j as usize));
                        assert(groups@[t2]@.contains(j as usize));
                    }
                }
            }
            assert(union_of(cur@, level@) =~= all) by {
                assert forall|j: int| union_of(cur@, level@).contains(j) implies all.contains(j) by {
                    let u = choose|u: int| 0 <= u < level@.len() && #[trigger] cur@[level@[u] as int].contains(j);
                    let v = choose|v: int| 0 <= v < groups@[u]@.len() && groups@[u]@[v] as int == j;
                    assert(ord@.contains(groups@[u]@[v]));
                }
                assert forall|j: int| all.contains(j) implies union_of(cur@, level@).contains(j) by {
                    assert(ord@.contains(j as usize));
                    let h = choose|h: int| 0 <= h < groups@.len() && #[trigger] groups@[h]@.contains(j as usize);
                    let v = choose|v: int| 0 <= v < groups@[h]@.len() && groups@[h]@[v] == j as usize;
                    assert(cur@[level@[h] as int].contains(j));
                }
            }
        }
        if level.len() == 1 {
            proof {
                assert(cur@[level@[0] as int] =~= union_of(cur@, level@)) by {
                    assert forall|j: int| union_of(cur@, level@).contains(j) implies cur@[level@[0] as int].contains(j) by {
                        let u = choose|u: int| 0 <= u < level@.len() && #[trigger] cur@[level@[u] as int].contains(j);
                    }
                }
            }
            let root = level[0];
            return RTree { entries: es, nodes, root: Some(root), sub: cur };
        }
        let (root, s) = build_upper(&es, level, cap, &mut nodes, cur);
        RTree { entries: es, nodes, root: Some(root), sub: s }
    }
}


// ---------------------------------------------------------------------------
// Queries
// ---------------------------------------------------------------------------

/// Data indices of the entries whose boxes meet `q`, with multiplicity.
pub open spec fn meeting_data(es: Seq<RTreeEntry>, q: Bounds) -> Multiset<usize>
    decreases es.len(),
{
    if es.len() == 0 {
        Multiset::empty()
    } else {
        let rest = meeting_data(es.drop_last(), q);
        if bounds_meet(es.last().bounds, q) {
            rest.insert(es.last().data_idx)
        } else {
            rest
        }
    }
}

/// Data indices of the entries whose boxes contain `p`, with multiplicity.
pub open spec fn holding_data(es: Seq<RTreeEntry>, p: Point2<i64>) -> Multiset<usize>
    decreases es.len(),
{
    if es.len() == 0 {
        Multiset::empty()
    } else {
        let rest = holding_data(es.drop_last(), p);
        if bounds_contain(es.last().bounds, p) {
            rest.insert(es.last().data_idx)
        } else {
            rest
        }
    }
}

/// What a search selects: boxes meeting a box, or boxes holding a point.
#[derive(Clone, Copy)]
enum Probe {
    Meets(Bounds),
    Holds(Point2<i64>),
}

/// The probe selects box `b`.
spec fn probe_keeps(p: Probe, b: Bounds) -> bool {
    match p {
        Probe::Meets(q) => bounds_meet(b, q),
        Probe::Holds(pt) => bounds_contain(b, pt),
    }
}

/// Whether the probe selects box `b`.
fn keeps(p: &Probe, b: &Bounds) -> (r: bool)
    ensures
        r == probe_keeps(*p, *b),
{
    match p {
        Probe::Meets(q) => b.intersects(q),
        Probe::Holds(pt) => b.contains(*pt),
    }
}

/// A box the probe selects is inside every box around it that the probe
/// would then select too.
proof fn lemma_probe_up(p: Probe, inner: Bounds, outer: Bounds)
    requires
        within(inner, outer),
        probe_keeps(p, inner),
    ensures
        probe_keeps(p, outer),
{
}

/// Data indices of the entries the probe selects, with multiplicity.
spec fn kept_data(es: Seq<RTreeEntry>, p: Probe) -> Multiset<usize>
    decreases es.len(),
{
    if es.len() == 0 {
        Multiset::empty()
    } else {
        let rest = kept_data(es.drop_last(), p);
        if probe_keeps(p, es.last().bounds) {
            rest.insert(es.last().data_idx)
        } else {
            rest
        }
    }
}

proof fn lemma_kept_meeting(es: Seq<RTreeEntry>, q: Bounds)
    ensures
        kept_data(es, Probe::Meets(q)) == meeting_data(es, q),
    decreases es.len(),
{
    if es.len() > 0 {
        lemma_kept_meeting(es.drop_last(), q);
    }
}

proof fn lemma_kept_holding(es: Seq<RTreeEntry>, pt: Point2<i64>)
    ensures
        kept_data(es, Probe::Holds(pt)) == holding_data(es, pt),
    decreases es.len(),
{
    if es.len() > 0 {
        lemma_kept_holding(es.drop_last(), pt);
    }
}

/// Data indices at the positions `pos`.
spec fn data_at(es: Seq<RTreeEntry>, pos: Seq<usize>) -> Seq<usize> {
    pos.map_values(|p: usize| es[p as int].data_idx)
}

/// The positions `pos` list, once each, exactly the entries of `es[..m]`
/// that the probe selects: their data indices are `kept_data` of that prefix.
proof fn lemma_positions_data(es: Seq<RTreeEntry>, p: Probe, pos: Seq<usize>, m: int)
    requires
        0 <= m <= es.len(),
        es.len() <= usize::MAX,
        pos.no_duplicates(),
        forall|x: usize| #[trigger] pos.contains(x) <==> x < m && probe_keeps(p, es[x as int].bounds),
    ensures
        data_at(es, pos).to_multiset() == kept_data(es.subrange(0, m), p),
    decreases m,
{
    broadcast use vstd::seq_lib::group_to_multiset_ensures;

    let pre = es.subrange(0, m);
    if m == 0 {
        assert(pos.len() == 0) by {
            if pos.len() > 0 {
                assert(pos.contains(pos[0]));
            }
        }
        assert(data_at(es, pos) =~= Seq::empty());
    } else {
        assert(pre.drop_last() =~= es.subrange(0, m - 1));
        let last = (m - 1) as usize;
        assert(last as int == m - 1);
        if probe_keeps(p, es[m - 1].bounds) {
            assert(pos.contains(last));
            let k = choose|k: int| 0 <= k < pos.len() && pos[k] == last;
            let rest = pos.remove(k);
            assert forall|x: usize| #[trigger] rest.contains(x) <==> x < m - 1 && probe_keeps(p, es[x as int].bounds) by {
                if rest.contains(x) {
                    let v = choose|v: int| 0 <= v < rest.len() && rest[v] == x;
                    if v < k {
                        assert(pos[v] == x);
                    } else {
                        assert(pos[v + 1] == x);
                        assert(v + 1 != k);
                    }
                    assert(pos.contains(x));
                }
                if x < m - 1 && probe_keeps(p, es[x as int].bounds) {
                    assert(pos.contains(x));
                    let v = choose|v: int| 0 <= v < pos.len() && pos[v] == x;
                    assert(v != k);
                    if v < k {
                        assert(rest[v] == x);
                    } else {
                        assert(rest[v - 1] == x);
                    }
                }
            }
            assert(rest.no_duplicates()) by {
                assert forall|a: int, b: int| 0 <= a < rest.len() && 0 <= b < rest.len() && a != b implies rest[a]
                    != rest[b] by {
                    let pa = if a < k {
                        a
                    } else {
                        a + 1
                    };
                    let pb = if b < k {
                        b
                    } else {
                        b + 1
                    };
                    assert(rest[a] == pos[pa] && rest[b] == pos[pb]);
                }
            }
            lemma_positions_data(es, p, rest, m - 1);
            assert(data_at(es, rest) =~= data_at(es, pos).remove(k));
            vstd::seq_lib::to_multiset_remove(data_at(es, pos), k);
            assert(data_at(es, pos)[k] == es[m - 1].data_idx);
            assert(data_at(es, pos).to_multiset().count(es[m - 1].data_idx) > 0) by {
                vstd::seq_lib::to_multiset_contains(data_at(es, pos), es[m - 1].data_idx);
                assert(data_at(es, pos).contains(es[m - 1].data_idx));
            }
            assert(data_at(es, pos).to_multiset() =~= data_at(es, pos).to_multiset().remove(es[m - 1].data_idx).insert(
                es[m - 1].data_idx,
            ));
        } else {
            assert forall|x: usize| #[trigger] pos.contains(x) <==> x < m - 1 && probe_keeps(p, es[x as int].bounds) by {
                if pos.contains(x) {
                    assert(x != last);
                }
            }
            lemma_positions_data(es, p, pos, m - 1);
        }
    }
}

/// Lower bound of the distance to the boxes inside `outer`.
proof fn lemma_within_dist(inner: Bounds, outer: Bounds, q: Point2<i64>)
    requires
        within(inner, outer),
        inner.min.x <= inner.max.x,
        inner.min.y <= inner.max.y,
    ensures
        0 <= bounds_dist2(outer, q) <= bounds_dist2(inner, q),
{
    let gx = crate::algo::quadtree::axis_gap(q.x as int, outer.min.x as int, outer.max.x as int);
    let gy = crate::algo::quadtree::axis_gap(q.y as int, outer.min.y as int, outer.max.y as int);
    let hx = crate::algo::quadtree::axis_gap(q.x as int, inner.min.x as int, inner.max.x as int);
    let hy = crate::algo::quadtree::axis_gap(q.y as int, inner.min.y as int, inner.max.y as int);
    assert(0 <= gx <= hx);
    assert(0 <= gy <= hy);
    crate::algo::kdtree::lemma_square_le(gx, hx);
    crate::algo::kdtree::lemma_square_le(gy, hy);
    crate::algo::quadtree::lemma_sum_of_squares_bound(gx, gy);
}

/// Total node count of the subtree at `x`.
spec fn wt(ns: Seq<RNode>, x: int) -> nat
    decreases x, ns[x].items@.len() + 1,
{
    if 0 <= x < ns.len() && !ns[x].leaf {
        1 + kids_wt(ns, x, ns[x].items@.len() as int)
    } else {
        1
    }
}

/// Total node count of the subtrees of the first `k` children of `x`.
spec fn kids_wt(ns: Seq<RNode>, x: int, k: int) -> nat
    decreases x, k,
{
    if k <= 0 || x < 0 || x >= ns.len() || k > ns[x].items@.len() {
        0
    } else {
        let c = ns[x].items@[k - 1] as int;
        kids_wt(ns, x, k - 1) + if 0 <= c < x {
            wt(ns, c)
        } else {
            0
        }
    }
}

/// Total node count of the subtrees waiting in the queue.
spec fn queue_wt(ns: Seq<RNode>, q: Seq<(i128, usize)>) -> nat
    decreases q.len(),
{
    if q.len() == 0 {
        0
    } else {
        queue_wt(ns, q.drop_last()) + wt(ns, q.last().1 as int)
    }
}

proof fn lemma_queue_wt_remove(ns: Seq<RNode>, q: Seq<(i128, usize)>, i: int)
    requires
        0 <= i < q.len(),
    ensures
        queue_wt(ns, q.remove(i)) + wt(ns, q[i].1 as int) == queue_wt(ns, q),
    decreases q.len(),
{
    if i == q.len() - 1 {
        assert(q.remove(i) =~= q.drop_last());
    } else {
        lemma_queue_wt_remove(ns, q.drop_last(), i);
        assert(q.remove(i).drop_last() =~= q.drop_last().remove(i));
        assert(q.remove(i).last() == q.last());
    }
}


/// Points of the first `t` children listed in `items`.
spec fn first_kids(sub: Seq<Set<int>>, items: Seq<usize>, t: int) -> Set<int> {
    Set::new(|j: int| exists|u: int| 0 <= u < t && #[trigger] sub[items[u] as int].contains(j))
}

/// `best` names an entry of `es` and its exact distance to `q`.
spec fn best_ok(es: Seq<RTreeEntry>, q: Point2<i64>, best: Option<RTreeNearestResult>) -> bool {
    best matches Some(b) ==> {
        &&& exists|p: int| 0 <= p < es.len() && #[trigger] es[p].data_idx == b.data_idx && es[p].bounds == b.bounds
        &&& b.distance_squared == bounds_dist2(b.bounds, q)
    }
}

/// Entry `j` is no closer to `q` than `best`.
spec fn covers(es: Seq<RTreeEntry>, q: Point2<i64>, best: Option<RTreeNearestResult>, j: int) -> bool {
    best matches Some(b) && b.distance_squared <= bounds_dist2(es[j].bounds, q)
}

/// Entry `j` lies under a queued node.
spec fn queued(sub: Seq<Set<int>>, queue: Seq<(i128, usize)>, j: int) -> bool {
    exists|u: int| 0 <= u < queue.len() && #[trigger] sub[queue[u].1 as int].contains(j)
}

impl RTree {
    /// Appends, with their positions, the data indices of the entries under
    /// node `i` that the probe selects.
    fn collect_rec(&self, i: usize, probe: Probe, results: &mut Vec<usize>, Ghost(pos): Ghost<Seq<usize>>) -> (added:
        Ghost<Seq<usize>>)
        requires
            self.wf(),
            i < self.nodes@.len(),
            old(results)@ == data_at(self.entries@, pos),
            pos.no_duplicates(),
            forall|x: usize| #[trigger] pos.contains(x) ==> x < self.entries@.len() && !self.sub@[i as int].contains(x as int),
        ensures
            final(results)@ == data_at(self.entries@, added@),
            added@.no_duplicates(),
            forall|x: usize| #[trigger]
                added@.contains(x) <==> pos.contains(x) || (x < self.entries@.len() && self.sub@[i as int].contains(
                    x as int,
                ) && probe_keeps(probe, self.entries@[x as int].bounds)),
        decreases i,
    {
        proof {
            assert(rt_node_ok(self.nodes@, self.sub@, self.entries@, i as int));
        }
        let items = &self.nodes[i].items;
        let mut cur: Ghost<Seq<usize>> = Ghost(pos);
        if self.nodes[i].leaf {
            let mut t: usize = 0;
            while t < items.len()
                invariant
                    self.wf(),
                    i < self.nodes@.len(),
                    items@ == self.nodes@[i as int].items@,
                    self.nodes@[i as int].leaf,
                    rt_node_ok(self.nodes@, self.sub@, self.entries@, i as int),
                    t <= items@.len(),
                    forall|x: usize| #[trigger] pos.contains(x) ==> x < self.entries@.len() && !self.sub@[i as int].contains(x as int),
                    results@ == data_at(self.entries@, cur@),
                    cur@.no_duplicates(),
                    forall|x: usize| #[trigger]
                        cur@.contains(x) <==> pos.contains(x) || ((exists|u: int| 0 <= u < t && items@[u] == x)
                            && probe_keeps(probe, self.entries@[x as int].bounds)),
                decreases items@.len() - t,
            {
                let p = items[t];
                proof {
                    assert(crate::algo::kdtree::index_set(items@).contains(p as int));
                }
                let ghost c0 = cur@;
                if keeps(&probe, &self.entries[p].bounds) {
                    proof {
                        assert(!c0.contains(p)) by {
                            if c0.contains(p) {
                                if pos.contains(p) {
                                } else {
                                    let u = choose|u: int| 0 <= u < t && items@[u] == p;
                                    assert(items@[u] == items@[t as int]);
                                }
                            }
                        }
                    }
                    results.push(self.entries[p].data_idx);
                    cur = Ghost(c0.push(p));
                    proof {
                        assert(results@ =~= data_at(self.entries@, cur@));
                        assert forall|a: int, b: int| 0 <= a < cur@.len() && 0 <= b < cur@.len() && a != b implies cur@[a]
                            != cur@[b] by {
                            if a == c0.len() {
                                assert(c0.contains(cur@[b]));
                            } else if b == c0.len() {
                                assert(c0.contains(cur@[a]));
                            }
                        }
                    }
                }
                proof {
                    assert forall|x: usize| #[trigger] cur@.contains(x) <==> pos.contains(x) || ((exists|u: int|
                        0 <= u < t + 1 && items@[u] == x) && probe_keeps(probe, self.entries@[x as int].bounds)) by {
                        if cur@.contains(x) && !c0.contains(x) {
                            assert(cur@[c0.len() as int] == x || c0.contains(x));
                        }
                        if c0.contains(x) {
                            if !pos.contains(x) {
                                let u = choose|u: int| 0 <= u < t && items@[u] == x;
                                assert(0 <= u < t + 1 && items@[u] == x);
                            }
                            if cur@ != c0 {
                                let v = choose|v: int| 0 <= v < c0.len() && c0[v] == x;
                                assert(cur@[v] == x);
                            }
                        }
                        if (exists|u: int| 0 <= u < t + 1 && items@[u] == x) && probe_keeps(probe, self.entries@[x as int].bounds) {
                            let u = choose|u: int| 0 <= u < t + 1 && items@[u] == x;
                            if u < t {
                                assert(c0.contains(x));
                                if cur@ != c0 {
                                    let v = choose|v: int| 0 <= v < c0.len() && c0[v] == x;
                                    assert(cur@[v] == x);
                                }
                            } else {
                                assert(cur@[c0.len() as int] == x);
                            }
                        }
                    }
                }
                t = t + 1;
            }
            proof {
                assert forall|x: usize| #[trigger] cur@.contains(x) <==> pos.contains(x) || (x < self.entries@.len()
                    && self.sub@[i as int].contains(x as int) && probe_keeps(probe, self.entries@[x as int].bounds)) by {
                    if self.sub@[i as int].contains(x as int) {
                        let u = choose|u: int| 0 <= u < items@.len() && items@[u] as int == x as int;
                        assert(items@[u] == x);
                    }
                    if exists|u: int| 0 <= u < items@.len() && items@[u] == x {
                        let u = choose|u: int| 0 <= u < items@.len() && items@[u] == x;
                        assert(crate::algo::kdtree::index_set(items@).contains(x as int));
                    }
                }
            }
        } else {
            let mut t: usize = 0;
            while t < items.len()
                invariant
                    self.wf(),
                    i < self.nodes@.len(),
                    items@ == self.nodes@[i as int].items@,
                    !self.nodes@[i as int].leaf,
                    rt_node_ok(self.nodes@, self.sub@, self.entries@, i as int),
                    t <= items@.len(),
                    forall|x: usize| #[trigger] pos.contains(x) ==> x < self.entries@.len() && !self.sub@[i as int].contains(x as int),
                    results@ == data_at(self.entries@, cur@),
                    cur@.no_duplicates(),
                    forall|x: usize| #[trigger]
                        cur@.contains(x) <==> pos.contains(x) || (first_kids(self.sub@, items@, t as int).contains(x as int)
                            && probe_keeps(probe, self.entries@[x as int].bounds)),
                decreases items@.len() - t,
            {
                let c = items[t];
                let ghost cset = self.sub@[c as int];
                let ghost c0 = cur@;
                proof {
                    assert(rt_node_ok(self.nodes@, self.sub@, self.entries@, c as int));
                    assert(first_kids(self.sub@, items@, t + 1) =~= first_kids(self.sub@, items@, t as int).union(cset)) by {
                        assert forall|j: int| first_kids(self.sub@, items@, t + 1).contains(j) implies first_kids(
                            self.sub@,
                            items@,
                            t as int,
                        ).contains(j) || cset.contains(j) by {
                            let u = choose|u: int| 0 <= u < t + 1 && #[trigger] self.sub@[items@[u] as int].contains(j);
                            if u < t {
                                assert(first_kids(self.sub@, items@, t as int).contains(j));
                            }
                        }
                        assert forall|j: int| cset.contains(j) implies first_kids(self.sub@, items@, t + 1).contains(j) by {
                            assert(self.sub@[items@[t as int] as int].contains(j));
                        }
                        assert forall|j: int| first_kids(self.sub@, items@, t as int).contains(j) implies first_kids(
                            self.sub@,
                            items@,
                            t + 1,
                        ).contains(j) by {
                            let u = choose|u: int| 0 <= u < t && #[trigger] self.sub@[items@[u] as int].contains(j);
                        }
                    }
                    assert forall|x: usize| #[trigger] c0.contains(x) implies x < self.entries@.len() && !cset.contains(
                        x as int,
                    ) by {
                        if pos.contains(x) {
                            if cset.contains(x as int) {
                                assert(self.sub@[i as int].contains(x as int));
                            }
                        } else {
                            let u = choose|u: int| 0 <= u < t && #[trigger] self.sub@[items@[u] as int].contains(x as int);
                            assert(u != t);
                            assert(self.sub@[i as int].contains(x as int));
                        }
                    }
                }
                if keeps(&probe, &self.nodes[c].bounds) {
                    cur = self.collect_rec(c, probe, results, cur);
                } else {
                    proof {
                        assert forall|j: int| #[trigger] cset.contains(j) implies !probe_keeps(
                            probe,
                            self.entries@[j].bounds,
                        ) by {
                            if probe_keeps(probe, self.entries@[j].bounds) {
                                lemma_probe_up(probe, self.entries@[j].bounds, self.nodes@[c as int].bounds);
                            }
                        }
                    }
                }
                t = t + 1;
            }
            proof {
                assert forall|x: usize| #[trigger] cur@.contains(x) <==> pos.contains(x) || (x < self.entries@.len()
                    && self.sub@[i as int].contains(x as int) && probe_keeps(probe, self.entries@[x as int].bounds)) by {
                    if self.sub@[i as int].contains(x as int) {
                        let u = choose|u: int| 0 <= u < items@.len() && #[trigger] self.sub@[items@[u] as int].contains(x as int);
                        assert(first_kids(self.sub@, items@, items@.len() as int).contains(x as int));
                    }
                    if first_kids(self.sub@, items@, items@.len() as int).contains(x as int) {
                        let u = choose|u: int| 0 <= u < items@.len() && #[trigger] self.sub@[items@[u] as int].contains(x as int);
                        assert(rt_node_ok(self.nodes@, self.sub@, self.entries@, items@[u] as int));
                    }
                }
            }
        }
        cur
    }

    /// Collects, once each, the data indices of the entries the probe selects.
    fn collect(&self, probe: Probe) -> (r: Vec<usize>)
        requires
            self.wf(),
        ensures
            r@.to_multiset() == kept_data(self.entries@, probe),
    {
        let mut results: Vec<usize> = Vec::new();
        let count = self.entries.len();
        let ghost n = self.entries@.len() as int;
        let ghost empty: Seq<usize> = Seq::empty();
        proof {
            assert(results@ =~= data_at(self.entries@, empty));
        }
        let mut got: Ghost<Seq<usize>> = Ghost(empty);
        if let Some(root) = self.root {
            got = self.collect_rec(root, probe, &mut results, Ghost(empty));
        }
        let ghost pos = got@;
        proof {
            assert forall|x: usize| #[trigger] pos.contains(x) <==> x < n && probe_keeps(
                probe,
                self.entries@[x as int].bounds,
            ) by {
                if let Some(root) = self.root {
                    if x < n {
                        assert(vstd::set_lib::set_int_range(0, n).contains(x as int));
                    }
                }
            }
            lemma_positions_data(self.entries@, probe, pos, n);
            assert(self.entries@.subrange(0, n) =~= self.entries@);
        }
        results
    }

    /// Finds all entries whose bounds intersect the query box: their data
    /// indices, each entry once.
    pub fn query(&self, query: &Bounds) -> (r: Vec<usize>)
        requires
            self.wf(),
        ensures
            r@.to_multiset() == meeting_data(self@, *query),
    {
        let r = self.collect(Probe::Meets(*query));
        proof {
            lemma_kept_meeting(self.entries@, *query);
        }
        r
    }

    /// Finds all entries whose bounds contain the query point: their data
    /// indices, each entry once.
    pub fn contains_point(&self, point: Point2<i64>) -> (r: Vec<usize>)
        requires
            self.wf(),
        ensures
            r@.to_multiset() == holding_data(self@, point),
    {
        let r = self.collect(Probe::Holds(point));
        proof {
            lemma_kept_holding(self.entries@, point);
        }
        r
    }

    /// Finds the entry whose bounds are closest to the query point, distance
    /// measured from the point to the nearest point of the entry's box; `None`
    /// if the tree is empty. Searches best first: nodes are visited by
    /// increasing distance of their boxes, until the nearest waiting box is
    /// no closer than the best entry found.
    pub fn nearest(&self, query: Point2<i64>) -> (r: Option<RTreeNearestResult>)
        requires
            self.wf(),
            forall|p: int|
                0 <= p < self@.len() ==> (#[trigger] self@[p]).bounds.min.x <= self@[p].bounds.max.x
                    && self@[p].bounds.min.y <= self@[p].bounds.max.y && bounds_dist2(self@[p].bounds, query)
                    <= i128::MAX,
        ensures
            r is None <==> self@.len() == 0,
            r matches Some(res) ==> {
                &&& exists|p: int|
                    0 <= p < self@.len() && #[trigger] self@[p].data_idx == res.data_idx && self@[p].bounds
                        == res.bounds
                &&& res.distance_squared == bounds_dist2(res.bounds, query)
                &&& forall|p: int| 0 <= p < self@.len() ==> res.distance_squared <= bounds_dist2(#[trigger] self@[p].bounds, query)
            },
    {
        let root = match self.root {
            None => {
                return None;
            },
            Some(r) => r,
        };
        let ghost es = self.entries@;
        let ghost n = es.len() as int;
        proof {
            assert(self@ == es);
            assert forall|p: int| 0 <= p < n implies (#[trigger] es[p]).bounds.min.x <= es[p].bounds.max.x
                && es[p].bounds.min.y <= es[p].bounds.max.y && bounds_dist2(es[p].bounds, query) <= i128::MAX by {
                assert(self@[p] == es[p]);
            }
            assert(rt_node_ok(self.nodes@, self.sub@, es, root as int));
            let w = choose|j: int| #[trigger] self.sub@[root as int].contains(j) && es[j].bounds.min.x == self.nodes@[root as int].bounds.min.x;
            lemma_within_dist(es[w].bounds, self.nodes@[root as int].bounds, query);
        }
        let root_dist = self.nodes[root].bounds.distance_squared_to(query);
        let mut queue: Vec<(i128, usize)> = Vec::new();
        queue.push((root_dist, root));
        let mut best: Option<RTreeNearestResult> = None;
        proof {
            assert forall|j: int| 0 <= j < n implies queued(self.sub@, queue@, j) || covers(es, query, best, j) by {
                assert(vstd::set_lib::set_int_range(0, n).contains(j));
                assert(self.sub@[queue@[0].1 as int].contains(j));
            }
        }
        loop
            invariant
                self.wf(),
                es == self.entries@,
                n == es.len(),
                n >= 1,
                forall|p: int|
                    0 <= p < n ==> (#[trigger] es[p]).bounds.min.x <= es[p].bounds.max.x && es[p].bounds.min.y
                        <= es[p].bounds.max.y && bounds_dist2(es[p].bounds, query) <= i128::MAX,
                forall|u: int|
                    0 <= u < queue@.len() ==> (#[trigger] queue@[u]).1 < self.nodes@.len() && queue@[u].0
                        == bounds_dist2(self.nodes@[queue@[u].1 as int].bounds, query),
                best_ok(es, query, best),
                forall|j: int| 0 <= j < n ==> queued(self.sub@, queue@, j) || covers(es, query, best, j),
            ensures
                best_ok(es, query, best),
                forall|j: int| 0 <= j < n ==> covers(es, query, best, j),
            decreases queue_wt(self.nodes@, queue@),
        {
            if queue.len() == 0 {
                break;
            }
            // take a waiting node nearest to the query
            let mut imin: usize = 0;
            let mut k: usize = 1;
            while k < queue.len()
                invariant
                    1 <= k <= queue@.len(),
                    imin < queue@.len(),
                    forall|u: int| 0 <= u < k ==> queue@[imin as int].0 <= (#[trigger] queue@[u]).0,
                decreases queue@.len() - k,
            {
                if queue[k].0 < queue[imin].0 {
                    imin = k;
                }
                k = k + 1;
            }
            let ghost q0 = queue@;
            let (dist, x) = queue.remove(imin);
            proof {
                lemma_queue_wt_remove(self.nodes@, q0, imin as int);
                assert(rt_node_ok(self.nodes@, self.sub@, es, x as int));
                // entries under a waiting node are no closer than its box
                assert forall|u: int, j: int|
                    0 <= u < q0.len() && #[trigger] self.sub@[q0[u].1 as int].contains(j) implies dist <= bounds_dist2(
                        es[j].bounds,
                        query,
                    ) by {
                    assert(rt_node_ok(self.nodes@, self.sub@, es, q0[u].1 as int));
                    lemma_within_dist(es[j].bounds, self.nodes@[q0[u].1 as int].bounds, query);
                }
            }
            if let Some(b) = best {
                if dist >= b.distance_squared {
                    proof {
                        assert forall|j: int| 0 <= j < n implies covers(es, query, best, j) by {
                            if queued(self.sub@, queue@, j) {
                                let u = choose|u: int| 0 <= u < queue@.len() && #[trigger] self.sub@[queue@[u].1 as int].contains(j);
                                let u0 = if u < imin {
                                    u
                                } else {
                                    u + 1
                                };
                                assert(queue@[u] == q0[u0]);
                            } else if !covers(es, query, best, j) {
                                assert(queued(self.sub@, q0, j));
                                let u = choose|u: int| 0 <= u < q0.len() && #[trigger] self.sub@[q0[u].1 as int].contains(j);
                                if u != imin {
                                    let u1 = if u < imin {
                                        u
                                    } else {
                                        u - 1
                                    };
                                    assert(queue@[u1] == q0[u]);
                                }
                            }
                        }
                    }
                    break;
                }
            }
            let ghost qr = queue@;
            let ghost xset = self.sub@[x as int];
            proof {
                // what the removed node covered is now pending
                assert forall|j: int| 0 <= j < n implies queued(self.sub@, qr, j) || covers(es, query, best, j)
                    || xset.contains(j) by {
                    if queued(self.sub@, q0, j) && !covers(es, query, best, j) {
                        let u = choose|u: int| 0 <= u < q0.len() && #[trigger] self.sub@[q0[u].1 as int].contains(j);
                        if u != imin {
                            let u1 = if u < imin {
                                u
                            } else {
                                u - 1
                            };
                            assert(qr[u1] == q0[u]);
                        }
                    }
                }
            }
            let items = &self.nodes[x].items;
            if self.nodes[x].leaf {
                proof {
                    assert forall|j: int| 0 <= j < n implies queued(self.sub@, qr, j) || covers(es, query, best, j) || (
                    exists|u: int| 0 <= u < items@.len() && items@[u] as int == j) by {
                        if xset.contains(j) {
                            assert(crate::algo::kdtree::index_set(items@).contains(j));
                        }
                    }
                }
                let mut t: usize = 0;
                while t < items.len()
                    invariant
                        self.wf(),
                        es == self.entries@,
                        n == es.len(),
                        x < self.nodes@.len(),
                        items@ == self.nodes@[x as int].items@,
                        self.nodes@[x as int].leaf,
                        rt_node_ok(self.nodes@, self.sub@, es, x as int),
                        xset == self.sub@[x as int],
                        forall|p: int|
                            0 <= p < n ==> (#[trigger] es[p]).bounds.min.x <= es[p].bounds.max.x && es[p].bounds.min.y
                                <= es[p].bounds.max.y && bounds_dist2(es[p].bounds, query) <= i128::MAX,
                        queue@ == qr,
                        t <= items@.len(),
                        best_ok(es, query, best),
                        forall|j: int|
                            0 <= j < n ==> queued(self.sub@, qr, j) || covers(es, query, best, j) || (exists|u: int|
                                t <= u < items@.len() && items@[u] as int == j),
                    decreases items@.len() - t,
                {
                    let p = items[t];
                    proof {
                        assert(xset.contains(p as int));
                    }
                    let e = self.entries[p];
                    let d = e.bounds.distance_squared_to(query);
                    let ghost b0 = best;
                    let dominated = match best {
                        Some(b) => d >= b.distance_squared,
                        None => false,
                    };
                    if !dominated {
                        best = Some(RTreeNearestResult { data_idx: e.data_idx, bounds: e.bounds, distance_squared: d });
                    }
                    proof {
                        assert(covers(es, query, best, p as int));
                        assert forall|j: int| 0 <= j < n implies queued(self.sub@, qr, j) || covers(es, query, best, j)
                            || (exists|u: int| t + 1 <= u < items@.len() && items@[u] as int == j) by {
                            if covers(es, query, b0, j) {
                            } else if !queued(self.sub@, qr, j) && j != p as int {
                                let u = choose|u: int| t <= u < items@.len() && items@[u] as int == j;
                                assert(u != t);
                            }
                        }
                    }
                    t = t + 1;
                }
                proof {
                    assert(queue_wt(self.nodes@, queue@) < queue_wt(self.nodes@, q0));
                }
            } else {
                proof {
                    assert forall|j: int| 0 <= j < n implies queued(self.sub@, queue@, j) || covers(es, query, best, j) || (
                    exists|u: int| 0 <= u < items@.len() && #[trigger] self.sub@[items@[u] as int].contains(j)) by {
                        if xset.contains(j) {
                            assert(self.sub@[x as int].contains(j));
                        }
                    }
                }
                let mut t: usize = 0;
                let ghost mut pushed: nat = 0;
                while t < items.len()
                    invariant
                        self.wf(),
                        es == self.entries@,
                        n == es.len(),
                        x < self.nodes@.len(),
                        items@ == self.nodes@[x as int].items@,
                        !self.nodes@[x as int].leaf,
                        rt_node_ok(self.nodes@, self.sub@, es, x as int),
                        xset == self.sub@[x as int],
                        forall|p: int|
                            0 <= p < n ==> (#[trigger] es[p]).bounds.min.x <= es[p].bounds.max.x && es[p].bounds.min.y
                                <= es[p].bounds.max.y && bounds_dist2(es[p].bounds, query) <= i128::MAX,
                        t <= items@.len(),
                        queue@.len() >= qr.len(),
                        forall|u: int| 0 <= u < qr.len() ==> #[trigger] queue@[u] == qr[u],
                        forall|u: int|
                            0 <= u < queue@.len() ==> (#[trigger] queue@[u]).1 < self.nodes@.len() && queue@[u].0
                                == bounds_dist2(self.nodes@[queue@[u].1 as int].bounds, query),
                        queue_wt(self.nodes@, queue@) == queue_wt(self.nodes@, qr) + pushed,
                        pushed <= kids_wt(self.nodes@, x as int, t as int),
                        best_ok(es, query, best),
                        forall|j: int|
                            0 <= j < n ==> queued(self.sub@, queue@, j) || covers(es, query, best, j) || (exists|u: int|
                                t <= u < items@.len() && #[trigger] self.sub@[items@[u] as int].contains(j)),
                    decreases items@.len() - t,
                {
                    let c = items[t];
                    proof {
                        assert(rt_node_ok(self.nodes@, self.sub@, es, c as int));
                        let w = choose|j: int| #[trigger] self.sub@[c as int].contains(j) && es[j].bounds.min.x == self.nodes@[c as int].bounds.min.x;
                        lemma_within_dist(es[w].bounds, self.nodes@[c as int].bounds, query);
                        assert(kids_wt(self.nodes@, x as int, t + 1) == kids_wt(self.nodes@, x as int, t as int) + wt(
                            self.nodes@,
                            c as int,
                        ));
                    }
                    let cd = self.nodes[c].bounds.distance_squared_to(query);
                    let dominated = match best {
                        Some(b) => cd >= b.distance_squared,
                        None => false,
                    };
                    let ghost qb = queue@;
                    if !dominated {
                        queue.push((cd, c));
                        proof {
                            assert(queue@.drop_last() =~= qb);
                            pushed = pushed + wt(self.nodes@, c as int);
                        }
                    } else {
                        proof {
                            assert forall|j: int| #[trigger] self.sub@[c as int].contains(j) implies covers(es, query, best, j) by {
                                lemma_within_dist(es[j].bounds, self.nodes@[c as int].bounds, query);
                            }
                        }
                    }
                    proof {
                        assert forall|j: int| 0 <= j < n implies queued(self.sub@, queue@, j) || covers(es, query, best, j)
                            || (exists|u: int| t + 1 <= u < items@.len() && #[trigger] self.sub@[items@[u] as int].contains(j)) by {
                            if queued(self.sub@, qb, j) {
                                let u = choose|u: int| 0 <= u < qb.len() && #[trigger] self.sub@[qb[u].1 as int].contains(j);
                                assert(queue@[u] == qb[u]);
                            } else if !covers(es, query, best, j) {
                                let u = choose|u: int| t <= u < items@.len() && #[trigger] self.sub@[items@[u] as int].contains(j);
                                if u == t {
                                    assert(!dominated);
                                    assert(queue@[qb.len() as int].1 == c);
                                } 
                            }
                        }
                    }
                    t = t + 1;
                }
                proof {
                    assert(wt(self.nodes@, x as int) == 1 + kids_wt(self.nodes@, x as int, items@.len() as int));
                    assert(queue_wt(self.nodes@, queue@) < queue_wt(self.nodes@, q0));
                    assert forall|j: int| 0 <= j < n implies queued(self.sub@, queue@, j) || covers(es, query, best, j) by {
                    }
                }
            }
        }
        proof {
            assert(covers(es, query, best, 0));
            if let Some(res) = best {
                assert forall|p: int| 0 <= p < self@.len() implies res.distance_squared <= bounds_dist2(
                    #[trigger] self@[p].bounds,
                    query,
                ) by {
                    assert(covers(es, query, best, p));
                }
                let p = choose|p: int| 0 <= p < es.len() && #[trigger] es[p].data_idx == res.data_idx && es[p].bounds == res.bounds;
                assert(self@[p] == es[p]);
            }
        }
        best
    }

    /// Returns the number of entries in the tree.
    pub fn len(&self) -> (r: usize)
        ensures
            r == self@.len(),
    {
        self.entries.len()
    }

    /// Returns true if the tree is empty.
    pub fn is_empty(&self) -> (r: bool)
        ensures
            r == (self@.len() == 0),
    {
        self.entries.len() == 0
    }

    /// Returns the tightest box around all entries, or `None` if empty.
    pub fn bounds(&self) -> (r: Option<Bounds>)
        requires
            self.wf(),
        ensures
            r is None <==> self@.len() == 0,
            r matches Some(b) ==> tight_over(b, self@.map_values(|e: RTreeEntry| e.bounds)),
    {
        match self.root {
            None => None,
            Some(root) => {
                let b = self.nodes[root].bounds;
                proof {
                    let es = self.entries@;
                    let bs = es.map_values(|e: RTreeEntry| e.bounds);
                    let all = vstd::set_lib::set_int_range(0, es.len() as int);
                    assert(rt_node_ok(self.nodes@, self.sub@, es, root as int));
                    assert forall|t: int| 0 <= t < bs.len() implies within(#[trigger] bs[t], b) by {
                        assert(all.contains(t));
                    }
                    let a = choose|j: int| #[trigger] self.sub@[root as int].contains(j) && es[j].bounds.min.x == b.min.x;
                    let c = choose|j: int| #[trigger] self.sub@[root as int].contains(j) && es[j].bounds.min.y == b.min.y;
                    let d = choose|j: int| #[trigger] self.sub@[root as int].contains(j) && es[j].bounds.max.x == b.max.x;
                    let e = choose|j: int| #[trigger] self.sub@[root as int].contains(j) && es[j].bounds.max.y == b.max.y;
                    assert(bs[a] == es[a].bounds && bs[c] == es[c].bounds && bs[d] == es[d].bounds && bs[e] == es[e].bounds);
                }
                Some(b)
            },
        }
    }
}

} // verus!
