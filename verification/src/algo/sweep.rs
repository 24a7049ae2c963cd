//! Bentley-Ottmann sweep line algorithm for finding segment intersections.
//!
//! This module implements the classic sweep line algorithm for finding all
//! intersections among n line segments in O((n + k) log n) time, where k is
//! the number of intersections.
//!
//! All arithmetic is exact. Endpoint coordinates are limited to
//! `[-2^15, 2^15]`, which keeps every intermediate rational (crossing points,
//! heights of segments at the sweep position and their cross products)
//! inside `i128`.
use std::cmp::Ordering;
use vstd::multiset::Multiset;
use vstd::prelude::*;

use crate::ops::{
    crossing_point, lemma_proper_crossing_denom, lemma_segment_point_on_lines, on_line, param_num, proper_crossing, segment_fits,
    segment_intersection, segment_intersection_spec, seg_denom, seg_numer, RationalPoint,
    SegmentIntersection,
};
use crate::predicates::{abs_le, lemma_abs_mul_le, lemma_orient2d_small_fits, orient2d_det};
use crate::rational::{fits_i128, lemma_value_order_transitive, Rational};
use crate::widen::sign_of;
use crate::Point2;

verus! {

// ---------------------------------------------------------------------------
// Coordinate limits
// ---------------------------------------------------------------------------

/// Largest endpoint coordinate magnitude accepted by the sweep (`2^15`).
pub open spec fn sweep_coord_bound() -> int {
    0x8000
}

/// Both coordinates of `p` lie in `[-2^15, 2^15]`.
pub open spec fn point_in_sweep_range(p: Point2<i64>) -> bool {
    abs_le(p.x as int, sweep_coord_bound()) && abs_le(p.y as int, sweep_coord_bound())
}

/// Both endpoints of `s` lie in the sweep range.
pub open spec fn segment_in_sweep_range(s: Segment) -> bool {
    point_in_sweep_range(s.p1) && point_in_sweep_range(s.p2)
}

/// Every segment of `segs` lies in the sweep range.
pub open spec fn segments_in_sweep_range(segs: Seq<Segment>) -> bool {
    forall|i: int| 0 <= i < segs.len() ==> #[trigger] segment_in_sweep_range(segs[i])
}

/// Limit on the numerator of an event coordinate (`24 * 2^45`).
pub open spec fn event_num_bound() -> int {
    0x3_0000_0000_0000
}

/// Limit on the denominator of an event coordinate (`2^33`).
pub open spec fn event_den_bound() -> int {
    0x2_0000_0000
}

/// An event coordinate: positive denominator, both parts within their limits.
pub open spec fn event_coord_ok(r: Rational) -> bool {
    0 < r.denom <= event_den_bound() && abs_le(r.num as int, event_num_bound())
}

/// Both coordinates of `p` are event coordinates.
pub open spec fn event_point_ok(p: RationalPoint) -> bool {
    event_coord_ok(p.x) && event_coord_ok(p.y)
}

/// For segments in the sweep range, `segment_intersection` cannot overflow,
/// and a point it reports has event coordinates.
pub proof fn lemma_sweep_intersection(a1: Point2<i64>, a2: Point2<i64>, b1: Point2<i64>, b2: Point2<i64>)
    requires
        point_in_sweep_range(a1),
        point_in_sweep_range(a2),
        point_in_sweep_range(b1),
        point_in_sweep_range(b2),
    ensures
        segment_fits(a1, a2, b1, b2),
        segment_intersection_spec(a1, a2, b1, b2) is Point ==> event_point_ok(
            segment_intersection_spec(a1, a2, b1, b2)->Point_0,
        ),
{
    lemma_orient2d_small_fits(a1, a2, b1);
    lemma_orient2d_small_fits(a1, a2, b2);
    lemma_orient2d_small_fits(b1, b2, a1);
    lemma_orient2d_small_fits(b1, b2, a2);
    let m = 0x1_0000int;
    let dax = a2.x - a1.x;
    let day = a2.y - a1.y;
    let dbx = b2.x - b1.x;
    let dby = b2.y - b1.y;
    let ex = b1.x - a1.x;
    let ey = b1.y - a1.y;
    lemma_abs_mul_le(dax, dby, m, m);
    lemma_abs_mul_le(day, dbx, m, m);
    lemma_abs_mul_le(ex, dby, m, m);
    lemma_abs_mul_le(ey, dbx, m, m);
    let denom = seg_denom(a1, a2, b1, b2);
    let numer = seg_numer(a1, a2, b1, b2);
    let d2 = 0x2_0000_0000int;
    assert(abs_le(denom, d2));
    assert(abs_le(numer, d2));
    lemma_abs_mul_le(a1.x as int, denom, 0x8000, d2);
    lemma_abs_mul_le(a1.y as int, denom, 0x8000, d2);
    lemma_abs_mul_le(numer, dax, d2, m);
    lemma_abs_mul_le(numer, day, d2, m);
    if proper_crossing(a1, a2, b1, b2) {
        lemma_proper_crossing_denom(a1, a2, b1, b2);
        let p = crossing_point(a1, a2, b1, b2);
        assert(abs_le(param_num(a1.x as int, dax, numer, denom), event_num_bound()));
        assert(abs_le(param_num(a1.y as int, day, numer, denom), event_num_bound()));
        assert(event_point_ok(p));
    }
}

// ---------------------------------------------------------------------------
// Segments
// ---------------------------------------------------------------------------

/// A line segment defined by two endpoints.
#[derive(Debug, Clone, Copy, PartialEq, Eq)]
pub struct Segment {
    /// First endpoint (normalized to be the left endpoint).
    pub p1: Point2<i64>,
    /// Second endpoint (normalized to be the right endpoint).
    pub p2: Point2<i64>,
}

/// `a` comes before `b` from left to right (lower first on a vertical).
pub open spec fn left_first(a: Point2<i64>, b: Point2<i64>) -> bool {
    a.x < b.x || (a.x == b.x && a.y <= b.y)
}

/// The segment `a`-`b` with its endpoints put in left-to-right order.
pub open spec fn normalized_segment(a: Point2<i64>, b: Point2<i64>) -> Segment {
    if left_first(a, b) {
        Segment { p1: a, p2: b }
    } else {
        Segment { p1: b, p2: a }
    }
}

/// The rational `x` lies in the closed x-range `[p1.x, p2.x]` of `s`.
pub open spec fn spans_x(s: Segment, x: Rational) -> bool {
    s.p1.x * x.denom <= x.num <= s.p2.x * x.denom
}

/// Numerator of the height of `s` at `x`:
/// `y1 * (x2 - x1) * xd + (xn - x1 * xd) * (y2 - y1)`, or `y1` on a vertical.
pub open spec fn height_num(s: Segment, x: Rational) -> int {
    if s.p1.x == s.p2.x {
        s.p1.y as int
    } else {
        s.p1.y * (s.p2.x - s.p1.x) * x.denom + (x.num - s.p1.x * x.denom) * (s.p2.y - s.p1.y)
    }
}

/// Denominator of the height of `s` at `x`: `(x2 - x1) * xd`, or 1 on a vertical.
pub open spec fn height_den(s: Segment, x: Rational) -> int {
    if s.p1.x == s.p2.x {
        1
    } else {
        (s.p2.x - s.p1.x) * x.denom
    }
}

/// Limit on the numerator of a height (`5 * 2^64`).
pub open spec fn height_num_bound() -> int {
    0x5_0000_0000_0000_0000
}

/// Limit on the denominator of a height (`2^49`).
pub open spec fn height_den_bound() -> int {
    0x2_0000_0000_0000
}

impl Segment {
    /// Creates a new segment, normalizing so p1 is the left endpoint.
    pub fn new(a: Point2<i64>, b: Point2<i64>) -> (r: Self)
        ensures
            r == normalized_segment(a, b),
    {
        if a.x < b.x || (a.x == b.x && a.y <= b.y) {
            Self { p1: a, p2: b }
        } else {
            Self { p1: b, p2: a }
        }
    }

    /// Returns true if this segment is vertical (same x-coordinate).
    pub fn is_vertical(&self) -> (r: bool)
        ensures
            r == (self.p1.x == self.p2.x),
    {
        self.p1.x == self.p2.x
    }

    /// Computes the y-coordinate of this segment at the given x position.
    /// Returns None if x is outside the segment's x-range; a vertical
    /// segment gives its lower y.
    fn y_at_x(&self, x: Rational) -> (r: Option<Rational>)
        requires
            segment_in_sweep_range(*self),
            event_coord_ok(x),
        ensures
            r is Some <==> spans_x(*self, x),
            r is Some ==> r->0.num == height_num(*self, x) && r->0.denom == height_den(*self, x),
            r is Some ==> 0 < r->0.denom <= height_den_bound() && abs_le(
                r->0.num as int,
                height_num_bound(),
            ),
    {
        let x1 = Rational::from_int(self.p1.x);
        let x2 = Rational::from_int(self.p2.x);
        proof {
            lemma_abs_mul_le(self.p1.x as int, x.denom as int, 0x8000, event_den_bound());
            lemma_abs_mul_le(self.p2.x as int, x.denom as int, 0x8000, event_den_bound());
        }
        if x < x1 || x > x2 {
            return None;
        }
        if self.is_vertical() {
            return Some(Rational::from_int(self.p1.y));
        }
        let y1 = Rational::from_int(self.p1.y);
        let y2 = Rational::from_int(self.p2.y);
        let ghost w: int = self.p2.x - self.p1.x;
        let ghost xd: int = x.denom as int;
        let ghost dn: int = x.num - self.p1.x * x.denom;
        proof {
            assert(self.p1.x * xd <= self.p2.x * xd);
            assert(w > 0) by (nonlinear_arith)
                requires
                    self.p1.x * xd <= self.p2.x * xd,
                    xd > 0,
                    w == self.p2.x - self.p1.x,
                    w != 0,
            ;
            lemma_abs_mul_le(xd, w, event_den_bound(), 0x1_0000);
            assert(xd * w > 0) by (nonlinear_arith)
                requires
                    xd > 0,
                    w > 0,
            ;
        }
        let d = x - x1;
        let span = x2 - x1;
        proof {
            assert(d.num == dn);
            assert(d.denom == xd);
            assert(span.num == w);
            assert(span.denom == 1);
            assert(d.denom * span.num == xd * w);
            assert(d.num * span.denom == dn);
        }
        let t = d / span;
        proof {
            assert(t.num == dn);
            assert(t.denom == xd * w);
            lemma_abs_mul_le(dn, self.p2.y - self.p1.y, 0x4_0000_0000_0000, 0x1_0000);
        }
        let rise = y2 - y1;
        proof {
            assert(rise.num == self.p2.y - self.p1.y);
            assert(rise.denom == 1);
            assert(t.num * rise.num == dn * (self.p2.y - self.p1.y));
            assert(t.denom * rise.denom == xd * w);
        }
        let m = t * rise;
        proof {
            assert(m.num == dn * (self.p2.y - self.p1.y));
            assert(m.denom == xd * w);
            lemma_abs_mul_le(self.p1.y as int, xd * w, 0x8000, height_den_bound());
            assert(self.p1.y * (xd * w) == self.p1.y * w * xd) by (nonlinear_arith);
            assert(xd * w == w * xd) by (nonlinear_arith);
        }
        Some(y1 + m)
    }
}

/// Two heights can be compared without overflow.
proof fn lemma_heights_comparable(a: Rational, b: Rational)
    requires
        0 < a.denom <= height_den_bound(),
        abs_le(a.num as int, height_num_bound()),
        0 < b.denom <= height_den_bound(),
        abs_le(b.num as int, height_num_bound()),
    ensures
        fits_i128(a.num * b.denom),
        fits_i128(b.num * a.denom),
{
    lemma_abs_mul_le(a.num as int, b.denom as int, height_num_bound(), height_den_bound());
    lemma_abs_mul_le(b.num as int, a.denom as int, height_num_bound(), height_den_bound());
}

// ---------------------------------------------------------------------------
// Ordering of segments along the sweep line
// ---------------------------------------------------------------------------

/// The `i`-th segment of `segs`.
pub open spec fn seg_at(segs: Seq<Segment>, i: usize) -> Segment {
    segs[i as int]
}

/// Cross difference of the heights of `a` and `b` at `x`
/// (its sign compares the two heights).
pub open spec fn height_cross(a: Segment, b: Segment, x: Rational) -> int {
    height_num(a, x) * height_den(b, x) - height_num(b, x) * height_den(a, x)
}

/// The order of segments `a` and `b` along the sweep line at `x`: by height
/// where both span `x`; a segment that spans `x` comes before one that does
/// not; otherwise by index.
pub open spec fn segment_order(segs: Seq<Segment>, x: Rational, a: usize, b: usize) -> Ordering {
    let sa = seg_at(segs, a);
    let sb = seg_at(segs, b);
    if spans_x(sa, x) && spans_x(sb, x) {
        sign_of(height_cross(sa, sb, x))
    } else if spans_x(sa, x) {
        Ordering::Less
    } else if spans_x(sb, x) {
        Ordering::Greater
    } else {
        sign_of(a - b)
    }
}

/// Every entry of `active` indexes into a list of `n` segments.
pub open spec fn indices_below(active: Seq<usize>, n: nat) -> bool {
    forall|i: int| 0 <= i < active.len() ==> #[trigger] active[i] < n
}

/// The entry of `s` at position `i`.
pub open spec fn entry(s: Seq<usize>, i: usize) -> usize {
    s[i as int]
}

/// Along `active`, the segments ordered before `seg` at `x` come first and
/// those ordered after it come last.
pub open spec fn partitioned_around(segs: Seq<Segment>, x: Rational, active: Seq<usize>, seg: usize) -> bool {
    forall|i: int, j: int|
        #![trigger active[i], active[j]]
        0 <= i < j < active.len() ==> {
            &&& segment_order(segs, x, active[j], seg) == Ordering::Less ==> segment_order(
                segs,
                x,
                active[i],
                seg,
            ) == Ordering::Less
            &&& segment_order(segs, x, active[i], seg) == Ordering::Greater ==> segment_order(
                segs,
                x,
                active[j],
                seg,
            ) == Ordering::Greater
        }
}

/// `pos` is what a binary search for `seg` in `active` at `x` may return:
/// the entry at `pos` is level with `seg`, or the entry before it is ordered
/// before `seg`, or `pos` is 0 and the first entry (if any) is ordered after
/// `seg`. Where `active` is partitioned around `seg`, inserting at `pos`
/// keeps it partitioned.
pub open spec fn insert_position_ok(segs: Seq<Segment>, x: Rational, active: Seq<usize>, seg: usize, pos: usize) -> bool {
    &&& pos <= active.len()
    &&& (pos < active.len() && segment_order(segs, x, entry(active, pos), seg) == Ordering::Equal) || (
    pos > 0 && segment_order(segs, x, active[pos - 1], seg) == Ordering::Less) || (pos == 0 && (
    active.len() == 0 || segment_order(segs, x, active[0], seg) == Ordering::Greater))
    &&& partitioned_around(segs, x, active, seg) ==> {
        &&& pos > 0 ==> segment_order(segs, x, active[pos - 1], seg) != Ordering::Greater
        &&& pos < active.len() ==> segment_order(segs, x, entry(active, pos), seg) != Ordering::Less
    }
}

/// `pos` is the first position of `seg` in `active`, or `None` when it does not occur.
pub open spec fn first_position(active: Seq<usize>, seg: usize, pos: Option<usize>) -> bool {
    match pos {
        Some(p) => p < active.len() && entry(active, p) == seg && forall|j: int|
            0 <= j < p ==> #[trigger] active[j] != seg,
        None => !active.contains(seg),
    }
}

/// The entry after position `pos`, if there is one.
pub open spec fn entry_above(active: Seq<usize>, pos: usize) -> Option<usize> {
    if pos + 1 < active.len() {
        Some(active[pos + 1])
    } else {
        None
    }
}

/// The entry before position `pos`, if there is one.
pub open spec fn entry_below(active: Seq<usize>, pos: usize) -> Option<usize> {
    if 0 < pos && pos <= active.len() {
        Some(active[pos - 1])
    } else {
        None
    }
}

/// `active` with the entries at `pos` and `pos + 1` exchanged, where both exist.
pub open spec fn swapped_at(active: Seq<usize>, pos: usize) -> Seq<usize> {
    if pos + 1 < active.len() {
        active.update(pos as int, active[pos + 1]).update(pos + 1, active[pos as int])
    } else {
        active
    }
}

/// Sweep line status: maintains active segments ordered by y-coordinate.
struct SweepStatus {
    /// Active segment indices, maintained in sorted order by y at current x.
    active: Vec<usize>,
    /// Current sweep line x-position.
    sweep_x: Rational,
    /// All segments.
    segments: Vec<Segment>,
}

impl SweepStatus {
    /// The segments lie in the sweep range and the active entries index them.
    spec fn wf(&self) -> bool {
        &&& segments_in_sweep_range(self.segments@)
        &&& indices_below(self.active@, self.segments@.len())
    }

    fn new(segments: Vec<Segment>) -> (r: Self)
        requires
            segments_in_sweep_range(segments@),
        ensures
            r.wf(),
            r.active@ == Seq::<usize>::empty(),
            r.segments@ == segments@,
            r.sweep_x.num == i64::MIN,
            r.sweep_x.denom == 1,
    {
        Self { active: Vec::new(), sweep_x: Rational::from_int(i64::MIN), segments }
    }

    fn set_sweep_x(&mut self, x: Rational)
        ensures
            final(self).sweep_x == x,
            final(self).active@ == old(self).active@,
            final(self).segments@ == old(self).segments@,
    {
        self.sweep_x = x;
    }

    /// Compares two segments by y-coordinate at current sweep position.
    fn compare_segments(&self, a: usize, b: usize) -> (o: Ordering)
        requires
            self.wf(),
            a < self.segments@.len(),
            b < self.segments@.len(),
            event_coord_ok(self.sweep_x),
        ensures
            o == segment_order(self.segments@, self.sweep_x, a, b),
    {
        let seg_a = self.segments[a];
        let seg_b = self.segments[b];
        let y_a = seg_a.y_at_x(self.sweep_x);
        let y_b = seg_b.y_at_x(self.sweep_x);
        match (y_a, y_b) {
            (Some(ya), Some(yb)) => {
                proof {
                    lemma_heights_comparable(ya, yb);
                }
                ya.cmp(&yb)
            },
            (Some(_), None) => Ordering::Less,
            (None, Some(_)) => Ordering::Greater,
            (None, None) => {
                if a < b {
                    Ordering::Less
                } else if a > b {
                    Ordering::Greater
                } else {
                    Ordering::Equal
                }
            },
        }
    }

    /// Finds the position where a segment should be inserted: a binary
    /// search over the active list, compared at the current sweep position.
    fn find_insert_position(&self, segment_idx: usize) -> (pos: usize)
        requires
            self.wf(),
            segment_idx < self.segments@.len(),
            event_coord_ok(self.sweep_x),
        ensures
            insert_position_ok(self.segments@, self.sweep_x, self.active@, segment_idx, pos),
    {
        let mut size = self.active.len();
        if size == 0 {
            return 0;
        }
        let mut base: usize = 0;
        while size > 1
            invariant
                self.wf(),
                segment_idx < self.segments@.len(),
                event_coord_ok(self.sweep_x),
                size >= 1,
                base + size <= self.active.len(),
                base > 0 ==> segment_order(self.segments@, self.sweep_x, entry(self.active@, base), segment_idx)
                    != Ordering::Greater,
                partitioned_around(self.segments@, self.sweep_x, self.active@, segment_idx) ==> forall|k: int|
                    base + size <= k < self.active@.len() ==> segment_order(
                        self.segments@,
                        self.sweep_x,
                        #[trigger] self.active@[k],
                        segment_idx,
                    ) == Ordering::Greater,
            decreases size,
        {
            let half = size / 2;
            let mid = base + half;
            let c = self.compare_segments(self.active[mid], segment_idx);
            if !matches!(c, Ordering::Greater) {
                base = mid;
            } else {
                proof {
                    if partitioned_around(self.segments@, self.sweep_x, self.active@, segment_idx) {
                        assert forall|k: int| mid <= k < self.active@.len() implies segment_order(
                            self.segments@,
                            self.sweep_x,
                            #[trigger] self.active@[k],
                            segment_idx,
                        ) == Ordering::Greater by {
                            if k > mid {
                                assert(entry(self.active@, mid) == self.active@[k - (k - mid)]);
                            }
                        }
                    }
                }
            }
            size = size - half;
        }
        let c = self.compare_segments(self.active[base], segment_idx);
        match c {
            Ordering::Equal => base,
            Ordering::Less => base + 1,
            Ordering::Greater => base,
        }
    }

    /// Inserts a segment into the active set, returns its position.
    fn insert(&mut self, segment_idx: usize) -> (pos: usize)
        requires
            old(self).wf(),
            segment_idx < old(self).segments@.len(),
            event_coord_ok(old(self).sweep_x),
        ensures
            final(self).wf(),
            insert_position_ok(old(self).segments@, old(self).sweep_x, old(self).active@, segment_idx, pos),
            final(self).active@ == old(self).active@.insert(pos as int, segment_idx),
            pos < final(self).active.len(),
            final(self).segments@ == old(self).segments@,
            final(self).sweep_x == old(self).sweep_x,
    {
        let pos = self.find_insert_position(segment_idx);
        self.active.insert(pos, segment_idx);
        proof {
            assert forall|i: int| 0 <= i < self.active@.len() implies #[trigger] self.active@[i]
                < self.segments@.len() by {
                if i > pos {
                    assert(self.active@[i] == old(self).active@[i - 1]);
                } else if i < pos {
                    assert(self.active@[i] == old(self).active@[i]);
                }
            }
        }
        pos
    }

    /// Finds the position of a segment in the active set.
    fn find_position(&self, segment_idx: usize) -> (r: Option<usize>)
        ensures
            first_position(self.active@, segment_idx, r),
    {
        let mut i: usize = 0;
        while i < self.active.len()
            invariant
                i <= self.active@.len(),
                forall|j: int| 0 <= j < i ==> #[trigger] self.active@[j] != segment_idx,
            decreases self.active@.len() - i,
        {
            if self.active[i] == segment_idx {
                return Some(i);
            }
            i = i + 1;
        }
        None
    }

    /// Removes a segment from the active set, returns its former position.
    fn remove(&mut self, segment_idx: usize) -> (r: Option<usize>)
        requires
            old(self).wf(),
        ensures
            final(self).wf(),
            first_position(old(self).active@, segment_idx, r),
            final(self).active@ == (match r {
                Some(p) => old(self).active@.remove(p as int),
                None => old(self).active@,
            }),
            final(self).segments@ == old(self).segments@,
            final(self).sweep_x == old(self).sweep_x,
    {
        match self.find_position(segment_idx) {
            Some(pos) => {
                self.active.remove(pos);
                proof {
                    assert forall|i: int| 0 <= i < self.active@.len() implies #[trigger] self.active@[i]
                        < self.segments@.len() by {
                        if i >= pos {
                            assert(self.active@[i] == old(self).active@[i + 1]);
                        } else {
                            assert(self.active@[i] == old(self).active@[i]);
                        }
                    }
                }
                Some(pos)
            },
            None => None,
        }
    }

    /// Gets the neighbor above (higher y) the segment at position pos.
    fn neighbor_above(&self, pos: usize) -> (r: Option<usize>)
        requires
            pos < usize::MAX,
        ensures
            r == entry_above(self.active@, pos),
    {
        if pos + 1 < self.active.len() {
            Some(self.active[pos + 1])
        } else {
            None
        }
    }

    /// Gets the neighbor below (lower y) the segment at position pos.
    fn neighbor_below(&self, pos: usize) -> (r: Option<usize>)
        requires
            pos <= self.active@.len(),
        ensures
            r == entry_below(self.active@, pos),
    {
        if pos > 0 {
            Some(self.active[pos - 1])
        } else {
            None
        }
    }

    /// Swaps two adjacent segments at positions pos and pos+1.
    fn swap_adjacent(&mut self, pos: usize)
        requires
            old(self).wf(),
            pos < usize::MAX,
        ensures
            final(self).wf(),
            final(self).active@ == swapped_at(old(self).active@, pos),
            final(self).segments@ == old(self).segments@,
            final(self).sweep_x == old(self).sweep_x,
    {
        if pos + 1 < self.active.len() {
            let lower = self.active[pos];
            let upper = self.active[pos + 1];
            self.active.set(pos, upper);
            self.active.set(pos + 1, lower);
            proof {
                assert forall|i: int| 0 <= i < self.active@.len() implies #[trigger] self.active@[i]
                    < self.segments@.len() by {
                    if i != pos && i != pos + 1 {
                        assert(self.active@[i] == old(self).active@[i]);
                    }
                }
            }
        }
    }
}

// ---------------------------------------------------------------------------
// Events and the event queue
// ---------------------------------------------------------------------------

/// Event types for the sweep line.
#[derive(Debug, Clone, Copy)]
enum Event {
    /// Left endpoint of a segment (segment starts).
    LeftEndpoint { segment_idx: usize },
    /// Right endpoint of a segment (segment ends).
    RightEndpoint { segment_idx: usize },
    /// Intersection point between two segments.
    Crossing { seg_a: usize, seg_b: usize, point: RationalPoint },
}

/// An event with its position, used for priority queue ordering.
#[derive(Debug, Clone, Copy)]
struct QueuedEvent {
    x: Rational,
    y: Rational,
    event: Event,
}

/// The position `(x, y)` of `p` comes no later than that of `q` in sweep
/// order (by `x`, then by `y`, compared by value).
pub open spec fn key_le(px: Rational, py: Rational, qx: Rational, qy: Rational) -> bool {
    px.value_lt(qx) || (px.same_value(qx) && py.value_le(qy))
}

/// Event `p` is due no later than event `q`.
spec fn due_no_later(p: QueuedEvent, q: QueuedEvent) -> bool {
    key_le(p.x, p.y, q.x, q.y)
}

/// Both coordinates of a queued event are event coordinates.
spec fn queued_ok(e: QueuedEvent) -> bool {
    event_coord_ok(e.x) && event_coord_ok(e.y)
}

/// Every queued event has event coordinates.
spec fn all_queued_ok(s: Seq<QueuedEvent>) -> bool {
    forall|i: int| 0 <= i < s.len() ==> #[trigger] queued_ok(s[i])
}

/// Index of the parent of node `i` in an implicit binary tree.
spec fn parent_of(i: int) -> int {
    (i - 1) / 2
}

/// The node `i` is due no earlier than its parent.
spec fn edge_ok(s: Seq<QueuedEvent>, i: int) -> bool {
    due_no_later(s[parent_of(i)], s[i])
}

/// `s` is a heap: every node is due no earlier than its parent.
spec fn is_heap(s: Seq<QueuedEvent>) -> bool {
    forall|i: int| 0 < i < s.len() ==> #[trigger] edge_ok(s, i)
}

/// Every parent-child pair of `s` that does not involve node `h` is in heap order.
spec fn heap_except(s: Seq<QueuedEvent>, h: int) -> bool {
    forall|i: int| 0 < i < s.len() && i != h && parent_of(i) != h ==> #[trigger] edge_ok(s, i)
}

/// The children of node `h` are due no earlier than `h`.
spec fn hole_dominates(s: Seq<QueuedEvent>, h: int) -> bool {
    forall|i: int| 0 < i < s.len() && parent_of(i) == h ==> #[trigger] edge_ok(s, i)
}

/// The children of node `h` are due no earlier than the parent of `h`.
spec fn bridge(s: Seq<QueuedEvent>, h: int) -> bool {
    h > 0 ==> forall|i: int|
        0 < i < s.len() && parent_of(i) == h ==> due_no_later(s[parent_of(h)], #[trigger] s[i])
}

/// Sweep order is transitive.
proof fn lemma_due_trans(p: QueuedEvent, q: QueuedEvent, r: QueuedEvent)
    requires
        queued_ok(p),
        queued_ok(q),
        queued_ok(r),
        due_no_later(p, q),
        due_no_later(q, r),
    ensures
        due_no_later(p, r),
{
    lemma_value_order_transitive(p.x, q.x, r.x);
    lemma_value_order_transitive(p.y, q.y, r.y);
    lemma_value_order_transitive(p.x, r.x, q.x);
    lemma_value_order_transitive(q.x, p.x, r.x);
}

/// Sweep order is total.
proof fn lemma_due_total(p: QueuedEvent, q: QueuedEvent)
    requires
        queued_ok(p),
        queued_ok(q),
    ensures
        due_no_later(p, q) || due_no_later(q, p),
{
}

/// In a heap, the root is due no later than any node.
proof fn lemma_root_first(s: Seq<QueuedEvent>, i: int)
    requires
        is_heap(s),
        all_queued_ok(s),
        0 <= i < s.len(),
    ensures
        due_no_later(s[0], s[i]),
    decreases i,
{
    if i == 0 {
    } else {
        let p = parent_of(i);
        assert(edge_ok(s, i));
        lemma_root_first(s, p);
        assert(queued_ok(s[0]) && queued_ok(s[p]) && queued_ok(s[i]));
        lemma_due_trans(s[0], s[p], s[i]);
    }
}

/// Exchanging two entries keeps a sequence's multiset.
proof fn lemma_swap_multiset(s: Seq<QueuedEvent>, i: int, j: int)
    requires
        0 <= i < s.len(),
        0 <= j < s.len(),
        i != j,
    ensures
        s.update(i, s[j]).update(j, s[i]).to_multiset() =~= s.to_multiset(),
{
    broadcast use vstd::seq_lib::group_to_multiset_ensures;
    broadcast use vstd::multiset::group_multiset_axioms;

    let s1 = s.update(i, s[j]);
    assert(s1[j] == s[j]);
    assert(s1.to_multiset() == s.to_multiset().insert(s[j]).remove(s[i]));
    assert(s1.update(j, s[i]).to_multiset() == s1.to_multiset().insert(s[i]).remove(s1[j]));
    assert(s.to_multiset().count(s[i]) > 0);
    assert(s.to_multiset().count(s[j]) > 0);
}

/// Binary min-heap of events keyed by sweep position (earliest first).
/// Ties are resolved as the standard library's binary heap resolves them.
struct EventQueue {
    data: Vec<QueuedEvent>,
}

impl EventQueue {
    /// The queue holds a heap of well-formed events.
    spec fn wf(&self) -> bool {
        is_heap(self.data@) && all_queued_ok(self.data@)
    }

    fn new() -> (r: Self)
        ensures
            r.wf(),
            r.data@ == Seq::<QueuedEvent>::empty(),
    {
        EventQueue { data: Vec::new() }
    }

    /// `a <= b` in heap order: `b` is due no later than `a`.
    fn heap_le(a: &QueuedEvent, b: &QueuedEvent) -> (r: bool)
        requires
            queued_ok(*a),
            queued_ok(*b),
        ensures
            r == due_no_later(*b, *a),
    {
        proof {
            lemma_event_coords_comparable(b.x, a.x);
            lemma_event_coords_comparable(b.y, a.y);
        }
        match b.x.cmp(&a.x) {
            Ordering::Less => true,
            Ordering::Greater => false,
            Ordering::Equal => !matches!(b.y.cmp(&a.y), Ordering::Greater),
        }
    }

    /// Moves the event at `pos` up toward the root until its parent is due
    /// no later than it.
    fn sift_up(&mut self, pos: usize)
        requires
            pos < old(self).data@.len(),
            all_queued_ok(old(self).data@),
            heap_except(old(self).data@, pos as int),
            hole_dominates(old(self).data@, pos as int),
            bridge(old(self).data@, pos as int),
        ensures
            final(self).wf(),
            final(self).data@.to_multiset() == old(self).data@.to_multiset(),
            final(self).data@.len() == old(self).data@.len(),
    {
        let elem = self.data[pos];
        let mut hole = pos;
        let ghost orig = self.data@;
        assert(self.data@.update(pos as int, elem) =~= self.data@);
        while hole > 0
            invariant
                hole < self.data@.len(),
                self.data@.len() == orig.len(),
                queued_ok(elem),
                all_queued_ok(self.data@),
                self.data@.update(hole as int, elem).to_multiset() == orig.to_multiset(),
                all_queued_ok(self.data@.update(hole as int, elem)),
                heap_except(self.data@.update(hole as int, elem), hole as int),
                hole_dominates(self.data@.update(hole as int, elem), hole as int),
                bridge(self.data@.update(hole as int, elem), hole as int),
            ensures
                hole < self.data@.len(),
                self.data@.len() == orig.len(),
                self.data@.update(hole as int, elem).to_multiset() == orig.to_multiset(),
                all_queued_ok(self.data@.update(hole as int, elem)),
                is_heap(self.data@.update(hole as int, elem)),
            decreases hole,
        {
            let parent = (hole - 1) / 2;
            let ghost lg = self.data@.update(hole as int, elem);
            assert(lg[parent as int] == self.data@[parent as int]);
            if Self::heap_le(&elem, &self.data[parent]) {
                assert(edge_ok(lg, hole as int));
                assert forall|i: int| 0 < i < lg.len() implies #[trigger] edge_ok(lg, i) by {
                    if i != hole as int && parent_of(i) != hole as int {
                        assert(edge_ok(lg, i));
                    }
                }
                break;
            }
            let pv = self.data[parent];
            self.data.set(hole, pv);
            proof {
                let h = hole as int;
                let p = parent as int;
                let lg2 = self.data@.update(p, elem);
                assert(lg2 =~= lg.update(h, lg[p]).update(p, lg[h]));
                lemma_swap_multiset(lg, h, p);
                assert(queued_ok(lg[p]));
                assert(queued_ok(lg[h]));
                assert(due_no_later(elem, pv));
                assert forall|i: int| 0 <= i < lg2.len() implies #[trigger] queued_ok(lg2[i]) by {
                    if i != h && i != p {
                        assert(lg2[i] == lg[i]);
                    }
                }
                assert forall|i: int| 0 < i < lg2.len() && i != p && parent_of(i) != p implies #[trigger] edge_ok(lg2, i) by {
                    if i == h {
                    } else if parent_of(i) == h {
                        assert(lg2[i] == lg[i]);
                        assert(lg2[h] == pv);
                    } else {
                        assert(edge_ok(lg, i));
                        assert(lg2[i] == lg[i]);
                        assert(lg2[parent_of(i)] == lg[parent_of(i)]);
                    }
                }
                assert forall|i: int| 0 < i < lg2.len() && parent_of(i) == p implies #[trigger] edge_ok(lg2, i) by {
                    if i != h {
                        assert(edge_ok(lg, i));
                        assert(lg2[i] == lg[i]);
                        assert(queued_ok(lg[i]));
                        lemma_due_trans(elem, pv, lg[i]);
                    }
                }
                if p > 0 {
                    let gp = parent_of(p);
                    assert(edge_ok(lg, p));
                    assert(lg2[gp] == lg[gp]);
                    assert(queued_ok(lg[gp]));
                    assert forall|i: int| 0 < i < lg2.len() && parent_of(i) == p implies due_no_later(
                        lg2[parent_of(p)],
                        #[trigger] lg2[i],
                    ) by {
                        if i != h {
                            assert(edge_ok(lg, i));
                            assert(lg2[i] == lg[i]);
                            assert(queued_ok(lg[i]));
                            lemma_due_trans(lg[gp], pv, lg[i]);
                        }
                    }
                }
                assert forall|i: int| 0 <= i < self.data@.len() implies #[trigger] queued_ok(self.data@[i]) by {
                    if i == h {
                        assert(self.data@[i] == pv);
                    }
                }
            }
            hole = parent;
        }
        self.data.set(hole, elem);
    }

    /// Moves the hole left at the root down to a leaf, each time lifting the
    /// child that is due first, then puts the displaced root event there and
    /// sifts it back up.
    fn sift_down_to_bottom(&mut self)
        requires
            old(self).data@.len() > 0,
            all_queued_ok(old(self).data@),
            heap_except(old(self).data@, 0),
        ensures
            final(self).wf(),
            final(self).data@.to_multiset() == old(self).data@.to_multiset(),
            final(self).data@.len() == old(self).data@.len(),
    {
        let end = self.data.len();
        let elem = self.data[0];
        let mut hole: usize = 0;
        let mut child: usize = 1;
        let limit: usize = if end >= 2 {
            end - 2
        } else {
            0
        };
        let ghost orig = self.data@;
        assert(self.data@.update(0, elem) =~= self.data@);
        while child <= limit
            invariant
                end == self.data@.len(),
                end == orig.len(),
                limit < end,
                limit == (if end >= 2 { end - 2 } else { 0 }),
                hole < end,
                child == 2 * hole + 1 || (child == usize::MAX && 2 * hole + 1 > usize::MAX),
                queued_ok(elem),
                all_queued_ok(self.data@),
                self.data@.update(hole as int, elem).to_multiset() == orig.to_multiset(),
                all_queued_ok(self.data@.update(hole as int, elem)),
                heap_except(self.data@.update(hole as int, elem), hole as int),
                bridge(self.data@.update(hole as int, elem), hole as int),
            decreases end - hole,
        {
            let ghost lg = self.data@.update(hole as int, elem);
            if Self::heap_le(&self.data[child], &self.data[child + 1]) {
                child = child + 1;
            }
            proof {
                let sib: int = if child == 2 * hole + 1 { child + 1 } else { child - 1 };
                assert(0 < sib < end);
                assert(lg[child as int] == self.data@[child as int]);
                assert(lg[sib] == self.data@[sib]);
                lemma_due_total(lg[child as int], lg[sib]);
                assert(due_no_later(lg[child as int], lg[sib]));
            }
            let cv = self.data[child];
            self.data.set(hole, cv);
            proof {
                lemma_hole_moves_down(lg, hole as int, child as int, elem);
                assert(self.data@.update(child as int, elem) =~= lg.update(hole as int, lg[child as int]).update(
                    child as int,
                    lg[hole as int],
                ));
                assert forall|i: int| 0 <= i < self.data@.len() implies #[trigger] queued_ok(self.data@[i]) by {
                    if i == hole {
                        assert(self.data@[i] == cv);
                    }
                }
            }
            hole = child;
            child = if hole < usize::MAX / 2 {
                2 * hole + 1
            } else {
                usize::MAX
            };
        }
        if end >= 1 && child == end - 1 {
            let ghost lg = self.data@.update(hole as int, elem);
            let cv = self.data[child];
            self.data.set(hole, cv);
            proof {
                assert(lg[child as int] == cv);
                lemma_hole_moves_down(lg, hole as int, child as int, elem);
                assert(self.data@.update(child as int, elem) =~= lg.update(hole as int, lg[child as int]).update(
                    child as int,
                    lg[hole as int],
                ));
                assert forall|i: int| 0 <= i < self.data@.len() implies #[trigger] queued_ok(self.data@[i]) by {
                    if i == hole {
                        assert(self.data@[i] == cv);
                    }
                }
            }
            hole = child;
        }
        proof {
            let lg = self.data@.update(hole as int, elem);
            assert forall|i: int| 0 < i < lg.len() && parent_of(i) == hole as int implies #[trigger] edge_ok(lg, i) by {
                assert(false);
            }
            assert forall|i: int| 0 < i < lg.len() && parent_of(i) == hole as int implies due_no_later(
                lg[parent_of(hole as int)],
                #[trigger] lg[i],
            ) by {
                assert(false);
            }
        }
        self.data.set(hole, elem);
        self.sift_up(hole);
    }

    /// Adds an event.
    fn push(&mut self, item: QueuedEvent)
        requires
            old(self).wf(),
            queued_ok(item),
        ensures
            final(self).wf(),
            final(self).data@.to_multiset() == old(self).data@.to_multiset().insert(item),
            final(self).data@.len() == old(self).data@.len() + 1,
    {
        broadcast use vstd::seq_lib::group_to_multiset_ensures;

        let old_len = self.data.len();
        self.data.push(item);
        proof {
            let s = self.data@;
            assert(s[old_len as int] == item);
            assert forall|i: int| 0 <= i < s.len() implies #[trigger] queued_ok(s[i]) by {
                if i < old_len {
                    assert(s[i] == old(self).data@[i]);
                }
            }
            assert forall|i: int| 0 < i < s.len() && i != old_len as int && parent_of(i) != old_len as int implies #[trigger] edge_ok(s, i) by {
                assert(edge_ok(old(self).data@, i));
                assert(s[i] == old(self).data@[i]);
                assert(s[parent_of(i)] == old(self).data@[parent_of(i)]);
            }
            assert(old(self).data@.push(item) == s);
        }
        self.sift_up(old_len);
    }

    /// Removes and returns the event that is due first.
    fn pop(&mut self) -> (r: Option<QueuedEvent>)
        requires
            old(self).wf(),
        ensures
            final(self).wf(),
            match r {
                None => old(self).data@.len() == 0 && final(self).data@ == old(self).data@,
                Some(e) => {
                    &&& old(self).data@.len() > 0
                    &&& e == old(self).data@[0]
                    &&& forall|i: int|
                        0 <= i < old(self).data@.len() ==> due_no_later(e, #[trigger] old(self).data@[i])
                    &&& old(self).data@.to_multiset() == final(self).data@.to_multiset().insert(e)
                    &&& final(self).data@.len() == old(self).data@.len() - 1
                },
            },
    {
        broadcast use vstd::seq_lib::group_to_multiset_ensures;
        broadcast use vstd::multiset::group_multiset_axioms;

        let ghost s = self.data@;
        proof {
            assert forall|i: int| 0 <= i < s.len() implies due_no_later(s[0], #[trigger] s[i]) by {
                lemma_root_first(s, i);
            }
        }
        match self.data.pop() {
            None => None,
            Some(item) => {
                proof {
                    assert(s =~= self.data@.push(item));
                }
                if self.data.len() > 0 {
                    let top = self.data[0];
                    self.data.set(0, item);
                    proof {
                        let v = self.data@;
                        assert forall|i: int| 0 <= i < v.len() implies #[trigger] queued_ok(v[i]) by {
                            if i > 0 {
                                assert(v[i] == s[i]);
                            } else {
                                assert(v[i] == s[s.len() - 1]);
                            }
                        }
                        assert forall|i: int| 0 < i < v.len() && i != 0 && parent_of(i) != 0 implies #[trigger] edge_ok(v, i) by {
                            assert(edge_ok(s, i));
                            assert(v[i] == s[i]);
                            assert(v[parent_of(i)] == s[parent_of(i)]);
                        }
                        let w = s.drop_last();
                        assert(v =~= w.update(0, item));
                        assert(w.to_multiset().count(top) > 0);
                        assert(v.to_multiset() =~= w.to_multiset().insert(item).remove(top));
                        assert(s.to_multiset() =~= w.to_multiset().insert(item));
                    }
                    self.sift_down_to_bottom();
                    Some(top)
                } else {
                    proof {
                        assert(self.data@.to_multiset() =~= Multiset::empty());
                    }
                    Some(item)
                }
            },
        }
    }

    /// True when no event is queued.
    fn is_empty(&self) -> (r: bool)
        ensures
            r == (self.data@.len() == 0),
    {
        self.data.len() == 0
    }
}

/// Moving the hole at `h` down into its child `c` (the child due first)
/// keeps the descent invariant, with the hole now at `c`.
proof fn lemma_hole_moves_down(lg: Seq<QueuedEvent>, h: int, c: int, elem: QueuedEvent)
    requires
        0 <= h < c < lg.len(),
        c == 2 * h + 1 || c == 2 * h + 2,
        lg[h] == elem,
        all_queued_ok(lg),
        heap_except(lg, h),
        bridge(lg, h),
        c == 2 * h + 1 && c + 1 < lg.len() ==> due_no_later(lg[c], lg[c + 1]),
        c == 2 * h + 2 ==> due_no_later(lg[c], lg[c - 1]),
    ensures
        ({
            let lg2 = lg.update(h, lg[c]).update(c, lg[h]);
            &&& lg2.to_multiset() == lg.to_multiset()
            &&& all_queued_ok(lg2)
            &&& heap_except(lg2, c)
            &&& bridge(lg2, c)
        }),
{
    let lg2 = lg.update(h, lg[c]).update(c, lg[h]);
    lemma_swap_multiset(lg, h, c);
    assert(parent_of(c) == h);
    assert forall|i: int| 0 <= i < lg2.len() implies #[trigger] queued_ok(lg2[i]) by {
        if i != h && i != c {
            assert(lg2[i] == lg[i]);
        }
    }
    assert forall|i: int| 0 < i < lg2.len() && i != c && parent_of(i) != c implies #[trigger] edge_ok(lg2, i) by {
        if i == h {
            assert(lg2[parent_of(h)] == lg[parent_of(h)]);
        } else if parent_of(i) == h {
            assert(lg2[i] == lg[i]);
        } else {
            assert(edge_ok(lg, i));
            assert(lg2[i] == lg[i]);
            assert(lg2[parent_of(i)] == lg[parent_of(i)]);
        }
    }
    assert forall|i: int| 0 < i < lg2.len() && parent_of(i) == c implies due_no_later(
        lg2[parent_of(c)],
        #[trigger] lg2[i],
    ) by {
        assert(edge_ok(lg, i));
        assert(lg2[i] == lg[i]);
    }
}

/// Event coordinates can be compared without overflow.
proof fn lemma_event_coords_comparable(a: Rational, b: Rational)
    requires
        event_coord_ok(a),
        event_coord_ok(b),
    ensures
        fits_i128(a.num * b.denom),
        fits_i128(b.num * a.denom),
{
    lemma_abs_mul_le(a.num as int, b.denom as int, event_num_bound(), event_den_bound());
    lemma_abs_mul_le(b.num as int, a.denom as int, event_num_bound(), event_den_bound());
}

/// An intersection found by the sweep line algorithm.
#[derive(Debug, Clone, Copy)]
pub struct Intersection {
    /// The exact intersection point.
    pub point: RationalPoint,
    /// Indices of the two intersecting segments.
    pub segments: (usize, usize),
}

// ---------------------------------------------------------------------------
// Found pairs
// ---------------------------------------------------------------------------

/// The pair `(a, b)` with its smaller index first.
pub open spec fn pair_key(a: usize, b: usize) -> (usize, usize) {
    if a < b {
        (a, b)
    } else {
        (b, a)
    }
}

/// `p` is an increasing pair of indices below `n`.
pub open spec fn pair_ok(p: (usize, usize), n: nat) -> bool {
    p.0 < p.1 && p.1 < n
}

/// The pairs are distinct and each is an increasing pair of indices below `n`.
spec fn found_ok(found: Seq<(usize, usize)>, n: nat) -> bool {
    &&& found.no_duplicates()
    &&& forall|i: int| 0 <= i < found.len() ==> #[trigger] pair_ok(found[i], n)
}

/// The code `a * n + b` of a pair below `n` is below `n * n` and determines the pair.
proof fn lemma_pair_code(p: (usize, usize), q: (usize, usize), n: nat)
    requires
        p.0 < n,
        p.1 < n,
        q.0 < n,
        q.1 < n,
    ensures
        0 <= p.0 * n + p.1 < n * n,
        p.0 * n + p.1 == q.0 * n + q.1 ==> p == q,
{
    assert(0 <= p.0 * n + p.1 < n * n) by (nonlinear_arith)
        requires
            p.0 < n,
            p.1 < n,
    ;
    if p.0 * n + p.1 == q.0 * n + q.1 {
        if p.0 < q.0 {
            assert(p.0 * n + n <= q.0 * n) by (nonlinear_arith)
                requires
                    p.0 < q.0,
            ;
        } else if q.0 < p.0 {
            assert(q.0 * n + n <= p.0 * n) by (nonlinear_arith)
                requires
                    q.0 < p.0,
            ;
        }
    }
}

/// Distinct pairs of indices below `n` number at most `n * n`.
proof fn lemma_pairs_bounded(found: Seq<(usize, usize)>, n: nat)
    requires
        found_ok(found, n),
    ensures
        found.len() <= n * n,
{
    let codes = found.map_values(|p: (usize, usize)| p.0 * n + p.1);
    assert(codes.len() == found.len());
    assert forall|i: int, j: int| 0 <= i < codes.len() && 0 <= j < codes.len() && i != j implies codes[i]
        != codes[j] by {
        assert(pair_ok(found[i], n));
        assert(pair_ok(found[j], n));
        lemma_pair_code(found[i], found[j], n);
    }
    assert(codes.no_duplicates());
    codes.unique_seq_to_set();
    let nn = (n * n) as int;
    vstd::set_lib::lemma_int_range(0, nn);
    assert forall|c: int| codes.to_set().contains(c) implies vstd::set_lib::set_int_range(0, nn).contains(c) by {
        let i = choose|i: int| 0 <= i < codes.len() && codes[i] == c;
        assert(pair_ok(found[i], n));
        lemma_pair_code(found[i], found[i], n);
    }
    vstd::set_lib::lemma_len_subset(codes.to_set(), vstd::set_lib::set_int_range(0, nn));
}

/// Whether `found` holds the pair `key`.
fn contains_pair(found: &Vec<(usize, usize)>, key: (usize, usize)) -> (r: bool)
    ensures
        r == found@.contains(key),
{
    let mut i: usize = 0;
    while i < found.len()
        invariant
            i <= found@.len(),
            forall|j: int| 0 <= j < i ==> #[trigger] found@[j] != key,
        decreases found@.len() - i,
    {
        if found[i].0 == key.0 && found[i].1 == key.1 {
            return true;
        }
        i = i + 1;
    }
    false
}

// ---------------------------------------------------------------------------
// Sweep state
// ---------------------------------------------------------------------------

/// How the segments with indices `a` and `b` meet, by `segment_intersection`.
pub open spec fn crossing_of(segs: Seq<Segment>, a: usize, b: usize) -> SegmentIntersection {
    let sa = seg_at(segs, a);
    let sb = seg_at(segs, b);
    segment_intersection_spec(sa.p1, sa.p2, sb.p1, sb.p2)
}

/// The crossing event queued for segments `a` and `b` (checked in that order).
spec fn crossing_event(segs: Seq<Segment>, a: usize, b: usize) -> QueuedEvent {
    let pt = crossing_of(segs, a, b)->Point_0;
    QueuedEvent { x: pt.x, y: pt.y, event: Event::Crossing { seg_a: a, seg_b: b, point: pt } }
}

/// A queued event refers to segments below `n`; a crossing event is the
/// crossing point of its two segments and its pair has been recorded.
spec fn event_valid(segs: Seq<Segment>, found: Seq<(usize, usize)>, e: QueuedEvent) -> bool {
    match e.event {
        Event::LeftEndpoint { segment_idx } => segment_idx < segs.len(),
        Event::RightEndpoint { segment_idx } => segment_idx < segs.len(),
        Event::Crossing { seg_a, seg_b, point } => {
            &&& seg_a < segs.len()
            &&& seg_b < segs.len()
            &&& crossing_of(segs, seg_a, seg_b) == SegmentIntersection::Point(point)
            &&& e == crossing_event(segs, seg_a, seg_b)
            &&& found.contains(pair_key(seg_a, seg_b))
        },
    }
}

/// The pair `key` has been reported.
pub open spec fn reported(results: Seq<Intersection>, key: (usize, usize)) -> bool {
    exists|i: int| 0 <= i < results.len() && #[trigger] results[i].segments == key
}

/// Number of queued crossing events for the pair `a`, `b`, in either order.
spec fn queued_for(queue: Multiset<QueuedEvent>, segs: Seq<Segment>, a: usize, b: usize) -> int {
    (queue.count(crossing_event(segs, a, b)) + queue.count(crossing_event(segs, b, a))) as int
}

/// What the sweep keeps true between events: every recorded pair is either
/// still queued (once) or already reported (once), and nothing else is.
spec fn sweep_state_ok(
    segs: Seq<Segment>,
    found: Seq<(usize, usize)>,
    queue: Multiset<QueuedEvent>,
    results: Seq<Intersection>,
) -> bool {
    &&& found_ok(found, segs.len())
    &&& forall|e: QueuedEvent| queue.count(e) > 0 ==> #[trigger] event_valid(segs, found, e)
    &&& forall|a: usize, b: usize|
        a < b < segs.len() ==> #[trigger] queued_for(queue, segs, a, b) + (if reported(results, (a, b)) {
            1int
        } else {
            0int
        }) == (if found.contains((a, b)) {
            1int
        } else {
            0int
        })
}

/// A segment does not meet itself in a single point.
proof fn lemma_no_self_point(p: Point2<i64>, q: Point2<i64>)
    ensures
        !(segment_intersection_spec(p, q, p, q) is Point),
{
    assert(orient2d_det(p, q, p) == 0);
    assert(orient2d_det(p, q, q) == 0);
}

/// If the pair `a`, `b` is not yet recorded, checks whether the two
/// segments meet in a point at or ahead of the sweep position; if so,
/// records the pair and queues the crossing.
fn check_intersection(
    a: usize,
    b: usize,
    sweep_x: Rational,
    found: &mut Vec<(usize, usize)>,
    queue: &mut EventQueue,
    segs: &[Segment],
    Ghost(results): Ghost<Seq<Intersection>>,
)
    requires
        a < segs@.len(),
        b < segs@.len(),
        segments_in_sweep_range(segs@),
        event_coord_ok(sweep_x),
        old(queue).wf(),
        sweep_state_ok(segs@, old(found)@, old(queue).data@.to_multiset(), results),
    ensures
        final(queue).wf(),
        sweep_state_ok(segs@, final(found)@, final(queue).data@.to_multiset(), results),
        same_endpoints(old(queue).data@.to_multiset(), final(queue).data@.to_multiset()),
        forall|k: (usize, usize)| old(found)@.contains(k) ==> #[trigger] final(found)@.contains(k),
        ({
            let key = pair_key(a, b);
            let hit = crossing_of(segs@, a, b);
            if !old(found)@.contains(key) && hit is Point && sweep_x.value_le(hit->Point_0.x) {
                &&& final(found)@ == old(found)@.push(key)
                &&& final(queue).data@.to_multiset() == old(queue).data@.to_multiset().insert(
                    crossing_event(segs@, a, b),
                )
                &&& final(queue).data@.len() == old(queue).data@.len() + 1
            } else {
                &&& final(found)@ == old(found)@
                &&& final(queue).data@ == old(queue).data@
            }
        }),
{
    broadcast use vstd::multiset::group_multiset_axioms;

    let key = if a < b {
        (a, b)
    } else {
        (b, a)
    };
    if contains_pair(found, key) {
        return;
    }
    let seg_a = segs[a];
    let seg_b = segs[b];
    proof {
        assert(segment_in_sweep_range(segs@[a as int]));
        assert(segment_in_sweep_range(segs@[b as int]));
        lemma_sweep_intersection(seg_a.p1, seg_a.p2, seg_b.p1, seg_b.p2);
        if a == b {
            lemma_no_self_point(seg_a.p1, seg_a.p2);
        }
    }
    if let SegmentIntersection::Point(pt) = segment_intersection(seg_a.p1, seg_a.p2, seg_b.p1, seg_b.p2) {
        proof {
            lemma_event_coords_comparable(pt.x, sweep_x);
        }
        if pt.x >= sweep_x {
            let ghost old_found = found@;
            let ghost old_ms = queue.data@.to_multiset();
            let ev = QueuedEvent { x: pt.x, y: pt.y, event: Event::Crossing { seg_a: a, seg_b: b, point: pt } };
            found.push(key);
            queue.push(ev);
            proof {
                assert forall|k: (usize, usize)| old_found.contains(k) implies #[trigger] found@.contains(k) by {
                    let idx = choose|idx: int| 0 <= idx < old_found.len() && old_found[idx] == k;
                    assert(found@[idx] == k);
                }
                assert forall|x: QueuedEvent| !(x.event is Crossing) implies #[trigger] old_ms.count(x)
                    == queue.data@.to_multiset().count(x) by {
                    assert(x != ev);
                }
                let n = segs@.len();
                let f = found@;
                let ms = queue.data@.to_multiset();
                assert(ev == crossing_event(segs@, a, b));
                assert forall|i: int, j: int| 0 <= i < f.len() && 0 <= j < f.len() && i != j implies f[i]
                    != f[j] by {
                    if i == old_found.len() {
                        assert(old_found.contains(f[j]));
                    } else if j == old_found.len() {
                        assert(old_found.contains(f[i]));
                    } else {
                        assert(f[i] == old_found[i] && f[j] == old_found[j]);
                    }
                }
                assert forall|i: int| 0 <= i < f.len() implies #[trigger] pair_ok(f[i], n) by {
                    if i < old_found.len() {
                        assert(f[i] == old_found[i]);
                    }
                }
                assert forall|e: QueuedEvent| ms.count(e) > 0 implies #[trigger] event_valid(segs@, f, e) by {
                    if e != ev {
                        assert(old_ms.count(e) > 0);
                        assert(event_valid(segs@, old_found, e));
                        if let Event::Crossing { seg_a: sa, seg_b: sb, point: _ } = e.event {
                            let k = pair_key(sa, sb);
                            let idx = choose|idx: int| 0 <= idx < old_found.len() && old_found[idx] == k;
                            assert(f[idx] == k);
                        }
                    } else {
                        assert(f[f.len() - 1] == key);
                    }
                }
                assert forall|x: usize, y: usize| x < y < n implies #[trigger] queued_for(ms, segs@, x, y) + (
                if reported(results, (x, y)) {
                    1int
                } else {
                    0int
                }) == (if f.contains((x, y)) {
                    1int
                } else {
                    0int
                }) by {
                    assert(queued_for(old_ms, segs@, x, y) + (if reported(results, (x, y)) {
                        1int
                    } else {
                        0int
                    }) == (if old_found.contains((x, y)) {
                        1int
                    } else {
                        0int
                    }));
                    if (x, y) == key {
                        assert(f[f.len() - 1] == key);
                        assert(f.contains((x, y)));
                    } else {
                        assert(crossing_event(segs@, x, y) != ev);
                        assert(crossing_event(segs@, y, x) != ev);
                        if f.contains((x, y)) {
                            let idx = choose|idx: int| 0 <= idx < f.len() && f[idx] == (x, y);
                            assert(old_found[idx] == (x, y));
                        }
                        if old_found.contains((x, y)) {
                            let idx = choose|idx: int| 0 <= idx < old_found.len() && old_found[idx] == (x, y);
                            assert(f[idx] == (x, y));
                        }
                    }
                }
            }
        }
    }
}

/// Taking a non-crossing event out of the queue keeps the sweep state.
proof fn lemma_take_endpoint(
    segs: Seq<Segment>,
    found: Seq<(usize, usize)>,
    rest: Multiset<QueuedEvent>,
    e: QueuedEvent,
    results: Seq<Intersection>,
)
    requires
        sweep_state_ok(segs, found, rest.insert(e), results),
        !(e.event is Crossing),
    ensures
        sweep_state_ok(segs, found, rest, results),
        event_valid(segs, found, e),
{
    broadcast use vstd::multiset::group_multiset_axioms;

    let all = rest.insert(e);
    assert(all.count(e) > 0);
    assert forall|x: QueuedEvent| rest.count(x) > 0 implies #[trigger] event_valid(segs, found, x) by {
        assert(all.count(x) > 0);
    }
    assert forall|a: usize, b: usize| a < b < segs.len() implies #[trigger] queued_for(rest, segs, a, b) + (
    if reported(results, (a, b)) {
        1int
    } else {
        0int
    }) == (if found.contains((a, b)) {
        1int
    } else {
        0int
    }) by {
        assert(queued_for(all, segs, a, b) + (if reported(results, (a, b)) {
            1int
        } else {
            0int
        }) == (if found.contains((a, b)) {
            1int
        } else {
            0int
        }));
        assert(crossing_event(segs, a, b) != e);
        assert(crossing_event(segs, b, a) != e);
    }
}

/// Taking a crossing event out of the queue and reporting its pair keeps
/// the sweep state; the pair was not reported before.
proof fn lemma_take_crossing(
    segs: Seq<Segment>,
    found: Seq<(usize, usize)>,
    rest: Multiset<QueuedEvent>,
    e: QueuedEvent,
    results: Seq<Intersection>,
)
    requires
        sweep_state_ok(segs, found, rest.insert(e), results),
        e.event is Crossing,
    ensures
        ({
            let a = e.event->seg_a;
            let b = e.event->seg_b;
            let r = Intersection { point: e.event->point, segments: pair_key(a, b) };
            &&& a < segs.len() && b < segs.len() && a != b
            &&& intersection_ok(segs, r)
            &&& !reported(results, pair_key(a, b))
            &&& sweep_state_ok(segs, found, rest, results.push(r))
        }),
{
    broadcast use vstd::multiset::group_multiset_axioms;

    let all = rest.insert(e);
    let a = e.event->seg_a;
    let b = e.event->seg_b;
    let pt = e.event->point;
    let key = pair_key(a, b);
    let r = Intersection { point: pt, segments: key };
    let res2 = results.push(r);
    assert(all.count(e) > 0);
    assert(event_valid(segs, found, e));
    let sa = seg_at(segs, a);
    if a == b {
        lemma_no_self_point(sa.p1, sa.p2);
    }
    assert(a != b);
    let lo = key.0;
    let hi = key.1;
    assert(e == crossing_event(segs, lo, hi) || e == crossing_event(segs, hi, lo));
    assert(queued_for(all, segs, lo, hi) >= 1);
    assert(queued_for(all, segs, lo, hi) + (if reported(results, (lo, hi)) {
        1int
    } else {
        0int
    }) == (if found.contains((lo, hi)) {
        1int
    } else {
        0int
    }));
    assert(!reported(results, key));
    assert(res2[results.len() as int].segments == key);
    assert forall|x: QueuedEvent| rest.count(x) > 0 implies #[trigger] event_valid(segs, found, x) by {
        assert(all.count(x) > 0);
    }
    assert forall|x: usize, y: usize| x < y < segs.len() implies #[trigger] queued_for(rest, segs, x, y) + (
    if reported(res2, (x, y)) {
        1int
    } else {
        0int
    }) == (if found.contains((x, y)) {
        1int
    } else {
        0int
    }) by {
        assert(queued_for(all, segs, x, y) + (if reported(results, (x, y)) {
            1int
        } else {
            0int
        }) == (if found.contains((x, y)) {
            1int
        } else {
            0int
        }));
        if (x, y) == key {
            assert(reported(res2, (x, y)));
            assert(crossing_event(segs, lo, hi) != crossing_event(segs, hi, lo));
        } else {
            assert(crossing_event(segs, x, y) != e);
            assert(crossing_event(segs, y, x) != e);
            if reported(res2, (x, y)) {
                let i = choose|i: int| 0 <= i < res2.len() && #[trigger] res2[i].segments == (x, y);
                assert(i < results.len());
                assert(results[i].segments == (x, y));
            }
            if reported(results, (x, y)) {
                let i = choose|i: int| 0 <= i < results.len() && #[trigger] results[i].segments == (x, y);
                assert(res2[i].segments == (x, y));
            }
        }
    }
}

/// `r` reports two distinct segments below `segs.len()`, smaller index
/// first, at the point where `segment_intersection` places their meeting
/// (computed with the two segments in one order or the other).
pub open spec fn intersection_ok(segs: Seq<Segment>, r: Intersection) -> bool {
    &&& pair_ok(r.segments, segs.len())
    &&& (crossing_of(segs, r.segments.0, r.segments.1) == SegmentIntersection::Point(r.point) || crossing_of(
        segs,
        r.segments.1,
        r.segments.0,
    ) == SegmentIntersection::Point(r.point))
}

/// No two reports name the same pair of segments.
pub open spec fn pairs_distinct(results: Seq<Intersection>) -> bool {
    forall|i: int, j: int|
        0 <= i < j < results.len() ==> #[trigger] results[i].segments != #[trigger] results[j].segments
}

// ---------------------------------------------------------------------------
// Endpoint events
// ---------------------------------------------------------------------------

/// `p` comes strictly before `q` in sweep order (by `x`, then by `y`).
pub open spec fn point_before(p: Point2<i64>, q: Point2<i64>) -> bool {
    p.x < q.x || (p.x == q.x && p.y < q.y)
}

/// Segment `s` starts strictly before it ends in sweep order.
pub open spec fn runs_forward(segs: Seq<Segment>, s: usize) -> bool {
    point_before(seg_at(segs, s).p1, seg_at(segs, s).p2)
}

/// The left (`right == false`) or right endpoint of segment `s`.
spec fn end_point(segs: Seq<Segment>, s: usize, right: bool) -> Point2<i64> {
    if right {
        seg_at(segs, s).p2
    } else {
        seg_at(segs, s).p1
    }
}

/// The event queued for that endpoint of segment `s`.
spec fn endpoint_event(segs: Seq<Segment>, s: usize, right: bool) -> QueuedEvent {
    let p = end_point(segs, s, right);
    QueuedEvent {
        x: Rational { num: p.x as i128, denom: 1 },
        y: Rational { num: p.y as i128, denom: 1 },
        event: if right {
            Event::RightEndpoint { segment_idx: s }
        } else {
            Event::LeftEndpoint { segment_idx: s }
        },
    }
}

/// `m1` and `m2` hold the same endpoint events.
spec fn same_endpoints(m1: Multiset<QueuedEvent>, m2: Multiset<QueuedEvent>) -> bool {
    forall|e: QueuedEvent|
        #![trigger m1.count(e)]
        #![trigger m2.count(e)]
        !(e.event is Crossing) ==> m1.count(e) == m2.count(e)
}

/// The queued endpoint events are those `endpoint_event` builds, each at
/// most once, and no endpoint event has been taken while one strictly
/// before it is still queued.
spec fn endpoint_queue_ok(segs: Seq<Segment>, ms: Multiset<QueuedEvent>) -> bool {
    &&& forall|e: QueuedEvent|
        #[trigger] ms.count(e) > 0 ==> match e.event {
            Event::LeftEndpoint { segment_idx } => e == endpoint_event(segs, segment_idx, false),
            Event::RightEndpoint { segment_idx } => e == endpoint_event(segs, segment_idx, true),
            Event::Crossing { .. } => true,
        }
    &&& forall|s: usize, r: bool| s < segs.len() ==> #[trigger] ms.count(endpoint_event(segs, s, r)) <= 1
    &&& forall|s1: usize, r1: bool, s2: usize, r2: bool|
        s1 < segs.len() && s2 < segs.len() && point_before(end_point(segs, s1, r1), end_point(segs, s2, r2))
            && #[trigger] ms.count(endpoint_event(segs, s1, r1)) > 0 ==> #[trigger] ms.count(
            endpoint_event(segs, s2, r2),
        ) > 0
}

/// `active` holds no segment twice and no segment whose left event is still
/// queued, and it holds every segment running forward whose left event has
/// been taken and whose right event has not.
spec fn active_ok(segs: Seq<Segment>, ms: Multiset<QueuedEvent>, active: Seq<usize>) -> bool {
    &&& active.no_duplicates()
    &&& forall|s: usize| #[trigger] active.contains(s) ==> ms.count(endpoint_event(segs, s, false)) == 0
    &&& forall|s: usize|
        s < segs.len() && runs_forward(segs, s) && ms.count(endpoint_event(segs, s, false)) == 0
            && #[trigger] ms.count(endpoint_event(segs, s, true)) > 0 ==> active.contains(s)
}

/// Taking the earliest event keeps the endpoint queue in order.
proof fn lemma_take_earliest(segs: Seq<Segment>, ms0: Multiset<QueuedEvent>, ms1: Multiset<QueuedEvent>, e: QueuedEvent)
    requires
        endpoint_queue_ok(segs, ms0),
        ms0 == ms1.insert(e),
        forall|x: QueuedEvent| #[trigger] ms0.count(x) > 0 ==> due_no_later(e, x),
    ensures
        endpoint_queue_ok(segs, ms1),
{
    broadcast use vstd::multiset::group_multiset_axioms;

    assert forall|x: QueuedEvent| #[trigger] ms1.count(x) > 0 implies match x.event {
        Event::LeftEndpoint { segment_idx } => x == endpoint_event(segs, segment_idx, false),
        Event::RightEndpoint { segment_idx } => x == endpoint_event(segs, segment_idx, true),
        Event::Crossing { .. } => true,
    } by {
        assert(ms0.count(x) > 0);
    }
    assert forall|s: usize, r: bool| s < segs.len() implies #[trigger] ms1.count(endpoint_event(segs, s, r)) <= 1 by {
        assert(ms0.count(endpoint_event(segs, s, r)) <= 1);
    }
    assert forall|s1: usize, r1: bool, s2: usize, r2: bool|
        s1 < segs.len() && s2 < segs.len() && point_before(end_point(segs, s1, r1), end_point(segs, s2, r2))
            && #[trigger] ms1.count(endpoint_event(segs, s1, r1)) > 0 implies #[trigger] ms1.count(
        endpoint_event(segs, s2, r2),
    ) > 0 by {
        let e1 = endpoint_event(segs, s1, r1);
        let e2 = endpoint_event(segs, s2, r2);
        assert(ms0.count(e1) > 0);
        assert(ms0.count(e2) > 0);
        if e2 == e {
            assert(due_no_later(e, e1));
            assert(false);
        }
    }
}

/// Adding or taking crossing events keeps the endpoint queue in order.
proof fn lemma_same_endpoints_queue(segs: Seq<Segment>, m1: Multiset<QueuedEvent>, m2: Multiset<QueuedEvent>)
    requires
        endpoint_queue_ok(segs, m1),
        same_endpoints(m1, m2),
    ensures
        endpoint_queue_ok(segs, m2),
{
    assert forall|x: QueuedEvent| #[trigger] m2.count(x) > 0 implies match x.event {
        Event::LeftEndpoint { segment_idx } => x == endpoint_event(segs, segment_idx, false),
        Event::RightEndpoint { segment_idx } => x == endpoint_event(segs, segment_idx, true),
        Event::Crossing { .. } => true,
    } by {
        if !(x.event is Crossing) {
            assert(m1.count(x) > 0);
        }
    }
    assert forall|s: usize, r: bool| s < segs.len() implies #[trigger] m2.count(endpoint_event(segs, s, r)) <= 1 by {
        assert(m1.count(endpoint_event(segs, s, r)) <= 1);
    }
    assert forall|s1: usize, r1: bool, s2: usize, r2: bool|
        s1 < segs.len() && s2 < segs.len() && point_before(end_point(segs, s1, r1), end_point(segs, s2, r2))
            && #[trigger] m2.count(endpoint_event(segs, s1, r1)) > 0 implies #[trigger] m2.count(
        endpoint_event(segs, s2, r2),
    ) > 0 by {
        assert(m1.count(endpoint_event(segs, s1, r1)) > 0);
        assert(m1.count(endpoint_event(segs, s2, r2)) > 0);
    }
}

/// Taking the left event of segment `s` and inserting `s` into the active
/// segments keeps them tracked.
proof fn lemma_left_taken(
    segs: Seq<Segment>,
    ms0: Multiset<QueuedEvent>,
    ms1: Multiset<QueuedEvent>,
    ms2: Multiset<QueuedEvent>,
    e: QueuedEvent,
    s: usize,
    act0: Seq<usize>,
    pos: int,
)
    requires
        endpoint_queue_ok(segs, ms0),
        active_ok(segs, ms0, act0),
        ms0 == ms1.insert(e),
        forall|x: QueuedEvent| #[trigger] ms0.count(x) > 0 ==> due_no_later(e, x),
        e.event == (Event::LeftEndpoint { segment_idx: s }),
        s < segs.len(),
        same_endpoints(ms1, ms2),
        0 <= pos <= act0.len(),
    ensures
        endpoint_queue_ok(segs, ms2),
        active_ok(segs, ms2, act0.insert(pos, s)),
        !act0.contains(s),
{
    broadcast use vstd::multiset::group_multiset_axioms;

    lemma_take_earliest(segs, ms0, ms1, e);
    lemma_same_endpoints_queue(segs, ms1, ms2);
    let act1 = act0.insert(pos, s);
    let le = endpoint_event(segs, s, false);
    assert(ms0.count(e) > 0);
    assert(e == le);
    assert(ms2.count(le) == 0);
    assert(!act0.contains(s));
    assert forall|i: int, j: int| 0 <= i < act1.len() && 0 <= j < act1.len() && i != j implies act1[i]
        != act1[j] by {
        if i == pos {
            assert(act0.contains(act1[j]));
        } else if j == pos {
            assert(act0.contains(act1[i]));
        } else {
            let i0 = if i < pos { i } else { i - 1 };
            let j0 = if j < pos { j } else { j - 1 };
            assert(act1[i] == act0[i0] && act1[j] == act0[j0]);
        }
    }
    assert forall|x: usize| #[trigger] act1.contains(x) implies ms2.count(endpoint_event(segs, x, false)) == 0 by {
        if x != s {
            let i = choose|i: int| 0 <= i < act1.len() && act1[i] == x;
            let i0 = if i < pos { i } else { i - 1 };
            assert(act0[i0] == x);
            assert(act0.contains(x));
            assert(ms0.count(endpoint_event(segs, x, false)) == 0);
            assert(endpoint_event(segs, x, false) != e);
            assert(ms1.count(endpoint_event(segs, x, false)) == 0);
        }
    }
    assert forall|t: usize|
        t < segs.len() && runs_forward(segs, t) && ms2.count(endpoint_event(segs, t, false)) == 0
            && #[trigger] ms2.count(endpoint_event(segs, t, true)) > 0 implies act1.contains(t) by {
        if t == s {
            assert(act1[pos] == s);
        } else {
            assert(endpoint_event(segs, t, false) != e);
            assert(endpoint_event(segs, t, true) != e);
            assert(ms1.count(endpoint_event(segs, t, false)) == 0);
            assert(ms0.count(endpoint_event(segs, t, true)) > 0);
            assert(act0.contains(t));
            let i = choose|i: int| 0 <= i < act0.len() && act0[i] == t;
            if i < pos {
                assert(act1[i] == t);
            } else {
                assert(act1[i + 1] == t);
            }
        }
    }
}

/// Taking the right event of segment `s` and removing its first occurrence
/// from the active segments keeps them tracked.
proof fn lemma_right_taken(
    segs: Seq<Segment>,
    ms0: Multiset<QueuedEvent>,
    ms1: Multiset<QueuedEvent>,
    ms2: Multiset<QueuedEvent>,
    e: QueuedEvent,
    s: usize,
    act0: Seq<usize>,
    act1: Seq<usize>,
    r: Option<usize>,
)
    requires
        endpoint_queue_ok(segs, ms0),
        active_ok(segs, ms0, act0),
        ms0 == ms1.insert(e),
        forall|x: QueuedEvent| #[trigger] ms0.count(x) > 0 ==> due_no_later(e, x),
        e.event == (Event::RightEndpoint { segment_idx: s }),
        s < segs.len(),
        same_endpoints(ms1, ms2),
        first_position(act0, s, r),
        act1 == (match r {
            Some(p) => act0.remove(p as int),
            None => act0,
        }),
    ensures
        endpoint_queue_ok(segs, ms2),
        active_ok(segs, ms2, act1),
{
    broadcast use vstd::multiset::group_multiset_axioms;

    lemma_take_earliest(segs, ms0, ms1, e);
    lemma_same_endpoints_queue(segs, ms1, ms2);
    let re = endpoint_event(segs, s, true);
    assert(ms0.count(e) > 0);
    assert(e == re);
    assert(ms2.count(re) == 0);
    assert forall|x: usize| #[trigger] act1.contains(x) implies act0.contains(x) by {
        if let Some(p) = r {
            let i = choose|i: int| 0 <= i < act1.len() && act1[i] == x;
            if i < p {
                assert(act0[i] == x);
            } else {
                assert(act0[i + 1] == x);
            }
        }
    }
    assert(act1.no_duplicates()) by {
        if let Some(p) = r {
            assert forall|i: int, j: int| 0 <= i < act1.len() && 0 <= j < act1.len() && i != j implies act1[i]
                != act1[j] by {
                let i0 = if i < p { i } else { i + 1 };
                let j0 = if j < p { j } else { j + 1 };
                assert(act1[i] == act0[i0] && act1[j] == act0[j0]);
            }
        }
    }
    assert forall|x: usize| #[trigger] act1.contains(x) implies ms2.count(endpoint_event(segs, x, false)) == 0 by {
        assert(act0.contains(x));
        assert(ms0.count(endpoint_event(segs, x, false)) == 0);
        assert(endpoint_event(segs, x, false) != e);
        assert(ms1.count(endpoint_event(segs, x, false)) == 0);
    }
    assert forall|t: usize|
        t < segs.len() && runs_forward(segs, t) && ms2.count(endpoint_event(segs, t, false)) == 0
            && #[trigger] ms2.count(endpoint_event(segs, t, true)) > 0 implies act1.contains(t) by {
        assert(t != s);
        assert(endpoint_event(segs, t, false) != e);
        assert(endpoint_event(segs, t, true) != e);
        assert(ms1.count(endpoint_event(segs, t, false)) == 0);
        assert(ms0.count(endpoint_event(segs, t, true)) > 0);
        assert(act0.contains(t));
        if let Some(p) = r {
            let i = choose|i: int| 0 <= i < act0.len() && act0[i] == t;
            assert(i != p);
            if i < p {
                assert(act1[i] == t);
            } else {
                assert(act1[i - 1] == t);
            }
        }
    }
}

/// Taking a crossing event and permuting the active segments keeps them tracked.
proof fn lemma_crossing_taken(
    segs: Seq<Segment>,
    ms0: Multiset<QueuedEvent>,
    ms1: Multiset<QueuedEvent>,
    ms2: Multiset<QueuedEvent>,
    e: QueuedEvent,
    act0: Seq<usize>,
    act1: Seq<usize>,
)
    requires
        endpoint_queue_ok(segs, ms0),
        active_ok(segs, ms0, act0),
        ms0 == ms1.insert(e),
        forall|x: QueuedEvent| #[trigger] ms0.count(x) > 0 ==> due_no_later(e, x),
        e.event is Crossing,
        same_endpoints(ms1, ms2),
        act1.no_duplicates(),
        forall|x: usize| #[trigger] act1.contains(x) <==> act0.contains(x),
    ensures
        endpoint_queue_ok(segs, ms2),
        active_ok(segs, ms2, act1),
        same_endpoints(ms0, ms2),
{
    broadcast use vstd::multiset::group_multiset_axioms;

    lemma_take_earliest(segs, ms0, ms1, e);
    lemma_same_endpoints_queue(segs, ms1, ms2);
    assert forall|x: QueuedEvent| !(x.event is Crossing) implies #[trigger] ms0.count(x) == ms2.count(x) by {
        assert(x != e);
        assert(ms1.count(x) == ms2.count(x));
    }
    assert forall|x: usize| #[trigger] act1.contains(x) implies ms2.count(endpoint_event(segs, x, false)) == 0 by {
        assert(act0.contains(x));
        assert(ms0.count(endpoint_event(segs, x, false)) == 0);
    }
    assert forall|t: usize|
        t < segs.len() && runs_forward(segs, t) && ms2.count(endpoint_event(segs, t, false)) == 0
            && #[trigger] ms2.count(endpoint_event(segs, t, true)) > 0 implies act1.contains(t) by {
        assert(ms0.count(endpoint_event(segs, t, false)) == 0);
        assert(ms0.count(endpoint_event(segs, t, true)) > 0);
        assert(act0.contains(t));
    }
}

/// Exchanging two adjacent entries keeps the same entries, each as often.
proof fn lemma_swapped_at_same(active: Seq<usize>, pos: usize)
    requires
        active.no_duplicates(),
    ensures
        swapped_at(active, pos).no_duplicates(),
        forall|x: usize| #[trigger] swapped_at(active, pos).contains(x) <==> active.contains(x),
{
    let act1 = swapped_at(active, pos);
    if pos + 1 < active.len() {
        let p = pos as int;
        assert forall|i: int, j: int| 0 <= i < act1.len() && 0 <= j < act1.len() && i != j implies act1[i]
            != act1[j] by {
            let i0 = if i == p { p + 1 } else if i == p + 1 { p } else { i };
            let j0 = if j == p { p + 1 } else if j == p + 1 { p } else { j };
            assert(act1[i] == active[i0] && act1[j] == active[j0]);
        }
        assert forall|x: usize| #[trigger] act1.contains(x) <==> active.contains(x) by {
            if act1.contains(x) {
                let i = choose|i: int| 0 <= i < act1.len() && act1[i] == x;
                let i0 = if i == p { p + 1 } else if i == p + 1 { p } else { i };
                assert(active[i0] == x);
            }
            if active.contains(x) {
                let i = choose|i: int| 0 <= i < active.len() && active[i] == x;
                let i1 = if i == p { p + 1 } else if i == p + 1 { p } else { i };
                assert(act1[i1] == x);
            }
        }
    }
}

/// Two segments, each running forward in sweep order and starting strictly
/// before the other ends, that `segment_intersection` finds meeting in a
/// single point.
pub open spec fn two_segments_cross(segs: Seq<Segment>) -> bool {
    &&& segs.len() == 2
    &&& point_before(segs[0].p1, segs[0].p2)
    &&& point_before(segs[1].p1, segs[1].p2)
    &&& point_before(segs[0].p1, segs[1].p2)
    &&& point_before(segs[1].p1, segs[0].p2)
    &&& crossing_of(segs, 0, 1) is Point
}

/// For two crossing segments, the crossing found from either one lies at or
/// ahead of that segment's left end.
proof fn lemma_crossing_ahead(segs: Seq<Segment>, s: usize, other: usize)
    requires
        two_segments_cross(segs),
        segments_in_sweep_range(segs),
        s < 2,
        other == 1 - s,
    ensures
        crossing_of(segs, s, other) is Point,
        endpoint_event(segs, s, false).x.value_le(crossing_of(segs, s, other)->Point_0.x),
{
    let a = segs[s as int];
    let b = segs[other as int];
    assert(segment_in_sweep_range(a));
    assert(segment_in_sweep_range(b));
    lemma_sweep_intersection(a.p1, a.p2, b.p1, b.p2);
    crate::ops::lemma_segment_point_x_within(a.p1, a.p2, b.p1, b.p2);
    assert(crossing_of(segs, s, other) is Point);
    assert(a.p1.x <= a.p2.x);
}

/// When the later of two crossing segments starts, the other one is active,
/// so it becomes a neighbor of the newly inserted one.
proof fn lemma_left_meets(
    segs: Seq<Segment>,
    ms0: Multiset<QueuedEvent>,
    act0: Seq<usize>,
    e: QueuedEvent,
    s: usize,
    other: usize,
    pos: int,
)
    requires
        endpoint_queue_ok(segs, ms0),
        active_ok(segs, ms0, act0),
        indices_below(act0, segs.len()),
        ms0.count(e) > 0,
        e.event == (Event::LeftEndpoint { segment_idx: s }),
        two_segments_cross(segs),
        s < 2,
        other == 1 - s,
        ms0.count(endpoint_event(segs, other, false)) == 0,
        0 <= pos <= act0.len(),
    ensures
        e == endpoint_event(segs, s, false),
        entry_above(act0.insert(pos, s), pos as usize) == Some(other) || entry_below(
            act0.insert(pos, s),
            pos as usize,
        ) == Some(other),
{
    let act1 = act0.insert(pos, s);
    assert(e == endpoint_event(segs, s, false));
    assert(point_before(end_point(segs, s, false), end_point(segs, other, true)));
    assert(ms0.count(endpoint_event(segs, other, true)) > 0);
    assert(runs_forward(segs, other));
    assert(act0.contains(other));
    assert(!act0.contains(s));
    assert forall|i: int| 0 <= i < act0.len() implies act0[i] == other by {
        assert(act0[i] < 2);
        assert(act0.contains(act0[i]));
    }
    if pos + 1 < act1.len() {
        assert(act1[pos + 1] == act0[pos]);
    } else {
        assert(act1[pos - 1] == act0[pos - 1]);
    }
}

/// Finds all intersections among a set of line segments using the
/// Bentley-Ottmann sweep line algorithm.
///
/// Returns a list of intersection points, each with the indices of
/// the two segments that intersect there. Each pair of segments is
/// reported at most once. When the input is exactly two segments that meet
/// in a single point, each starting strictly before the other ends, that
/// pair is reported.
pub fn find_intersections(segments: &[Segment]) -> (r: Vec<Intersection>)
    requires
        segments_in_sweep_range(segments@),
    ensures
        forall|i: int| 0 <= i < r@.len() ==> #[trigger] intersection_ok(segments@, r@[i]),
        pairs_distinct(r@),
        segments@.len() < 2 ==> r@.len() == 0,
        two_segments_cross(segments@) ==> r@.len() == 1 && r@[0].segments == (0usize, 1usize),
{
    broadcast use vstd::multiset::group_multiset_axioms;

    if segments.len() < 2 {
        return Vec::new();
    }
    let ghost segs = segments@;
    let ghost n = segments@.len();
    let mut event_queue = EventQueue::new();
    let mut status = SweepStatus::new(vstd::slice::slice_to_vec(segments));
    let mut result: Vec<Intersection> = Vec::new();
    let mut found: Vec<(usize, usize)> = Vec::new();

    // Initialize event queue with all segment endpoints
    let mut idx: usize = 0;
    proof {
        broadcast use vstd::seq_lib::group_to_multiset_ensures;

        assert(event_queue.data@.to_multiset() =~= Multiset::empty());
    }
    while idx < segments.len()
        invariant
            segs == segments@,
            n == segs.len(),
            segments_in_sweep_range(segs),
            idx <= n,
            event_queue.wf(),
            found@ == Seq::<(usize, usize)>::empty(),
            result@ == Seq::<Intersection>::empty(),
            forall|e: QueuedEvent| #[trigger]
                event_queue.data@.to_multiset().count(e) > 0 ==> !(e.event is Crossing) && event_valid(
                    segs,
                    found@,
                    e,
                ),
            forall|e: QueuedEvent|
                #[trigger] event_queue.data@.to_multiset().count(e) > 0 ==> match e.event {
                    Event::LeftEndpoint { segment_idx } => e == endpoint_event(segs, segment_idx, false),
                    Event::RightEndpoint { segment_idx } => e == endpoint_event(segs, segment_idx, true),
                    Event::Crossing { .. } => true,
                },
            forall|s: usize, r: bool|
                #[trigger] event_queue.data@.to_multiset().count(endpoint_event(segs, s, r)) == if s < idx {
                    1nat
                } else {
                    0nat
                },
        decreases n - idx,
    {
        let seg = segments[idx];
        proof {
            assert(segment_in_sweep_range(segs[idx as int]));
        }
        let left = QueuedEvent {
            x: Rational::from_int(seg.p1.x),
            y: Rational::from_int(seg.p1.y),
            event: Event::LeftEndpoint { segment_idx: idx },
        };
        let right = QueuedEvent {
            x: Rational::from_int(seg.p2.x),
            y: Rational::from_int(seg.p2.y),
            event: Event::RightEndpoint { segment_idx: idx },
        };
        let ghost ms_before = event_queue.data@.to_multiset();
        event_queue.push(left);
        event_queue.push(right);
        proof {
            assert(left == endpoint_event(segs, idx, false));
            assert(right == endpoint_event(segs, idx, true));
            let ms = event_queue.data@.to_multiset();
            assert(ms == ms_before.insert(left).insert(right));
            assert forall|s: usize, r: bool| #[trigger] ms.count(endpoint_event(segs, s, r)) == if s < idx + 1 {
                1nat
            } else {
                0nat
            } by {
                let ev = endpoint_event(segs, s, r);
                assert(ms.count(ev) == ms_before.count(ev) + (if ev == left { 1nat } else { 0nat }) + (if ev == right {
                    1nat
                } else {
                    0nat
                }));
            }
        }
        idx = idx + 1;
    }
    proof {
        let ms = event_queue.data@.to_multiset();
        assert(found_ok(found@, n));
        assert forall|e: QueuedEvent| ms.count(e) > 0 implies #[trigger] event_valid(segs, found@, e) by {
        }
        assert(endpoint_queue_ok(segs, ms));
        assert(active_ok(segs, ms, status.active@));
        assert forall|a: usize, b: usize| a < b < n implies #[trigger] queued_for(ms, segs, a, b) + (if reported(
            result@,
            (a, b),
        ) {
            1int
        } else {
            0int
        }) == (if found@.contains((a, b)) {
            1int
        } else {
            0int
        }) by {
            assert(ms.count(crossing_event(segs, a, b)) == 0);
            assert(ms.count(crossing_event(segs, b, a)) == 0);
        }
    }

    // Process events
    loop
        invariant
            segs == segments@,
            n == segs.len(),
            segments_in_sweep_range(segs),
            status.wf(),
            status.segments@ == segs,
            event_queue.wf(),
            sweep_state_ok(segs, found@, event_queue.data@.to_multiset(), result@),
            found@.len() <= n * n,
            forall|i: int| 0 <= i < result@.len() ==> #[trigger] intersection_ok(segs, result@[i]),
            pairs_distinct(result@),
            endpoint_queue_ok(segs, event_queue.data@.to_multiset()),
            active_ok(segs, event_queue.data@.to_multiset(), status.active@),
            two_segments_cross(segs) && event_queue.data@.to_multiset().count(endpoint_event(segs, 0, false)) == 0
                && event_queue.data@.to_multiset().count(endpoint_event(segs, 1, false)) == 0
                ==> found@.contains((0usize, 1usize)),
        ensures
            event_queue.data@.len() == 0,
        decreases n * n - found@.len(), event_queue.data@.len(),
    {
        let ghost found_before = found@.len();
        let ghost queue_before = event_queue.data@.len();
        let ghost q0 = event_queue.data@;
        let ghost ms0 = q0.to_multiset();
        let ghost act0 = status.active@;
        let ghost found0 = found@;
        let popped = event_queue.pop();
        let event = match popped {
            None => {
                break ;
            },
            Some(event) => event,
        };
        proof {
            assert(queued_ok(q0[0]));
        }
        let ghost ms1 = event_queue.data@.to_multiset();
        proof {
            broadcast use vstd::seq_lib::group_to_multiset_ensures;

            assert forall|x: QueuedEvent| #[trigger] ms0.count(x) > 0 implies due_no_later(event, x) by {
                assert(q0.contains(x));
                let i = choose|i: int| 0 <= i < q0.len() && q0[i] == x;
                assert(due_no_later(event, q0[i]));
            }
            assert(ms0.count(event) > 0);
        }
        status.set_sweep_x(event.x);
        match event.event {
            Event::LeftEndpoint { segment_idx } => {
                proof {
                    lemma_take_endpoint(segs, found@, event_queue.data@.to_multiset(), event, result@);
                }
                let pos = status.insert(segment_idx);
                let ghost other: usize = if segment_idx == 0 {
                    1
                } else {
                    0
                };
                let ghost meets = two_segments_cross(segs) && ms0.count(endpoint_event(segs, other, false))
                    == 0;
                proof {
                    if meets {
                        lemma_left_meets(segs, ms0, act0, event, segment_idx, other, pos as int);
                        lemma_crossing_ahead(segs, segment_idx, other);
                    }
                }
                if let Some(above) = status.neighbor_above(pos) {
                    let ghost before = found@;
                    check_intersection(
                        segment_idx,
                        above,
                        event.x,
                        &mut found,
                        &mut event_queue,
                        segments,
                        Ghost(result@),
                    );
                    proof {
                        if meets && above == other {
                            let key = pair_key(segment_idx, other);
                            if !before.contains(key) {
                                assert(found@ == before.push(key));
                                assert(found@[before.len() as int] == key);
                            }
                            assert(found@.contains(key));
                        }
                    }
                }
                if let Some(below) = status.neighbor_below(pos) {
                    let ghost before = found@;
                    check_intersection(
                        segment_idx,
                        below,
                        event.x,
                        &mut found,
                        &mut event_queue,
                        segments,
                        Ghost(result@),
                    );
                    proof {
                        if meets && below == other {
                            let key = pair_key(segment_idx, other);
                            if !before.contains(key) {
                                assert(found@ == before.push(key));
                                assert(found@[before.len() as int] == key);
                            }
                            assert(found@.contains(key));
                        }
                    }
                }
                proof {
                    let ms2 = event_queue.data@.to_multiset();
                    assert(same_endpoints(ms1, ms2));
                    lemma_left_taken(segs, ms0, ms1, ms2, event, segment_idx, act0, pos as int);
                    if meets {
                        assert(pair_key(segment_idx, other) == (0usize, 1usize));
                        assert(found@.contains((0usize, 1usize)));
                    }
                    if two_segments_cross(segs) && ms2.count(endpoint_event(segs, 0, false)) == 0 && ms2.count(
                        endpoint_event(segs, 1, false),
                    ) == 0 {
                        assert(endpoint_event(segs, other, false) != event);
                        assert(ms1.count(endpoint_event(segs, other, false)) == 0);
                        assert(meets);
                    }
                }
            },
            Event::RightEndpoint { segment_idx } => {
                proof {
                    lemma_take_endpoint(segs, found@, event_queue.data@.to_multiset(), event, result@);
                }
                let at = status.find_position(segment_idx);
                let ghost mut taken: Option<usize> = None;
                if let Some(pos) = at {
                    proof {
                        assert(pos < status.active.len());
                    }
                    let above = status.neighbor_above(pos);
                    let below = status.neighbor_below(pos);
                    let removed = status.remove(segment_idx);
                    proof {
                        taken = removed;
                    }
                    // Check if former neighbors now intersect
                    if let (Some(a), Some(b)) = (above, below) {
                        check_intersection(
                            a,
                            b,
                            event.x,
                            &mut found,
                            &mut event_queue,
                            segments,
                            Ghost(result@),
                        );
                    }
                }
                proof {
                    let ms2 = event_queue.data@.to_multiset();
                    assert(same_endpoints(ms1, ms2));
                    lemma_right_taken(segs, ms0, ms1, ms2, event, segment_idx, act0, status.active@, taken);
                    assert(endpoint_event(segs, 0, false) != event);
                    assert(endpoint_event(segs, 1, false) != event);
                    assert(ms0.count(endpoint_event(segs, 0, false)) == ms2.count(endpoint_event(segs, 0, false)));
                    assert(ms0.count(endpoint_event(segs, 1, false)) == ms2.count(endpoint_event(segs, 1, false)));
                    assert(found0.contains((0usize, 1usize)) ==> found@.contains((0usize, 1usize)));
                }
            },
            Event::Crossing { seg_a, seg_b, point } => {
                proof {
                    lemma_take_crossing(segs, found@, event_queue.data@.to_multiset(), event, result@);
                }
                // Record the intersection
                let key = if seg_a < seg_b {
                    (seg_a, seg_b)
                } else {
                    (seg_b, seg_a)
                };
                let ghost before = result@;
                result.push(Intersection { point, segments: key });
                proof {
                    assert forall|i: int, j: int| 0 <= i < j < result@.len() implies #[trigger] result@[i].segments
                        != #[trigger] result@[j].segments by {
                        if j == before.len() {
                            assert(before[i].segments == result@[i].segments);
                            if result@[i].segments == key {
                                assert(reported(before, key));
                            }
                        } else {
                            assert(before[i] == result@[i] && before[j] == result@[j]);
                        }
                    }
                    assert forall|i: int| 0 <= i < result@.len() implies #[trigger] intersection_ok(
                        segs,
                        result@[i],
                    ) by {
                        if i < before.len() {
                            assert(before[i] == result@[i]);
                        }
                    }
                }
                // Swap the segments in the status structure
                let ghost mut swap_pos: Option<usize> = None;
                if let (Some(pos_a), Some(pos_b)) = (
                    status.find_position(seg_a),
                    status.find_position(seg_b),
                ) {
                    let (lower_pos, upper_pos) = if pos_a < pos_b {
                        (pos_a, pos_b)
                    } else {
                        (pos_b, pos_a)
                    };
                    proof {
                        assert(upper_pos < status.active.len());
                    }
                    // Only swap if adjacent
                    if upper_pos == lower_pos + 1 {
                        status.swap_adjacent(lower_pos);
                        proof {
                            swap_pos = Some(lower_pos);
                        }
                        // After swap, check for new intersections
                        let lower_seg = status.active[lower_pos];
                        let upper_seg = status.active[upper_pos];
                        // Lower segment now might intersect with new neighbor below
                        if let Some(below) = status.neighbor_below(lower_pos) {
                            check_intersection(
                                lower_seg,
                                below,
                                event.x,
                                &mut found,
                                &mut event_queue,
                                segments,
                                Ghost(result@),
                            );
                        }
                        // Upper segment now might intersect with new neighbor above
                        if let Some(above) = status.neighbor_above(upper_pos) {
                            check_intersection(
                                upper_seg,
                                above,
                                event.x,
                                &mut found,
                                &mut event_queue,
                                segments,
                                Ghost(result@),
                            );
                        }
                    }
                }
                proof {
                    let ms2 = event_queue.data@.to_multiset();
                    assert(same_endpoints(ms1, ms2));
                    if let Some(p) = swap_pos {
                        lemma_swapped_at_same(act0, p);
                    }
                    lemma_crossing_taken(segs, ms0, ms1, ms2, event, act0, status.active@);
                    assert(endpoint_event(segs, 0, false).event is LeftEndpoint);
                    assert(endpoint_event(segs, 1, false).event is LeftEndpoint);
                    assert(ms0.count(endpoint_event(segs, 0, false)) == ms2.count(endpoint_event(segs, 0, false)));
                    assert(ms0.count(endpoint_event(segs, 1, false)) == ms2.count(endpoint_event(segs, 1, false)));
                    assert(found0.contains((0usize, 1usize)) ==> found@.contains((0usize, 1usize)));
                }
            },
        }
        proof {
            lemma_pairs_bounded(found@, n);
            assert(event_queue.data@.len() + found_before == queue_before - 1 + found@.len());
        }
    }
    proof {
        if two_segments_cross(segs) {
            broadcast use vstd::seq_lib::group_to_multiset_ensures;

            let ms = event_queue.data@.to_multiset();
            assert(ms.len() == 0);
            assert(ms.count(endpoint_event(segs, 0, false)) == 0);
            assert(ms.count(endpoint_event(segs, 1, false)) == 0);
            assert(found@.contains((0usize, 1usize)));
            assert(queued_for(ms, segs, 0, 1) == 0);
            assert(reported(result@, (0usize, 1usize)));
            assert forall|j: int| 0 <= j < result@.len() implies #[trigger] result@[j].segments == (0usize, 1usize) by {
                assert(intersection_ok(segs, result@[j]));
            }
            if result@.len() > 1 {
                assert(result@[0].segments != result@[1].segments);
            }
        }
    }
    result
}

/// Every intersection that `find_intersections` may report lies on the
/// lines through both of the segments it names.
pub proof fn lemma_reported_point_on_lines(segs: Seq<Segment>, r: Intersection)
    requires
        segments_in_sweep_range(segs),
        intersection_ok(segs, r),
    ensures
        on_line(seg_at(segs, r.segments.0).p1, seg_at(segs, r.segments.0).p2, r.point),
        on_line(seg_at(segs, r.segments.1).p1, seg_at(segs, r.segments.1).p2, r.point),
{
    let sa = seg_at(segs, r.segments.0);
    let sb = seg_at(segs, r.segments.1);
    assert(segment_in_sweep_range(segs[r.segments.0 as int]));
    assert(segment_in_sweep_range(segs[r.segments.1 as int]));
    lemma_sweep_intersection(sa.p1, sa.p2, sb.p1, sb.p2);
    lemma_sweep_intersection(sb.p1, sb.p2, sa.p1, sa.p2);
    lemma_segment_point_on_lines(sa.p1, sa.p2, sb.p1, sb.p2);
    lemma_segment_point_on_lines(sb.p1, sb.p2, sa.p1, sa.p2);
}

} // verus!
