//! Exact geometric predicates.
//!
//! All predicates return `std::cmp::Ordering` to indicate the geometric
//! relationship: the sign of an exact integer determinant.
use std::cmp::Ordering;
use vstd::prelude::*;

use crate::rational::fits_i128;
use crate::widen::{sign_of, Wide, Widen};
use crate::{Point2, Point3};

verus! {

/// `|x| <= b`.
pub open spec fn abs_le(x: int, b: int) -> bool {
    -b <= x <= b
}

/// If `|x| <= bx` and `|y| <= by` then `|x * y| <= bx * by`.
pub proof fn lemma_abs_mul_le(x: int, y: int, bx: int, by: int)
    requires
        abs_le(x, bx),
        abs_le(y, by),
    ensures
        abs_le(x * y, bx * by),
        bx >= 0,
        by >= 0,
{
    assert(abs_le(x * y, bx * by)) by (nonlinear_arith)
        requires
            abs_le(x, bx),
            abs_le(y, by),
    ;
}

/// The value of a wide integer lies in the wide range.
pub open spec fn fits_wide<W: Wide>(v: int) -> bool {
    W::wide_min() <= v <= W::wide_max()
}

/// The 2x2 determinant `(b - a) x (c - a)` over the integers.
pub open spec fn orient2d_det<T: Widen>(a: Point2<T>, b: Point2<T>, c: Point2<T>) -> int {
    (b.x.value() - a.x.value()) * (c.y.value() - a.y.value()) - (b.y.value() - a.y.value()) * (
    c.x.value() - a.x.value())
}

/// The two products of `orient2d_det` and their difference fit in the wide type.
pub open spec fn orient2d_fits<T: Widen>(a: Point2<T>, b: Point2<T>, c: Point2<T>) -> bool {
    &&& fits_wide::<T::Wide>(
        (b.x.value() - a.x.value()) * (c.y.value() - a.y.value()),
    )
    &&& fits_wide::<T::Wide>(
        (b.y.value() - a.y.value()) * (c.x.value() - a.x.value()),
    )
    &&& fits_wide::<T::Wide>(orient2d_det(a, b, c))
}

/// Integer points with coordinates of magnitude at most `2^61` never overflow `orient2d`.
pub proof fn lemma_orient2d_small_fits(a: Point2<i64>, b: Point2<i64>, c: Point2<i64>)
    requires
        abs_le(a.x as int, 0x2000_0000_0000_0000),
        abs_le(a.y as int, 0x2000_0000_0000_0000),
        abs_le(b.x as int, 0x2000_0000_0000_0000),
        abs_le(b.y as int, 0x2000_0000_0000_0000),
        abs_le(c.x as int, 0x2000_0000_0000_0000),
        abs_le(c.y as int, 0x2000_0000_0000_0000),
    ensures
        orient2d_fits(a, b, c),
{
    let m = 0x4000_0000_0000_0000int;
    lemma_abs_mul_le(b.x - a.x, c.y - a.y, m, m);
    lemma_abs_mul_le(b.y - a.y, c.x - a.x, m, m);
}

/// Computes the orientation of three 2D points.
///
/// Returns `Greater` if `a -> b -> c` is counter-clockwise (left turn),
/// `Less` if clockwise, `Equal` if collinear: the sign of `(b - a) x (c - a)`.
pub fn orient2d<T: Widen>(a: Point2<T>, b: Point2<T>, c: Point2<T>) -> (o: Ordering)
    requires
        orient2d_fits(a, b, c),
    ensures
        o == sign_of(orient2d_det(a, b, c)),
{
    proof {
        a.x.value_in_range();
        a.y.value_in_range();
        b.x.value_in_range();
        b.y.value_in_range();
        c.x.value_in_range();
        c.y.value_in_range();
    }
    let ax = a.x.to_wide();
    let ay = a.y.to_wide();
    let bx = b.x.to_wide();
    let by = b.y.to_wide();
    let cx = c.x.to_wide();
    let cy = c.y.to_wide();

    let abx = bx.wide_sub(ax);
    let aby = by.wide_sub(ay);
    let acx = cx.wide_sub(ax);
    let acy = cy.wide_sub(ay);

    let p1 = abx.wide_mul(acy);
    let p2 = aby.wide_mul(acx);
    let det = p1.wide_sub(p2);
    det.sign()
}

/// Tests if three points are collinear.
pub fn collinear<T: Widen>(a: Point2<T>, b: Point2<T>, c: Point2<T>) -> (r: bool)
    requires
        orient2d_fits(a, b, c),
    ensures
        r == (orient2d_det(a, b, c) == 0),
{
    let o = orient2d(a, b, c);
    match o {
        Ordering::Equal => true,
        _ => false,
    }
}

/// Lifted coordinate `x^2 + y^2`.
pub open spec fn lift2(x: int, y: int) -> int {
    x * x + y * y
}

/// The 3x3 determinant of rows `(x, y, x^2 + y^2)` for `a`, `b`, `c`
/// translated so that `d` is the origin.
pub open spec fn incircle_det(a: Point2<i64>, b: Point2<i64>, c: Point2<i64>, d: Point2<i64>) -> int {
    let ax = a.x - d.x;
    let ay = a.y - d.y;
    let bx = b.x - d.x;
    let by = b.y - d.y;
    let cx = c.x - d.x;
    let cy = c.y - d.y;
    let az = lift2(ax, ay);
    let bz = lift2(bx, by);
    let cz = lift2(cx, cy);
    ax * (by * cz - bz * cy) - ay * (bx * cz - bz * cx) + az * (bx * cy - by * cx)
}

/// Every intermediate value of the `incircle` computation fits its machine type.
pub open spec fn incircle_fits(a: Point2<i64>, b: Point2<i64>, c: Point2<i64>, d: Point2<i64>) -> bool {
    let ax = a.x - d.x;
    let ay = a.y - d.y;
    let bx = b.x - d.x;
    let by = b.y - d.y;
    let cx = c.x - d.x;
    let cy = c.y - d.y;
    let az = lift2(ax, ay);
    let bz = lift2(bx, by);
    let cz = lift2(cx, cy);
    &&& i64::MIN <= ax <= i64::MAX
    &&& i64::MIN <= ay <= i64::MAX
    &&& i64::MIN <= bx <= i64::MAX
    &&& i64::MIN <= by <= i64::MAX
    &&& i64::MIN <= cx <= i64::MAX
    &&& i64::MIN <= cy <= i64::MAX
    &&& fits_i128(ax * ax) && fits_i128(ay * ay) && fits_i128(az)
    &&& fits_i128(bx * bx) && fits_i128(by * by) && fits_i128(bz)
    &&& fits_i128(cx * cx) && fits_i128(cy * cy) && fits_i128(cz)
    &&& fits_i128(by * cz) && fits_i128(bz * cy) && fits_i128(by * cz - bz * cy)
    &&& fits_i128(bx * cz) && fits_i128(bz * cx) && fits_i128(bx * cz - bz * cx)
    &&& fits_i128(bx * cy) && fits_i128(by * cx) && fits_i128(bx * cy - by * cx)
    &&& fits_i128(ax * (by * cz - bz * cy))
    &&& fits_i128(ay * (bx * cz - bz * cx))
    &&& fits_i128(az * (bx * cy - by * cx))
    &&& fits_i128(ax * (by * cz - bz * cy) - ay * (bx * cz - bz * cx))
    &&& fits_i128(incircle_det(a, b, c, d))
}

/// All coordinates of `a`, `b`, `c` lie within `2^30` of the matching coordinate of `d`.
pub open spec fn incircle_small(a: Point2<i64>, b: Point2<i64>, c: Point2<i64>, d: Point2<i64>) -> bool {
    let bnd = 0x4000_0000int;
    &&& abs_le(a.x - d.x, bnd) && abs_le(a.y - d.y, bnd)
    &&& abs_le(b.x - d.x, bnd) && abs_le(b.y - d.y, bnd)
    &&& abs_le(c.x - d.x, bnd) && abs_le(c.y - d.y, bnd)
}

/// Coordinates within `2^30` of each other keep every `incircle` intermediate in range.
pub proof fn lemma_incircle_small_fits(a: Point2<i64>, b: Point2<i64>, c: Point2<i64>, d: Point2<i64>)
    requires
        incircle_small(a, b, c, d),
    ensures
        incircle_fits(a, b, c, d),
{
    let bnd = 0x4000_0000int;
    let ax = a.x - d.x;
    let ay = a.y - d.y;
    let bx = b.x - d.x;
    let by = b.y - d.y;
    let cx = c.x - d.x;
    let cy = c.y - d.y;
    lemma_abs_mul_le(ax, ax, bnd, bnd);
    lemma_abs_mul_le(ay, ay, bnd, bnd);
    lemma_abs_mul_le(bx, bx, bnd, bnd);
    lemma_abs_mul_le(by, by, bnd, bnd);
    lemma_abs_mul_le(cx, cx, bnd, bnd);
    lemma_abs_mul_le(cy, cy, bnd, bnd);
    let sq = bnd * bnd;
    let z = 2 * sq;
    let az = lift2(ax, ay);
    let bz = lift2(bx, by);
    let cz = lift2(cx, cy);
    assert(abs_le(az, z));
    assert(abs_le(bz, z));
    assert(abs_le(cz, z));
    lemma_abs_mul_le(by, cz, bnd, z);
    lemma_abs_mul_le(bz, cy, z, bnd);
    lemma_abs_mul_le(bx, cz, bnd, z);
    lemma_abs_mul_le(bz, cx, z, bnd);
    lemma_abs_mul_le(bx, cy, bnd, bnd);
    lemma_abs_mul_le(by, cx, bnd, bnd);
    let m = bnd * z;
    lemma_abs_mul_le(ax, by * cz - bz * cy, bnd, 2 * m);
    lemma_abs_mul_le(ay, bx * cz - bz * cx, bnd, 2 * m);
    lemma_abs_mul_le(az, bx * cy - by * cx, z, 2 * sq);
}

/// Tests if point `d` lies inside the circumcircle of triangle `abc`.
///
/// Assumes `a`, `b`, `c` are in counter-clockwise order. Returns `Greater`
/// if `d` is inside the circumcircle, `Less` if outside, `Equal` if on it:
/// the sign of the lifted 3x3 determinant.
pub fn incircle(a: Point2<i64>, b: Point2<i64>, c: Point2<i64>, d: Point2<i64>) -> (o: Ordering)
    requires
        incircle_fits(a, b, c, d),
    ensures
        o == sign_of(incircle_det(a, b, c, d)),
{
    let det = incircle_value(a, b, c, d);
    det.sign()
}

/// The `incircle` determinant, computed exactly in `i128`.
fn incircle_value(a: Point2<i64>, b: Point2<i64>, c: Point2<i64>, d: Point2<i64>) -> (r: i128)
    requires
        incircle_fits(a, b, c, d),
    ensures
        r == incircle_det(a, b, c, d),
{
    let ax = (a.x - d.x) as i128;
    let ay = (a.y - d.y) as i128;
    let bx = (b.x - d.x) as i128;
    let by = (b.y - d.y) as i128;
    let cx = (c.x - d.x) as i128;
    let cy = (c.y - d.y) as i128;

    let az = ax * ax + ay * ay;
    let bz = bx * bx + by * by;
    let cz = cx * cx + cy * cy;

    ax * (by * cz - bz * cy) - ay * (bx * cz - bz * cx) + az * (bx * cy - by * cx)
}

/// The 3x3 determinant of rows `b - a`, `c - a`, `d - a` (six times the
/// signed volume of tetrahedron `abcd`).
pub open spec fn orient3d_det(a: Point3<i64>, b: Point3<i64>, c: Point3<i64>, d: Point3<i64>) -> int {
    let bx = b.x - a.x;
    let by = b.y - a.y;
    let bz = b.z - a.z;
    let cx = c.x - a.x;
    let cy = c.y - a.y;
    let cz = c.z - a.z;
    let dx = d.x - a.x;
    let dy = d.y - a.y;
    let dz = d.z - a.z;
    bx * (cy * dz - cz * dy) - cx * (by * dz - bz * dy) + dx * (by * cz - bz * cy)
}

/// Every intermediate value of the `orient3d` computation fits its machine type.
pub open spec fn orient3d_fits(a: Point3<i64>, b: Point3<i64>, c: Point3<i64>, d: Point3<i64>) -> bool {
    let bx = b.x - a.x;
    let by = b.y - a.y;
    let bz = b.z - a.z;
    let cx = c.x - a.x;
    let cy = c.y - a.y;
    let cz = c.z - a.z;
    let dx = d.x - a.x;
    let dy = d.y - a.y;
    let dz = d.z - a.z;
    &&& i64::MIN <= bx <= i64::MAX && i64::MIN <= by <= i64::MAX && i64::MIN <= bz <= i64::MAX
    &&& i64::MIN <= cx <= i64::MAX && i64::MIN <= cy <= i64::MAX && i64::MIN <= cz <= i64::MAX
    &&& i64::MIN <= dx <= i64::MAX && i64::MIN <= dy <= i64::MAX && i64::MIN <= dz <= i64::MAX
    &&& fits_i128(cy * dz) && fits_i128(cz * dy) && fits_i128(cy * dz - cz * dy)
    &&& fits_i128(by * dz) && fits_i128(bz * dy) && fits_i128(by * dz - bz * dy)
    &&& fits_i128(by * cz) && fits_i128(bz * cy) && fits_i128(by * cz - bz * cy)
    &&& fits_i128(bx * (cy * dz - cz * dy))
    &&& fits_i128(cx * (by * dz - bz * dy))
    &&& fits_i128(dx * (by * cz - bz * cy))
    &&& fits_i128(bx * (cy * dz - cz * dy) - cx * (by * dz - bz * dy))
    &&& fits_i128(orient3d_det(a, b, c, d))
}

/// Computes the orientation of four 3D points.
///
/// Returns `Greater` if `d` is above the plane through `a`, `b`, `c`
/// (positive half-space by the right-hand rule), `Less` if below,
/// `Equal` if coplanar.
pub fn orient3d(a: Point3<i64>, b: Point3<i64>, c: Point3<i64>, d: Point3<i64>) -> (o: Ordering)
    requires
        orient3d_fits(a, b, c, d),
    ensures
        o == sign_of(orient3d_det(a, b, c, d)),
{
    let det = orient3d_value(a, b, c, d);
    det.sign()
}

/// The `orient3d` determinant, computed exactly in `i128`.
fn orient3d_value(a: Point3<i64>, b: Point3<i64>, c: Point3<i64>, d: Point3<i64>) -> (r: i128)
    requires
        orient3d_fits(a, b, c, d),
    ensures
        r == orient3d_det(a, b, c, d),
{
    let bx = (b.x - a.x) as i128;
    let by = (b.y - a.y) as i128;
    let bz = (b.z - a.z) as i128;
    let cx = (c.x - a.x) as i128;
    let cy = (c.y - a.y) as i128;
    let cz = (c.z - a.z) as i128;
    let dx = (d.x - a.x) as i128;
    let dy = (d.y - a.y) as i128;
    let dz = (d.z - a.z) as i128;

    bx * (cy * dz - cz * dy) - cx * (by * dz - bz * dy) + dx * (by * cz - bz * cy)
}

/// Tests if four 3D points are coplanar.
pub fn coplanar(a: Point3<i64>, b: Point3<i64>, c: Point3<i64>, d: Point3<i64>) -> (r: bool)
    requires
        orient3d_fits(a, b, c, d),
    ensures
        r == (orient3d_det(a, b, c, d) == 0),
{
    match orient3d(a, b, c, d) {
        Ordering::Equal => true,
        _ => false,
    }
}

/// The 3x3 determinant of rows `(a, b, c)`, `(d, e, f)`, `(g, h, i)`.
pub open spec fn det3(a: int, b: int, c: int, d: int, e: int, f: int, g: int, h: int, i: int) -> int {
    a * (e * i - f * h) - b * (d * i - f * g) + c * (d * h - e * g)
}

/// All entries are at most `m` in absolute value.
pub open spec fn all_abs_le9(
    a: int,
    b: int,
    c: int,
    d: int,
    e: int,
    f: int,
    g: int,
    h: int,
    i: int,
    m: int,
) -> bool {
    abs_le(a, m) && abs_le(b, m) && abs_le(c, m) && abs_le(d, m) && abs_le(e, m) && abs_le(f, m)
        && abs_le(g, m) && abs_le(h, m) && abs_le(i, m)
}

/// Computes a 3x3 determinant.
fn det3x3(a: i128, b: i128, c: i128, d: i128, e: i128, f: i128, g: i128, h: i128, i: i128) -> (r:
    i128)
    requires
        all_abs_le9(a as int, b as int, c as int, d as int, e as int, f as int, g as int, h as int, i as int, 0x20_0000),
    ensures
        r == det3(a as int, b as int, c as int, d as int, e as int, f as int, g as int, h as int, i as int),
        abs_le(r as int, 0x6_0000_0000_0000_0000),
{
    let ghost m: int = 0x20_0000int;
    proof {
        lemma_abs_mul_le(e as int, i as int, m, m);
        lemma_abs_mul_le(f as int, h as int, m, m);
        lemma_abs_mul_le(d as int, i as int, m, m);
        lemma_abs_mul_le(f as int, g as int, m, m);
        lemma_abs_mul_le(d as int, h as int, m, m);
        lemma_abs_mul_le(e as int, g as int, m, m);
        lemma_abs_mul_le(a as int, e * i - f * h, m, 2 * m * m);
        lemma_abs_mul_le(b as int, d * i - f * g, m, 2 * m * m);
        lemma_abs_mul_le(c as int, d * h - e * g, m, 2 * m * m);
    }
    a * (e * i - f * h) - b * (d * i - f * g) + c * (d * h - e * g)
}

/// Lifted coordinate `x^2 + y^2 + z^2`.
pub open spec fn lift3(x: int, y: int, z: int) -> int {
    x * x + y * y + z * z
}

/// The lifted 4x4 determinant of `insphere`, expanded along the lifted column,
/// with every point translated so that `e` is the origin.
pub open spec fn insphere_det(
    a: Point3<i64>,
    b: Point3<i64>,
    c: Point3<i64>,
    d: Point3<i64>,
    e: Point3<i64>,
) -> int {
    let ax = a.x - e.x;
    let ay = a.y - e.y;
    let az = a.z - e.z;
    let bx = b.x - e.x;
    let by = b.y - e.y;
    let bz = b.z - e.z;
    let cx = c.x - e.x;
    let cy = c.y - e.y;
    let cz = c.z - e.z;
    let dx = d.x - e.x;
    let dy = d.y - e.y;
    let dz = d.z - e.z;
    lift3(ax, ay, az) * det3(bx, by, bz, cx, cy, cz, dx, dy, dz) - lift3(bx, by, bz) * det3(
        ax,
        ay,
        az,
        cx,
        cy,
        cz,
        dx,
        dy,
        dz,
    ) + lift3(cx, cy, cz) * det3(ax, ay, az, bx, by, bz, dx, dy, dz) - lift3(dx, dy, dz) * det3(
        ax,
        ay,
        az,
        bx,
        by,
        bz,
        cx,
        cy,
        cz,
    )
}

/// Every coordinate of `a`..`d` lies within `2^21` of the matching coordinate of `e`.
pub open spec fn insphere_small(
    a: Point3<i64>,
    b: Point3<i64>,
    c: Point3<i64>,
    d: Point3<i64>,
    e: Point3<i64>,
) -> bool {
    let m = 0x20_0000int;
    &&& abs_le(a.x - e.x, m) && abs_le(a.y - e.y, m) && abs_le(a.z - e.z, m)
    &&& abs_le(b.x - e.x, m) && abs_le(b.y - e.y, m) && abs_le(b.z - e.z, m)
    &&& abs_le(c.x - e.x, m) && abs_le(c.y - e.y, m) && abs_le(c.z - e.z, m)
    &&& abs_le(d.x - e.x, m) && abs_le(d.y - e.y, m) && abs_le(d.z - e.z, m)
}

/// Three coordinate differences of magnitude at most `m` lift to at most `3 m^2`.
proof fn lemma_lift3_bound(x: int, y: int, z: int, m: int)
    requires
        abs_le(x, m),
        abs_le(y, m),
        abs_le(z, m),
    ensures
        0 <= lift3(x, y, z) <= 3 * (m * m),
{
    lemma_abs_mul_le(x, x, m, m);
    lemma_abs_mul_le(y, y, m, m);
    lemma_abs_mul_le(z, z, m, m);
    assert(x * x >= 0) by (nonlinear_arith);
    assert(y * y >= 0) by (nonlinear_arith);
    assert(z * z >= 0) by (nonlinear_arith);
}

/// Tests if point `e` lies inside the circumsphere of tetrahedron `abcd`.
///
/// Assumes `a`, `b`, `c`, `d` are positively oriented. Returns `Greater` if
/// `e` is inside the circumsphere, `Less` if outside, `Equal` if on it.
/// Exact for coordinate differences of magnitude at most `2^21`.
pub fn insphere(a: Point3<i64>, b: Point3<i64>, c: Point3<i64>, d: Point3<i64>, e: Point3<i64>) -> (o:
    Ordering)
    requires
        insphere_small(a, b, c, d, e),
    ensures
        o == sign_of(insphere_det(a, b, c, d, e)),
{
    let det = insphere_value(a, b, c, d, e);
    det.sign()
}

/// The `insphere` determinant, computed exactly in `i128`.
fn insphere_value(a: Point3<i64>, b: Point3<i64>, c: Point3<i64>, d: Point3<i64>, e: Point3<i64>) -> (r:
    i128)
    requires
        insphere_small(a, b, c, d, e),
    ensures
        r == insphere_det(a, b, c, d, e),
{
    let ax = (a.x - e.x) as i128;
    let ay = (a.y - e.y) as i128;
    let az = (a.z - e.z) as i128;
    let bx = (b.x - e.x) as i128;
    let by = (b.y - e.y) as i128;
    let bz = (b.z - e.z) as i128;
    let cx = (c.x - e.x) as i128;
    let cy = (c.y - e.y) as i128;
    let cz = (c.z - e.z) as i128;
    let dx = (d.x - e.x) as i128;
    let dy = (d.y - e.y) as i128;
    let dz = (d.z - e.z) as i128;
    let ghost m: int = 0x20_0000int;
    proof {
        lemma_lift3_bound(ax as int, ay as int, az as int, m);
        lemma_lift3_bound(bx as int, by as int, bz as int, m);
        lemma_lift3_bound(cx as int, cy as int, cz as int, m);
        lemma_lift3_bound(dx as int, dy as int, dz as int, m);
        lemma_abs_mul_le(ax as int, ax as int, m, m);
        lemma_abs_mul_le(ay as int, ay as int, m, m);
        lemma_abs_mul_le(az as int, az as int, m, m);
        lemma_abs_mul_le(bx as int, bx as int, m, m);
        lemma_abs_mul_le(by as int, by as int, m, m);
        lemma_abs_mul_le(bz as int, bz as int, m, m);
        lemma_abs_mul_le(cx as int, cx as int, m, m);
        lemma_abs_mul_le(cy as int, cy as int, m, m);
        lemma_abs_mul_le(cz as int, cz as int, m, m);
        lemma_abs_mul_le(dx as int, dx as int, m, m);
        lemma_abs_mul_le(dy as int, dy as int, m, m);
        lemma_abs_mul_le(dz as int, dz as int, m, m);
    }

    let aw = ax * ax + ay * ay + az * az;
    let bw = bx * bx + by * by + bz * bz;
    let cw = cx * cx + cy * cy + cz * cz;
    let dw = dx * dx + dy * dy + dz * dz;

    let m_a = det3x3(bx, by, bz, cx, cy, cz, dx, dy, dz);
    let m_b = det3x3(ax, ay, az, cx, cy, cz, dx, dy, dz);
    let m_c = det3x3(ax, ay, az, bx, by, bz, dx, dy, dz);
    let m_d = det3x3(ax, ay, az, bx, by, bz, cx, cy, cz);

    let ghost w: int = 3 * (m * m);
    let ghost k: int = 0x6_0000_0000_0000_0000int;
    proof {
        lemma_abs_mul_le(aw as int, m_a as int, w, k);
        lemma_abs_mul_le(bw as int, m_b as int, w, k);
        lemma_abs_mul_le(cw as int, m_c as int, w, k);
        lemma_abs_mul_le(dw as int, m_d as int, w, k);
        assert(w * k < 0x1_0000_0000_0000_0000_0000_0000_0000int);
    }
    aw * m_a - bw * m_b + cw * m_c - dw * m_d
}

// ---------------------------------------------------------------------------
// Symmetries of the predicates
// ---------------------------------------------------------------------------

/// Orientation is antisymmetric in its last two points and unchanged by a
/// rotation of the three points: `orient2d(a, c, b)` is the reverse of
/// `orient2d(a, b, c)`, and `orient2d(b, c, a)` equals it.
pub proof fn lemma_orient2d_symmetry<T: Widen>(a: Point2<T>, b: Point2<T>, c: Point2<T>)
    ensures
        orient2d_det(a, c, b) == -orient2d_det(a, b, c),
        orient2d_det(b, c, a) == orient2d_det(a, b, c),
        sign_of(orient2d_det(a, c, b)) == sign_of(-orient2d_det(a, b, c)),
{
    let (ax, ay, bx, by, cx, cy) = (a.x.value(), a.y.value(), b.x.value(), b.y.value(), c.x.value(), c.y.value());
    assert((cx - ax) * (by - ay) - (cy - ay) * (bx - ax) == -((bx - ax) * (cy - ay) - (by - ay) * (cx - ax)))
        by (nonlinear_arith);
    assert((cx - bx) * (ay - by) - (cy - by) * (ax - bx) == (bx - ax) * (cy - ay) - (by - ay) * (cx - ax))
        by (nonlinear_arith);
}

/// `x * (p - q) == x * p - x * q`.
pub(crate) proof fn lemma_distribute(x: int, p: int, q: int)
    ensures
        x * (p - q) == x * p - x * q,
{
    assert(x * (p - q) == x * p - x * q) by (nonlinear_arith);
}

/// A product of three factors in any order.
pub(crate) proof fn lemma_triple(x: int, y: int, z: int)
    ensures
        x * (y * z) == y * (z * x),
        x * (y * z) == z * (x * y),
        x * (y * z) == x * (z * y),
        x * (y * z) == y * (x * z),
{
    assert(x * (y * z) == y * (z * x)) by (nonlinear_arith);
    assert(x * (y * z) == z * (x * y)) by (nonlinear_arith);
    assert(x * (y * z) == x * (z * y)) by (nonlinear_arith);
    assert(x * (y * z) == y * (x * z)) by (nonlinear_arith);
}

/// The six-term expansion of a 3x3 determinant.
proof fn lemma_det3_expand(a: int, b: int, c: int, d: int, e: int, f: int, g: int, h: int, i: int)
    ensures
        det3(a, b, c, d, e, f, g, h, i) == a * (e * i) - a * (f * h) - b * (d * i) + b * (f * g) + c * (d
            * h) - c * (e * g),
{
    lemma_distribute(a, e * i, f * h);
    lemma_distribute(b, d * i, f * g);
    lemma_distribute(c, d * h, e * g);
}

/// Rotating the rows of a 3x3 determinant keeps it; swapping the first two negates it.
proof fn lemma_det3_rows(ax: int, ay: int, az: int, bx: int, by: int, bz: int, cx: int, cy: int, cz: int)
    ensures
        det3(bx, by, bz, cx, cy, cz, ax, ay, az) == det3(ax, ay, az, bx, by, bz, cx, cy, cz),
        det3(bx, by, bz, ax, ay, az, cx, cy, cz) == -det3(ax, ay, az, bx, by, bz, cx, cy, cz),
{
    lemma_det3_expand(ax, ay, az, bx, by, bz, cx, cy, cz);
    lemma_det3_expand(bx, by, bz, cx, cy, cz, ax, ay, az);
    lemma_det3_expand(bx, by, bz, ax, ay, az, cx, cy, cz);
    lemma_triple(ax, by, cz);
    lemma_triple(ax, bz, cy);
    lemma_triple(ay, bx, cz);
    lemma_triple(ay, bz, cx);
    lemma_triple(az, bx, cy);
    lemma_triple(az, by, cx);
    lemma_triple(bx, ay, cz);
    lemma_triple(bx, az, cy);
    lemma_triple(by, ax, cz);
    lemma_triple(by, az, cx);
    lemma_triple(bz, ax, cy);
    lemma_triple(bz, ay, cx);
}

/// The in-circle determinant is unchanged by a rotation of the triangle and
/// negated by swapping two of its vertices: `incircle(b, c, a, d)` equals
/// `incircle(a, b, c, d)`, and `incircle(b, a, c, d)` is its reverse.
pub proof fn lemma_incircle_symmetry(a: Point2<i64>, b: Point2<i64>, c: Point2<i64>, d: Point2<i64>)
    ensures
        incircle_det(b, c, a, d) == incircle_det(a, b, c, d),
        incircle_det(b, a, c, d) == -incircle_det(a, b, c, d),
{
    let (ax, ay, bx, by, cx, cy) = (a.x - d.x, a.y - d.y, b.x - d.x, b.y - d.y, c.x - d.x, c.y - d.y);
    lemma_det3_rows(ax, ay, lift2(ax, ay), bx, by, lift2(bx, by), cx, cy, lift2(cx, cy));
}

/// Swapping the last two points of a tetrahedron negates its orientation:
/// `orient3d(a, b, d, c)` is the reverse of `orient3d(a, b, c, d)`.
pub proof fn lemma_orient3d_swap(a: Point3<i64>, b: Point3<i64>, c: Point3<i64>, d: Point3<i64>)
    ensures
        orient3d_det(a, b, d, c) == -orient3d_det(a, b, c, d),
{
    let (bx, by, bz) = (b.x - a.x, b.y - a.y, b.z - a.z);
    let (cx, cy, cz) = (c.x - a.x, c.y - a.y, c.z - a.z);
    let (dx, dy, dz) = (d.x - a.x, d.y - a.y, d.z - a.z);
    assert(orient3d_det(a, b, c, d) == det3(bx, cx, dx, by, cy, dy, bz, cz, dz));
    assert(orient3d_det(a, b, d, c) == det3(bx, dx, cx, by, dy, cy, bz, dz, cz));
    lemma_det3_expand(bx, cx, dx, by, cy, dy, bz, cz, dz);
    lemma_det3_expand(bx, dx, cx, by, dy, cy, bz, dz, cz);
    lemma_triple(bx, cy, dz);
    lemma_triple(bx, cz, dy);
    lemma_triple(cx, by, dz);
    lemma_triple(cx, bz, dy);
    lemma_triple(dx, by, cz);
    lemma_triple(dx, bz, cy);
}

/// `(-x) * y == -(x * y)` and `x * (-y) == -(x * y)`.
proof fn lemma_neg_mul(x: int, y: int)
    ensures
        (-x) * y == -(x * y),
        x * (-y) == -(x * y),
{
    vstd::arithmetic::mul::lemma_mul_unary_negation(x, y);
}

/// Expansion of a 3x3 determinant along its second column.
proof fn lemma_det3_col2(a: int, b: int, c: int, d: int, e: int, f: int, g: int, h: int, i: int)
    ensures
        det3(a, b, c, d, e, f, g, h, i) == e * (a * i - c * g) - b * (d * i - f * g) - h * (a * f - c * d),
{
    lemma_det3_expand(a, b, c, d, e, f, g, h, i);
    lemma_distribute(b, d * i, f * g);
    lemma_distribute(e, a * i, c * g);
    lemma_distribute(h, a * f, c * d);
    lemma_triple(e, a, i);
    lemma_triple(e, c, g);
    lemma_triple(h, a, f);
    lemma_triple(a, h, f);
    lemma_triple(h, c, d);
    lemma_triple(c, h, d);
}

/// A 3x3 determinant whose second column repeats its first is zero.
proof fn lemma_det3_equal_cols(a: int, c: int, d: int, f: int, g: int, i: int)
    ensures
        d * (a * i - c * g) - a * (d * i - f * g) - g * (a * f - c * d) == 0,
{
    lemma_distribute(d, a * i, c * g);
    lemma_distribute(a, d * i, f * g);
    lemma_distribute(g, a * f, c * d);
    lemma_triple(d, a, i);
    lemma_triple(d, c, g);
    lemma_triple(g, c, d);
    lemma_triple(a, f, g);
}

/// Subtracting the first column of a 3x3 determinant from its second keeps it.
proof fn lemma_det3_sub_col(a: int, b: int, c: int, d: int, e: int, f: int, g: int, h: int, i: int)
    ensures
        det3(a, b - a, c, d, e - d, f, g, h - g, i) == det3(a, b, c, d, e, f, g, h, i),
{
    lemma_det3_col2(a, b, c, d, e, f, g, h, i);
    lemma_det3_col2(a, b - a, c, d, e - d, f, g, h - g, i);
    lemma_det3_equal_cols(a, c, d, f, g, i);
    let (p, q, r) = (d * i - f * g, a * i - c * g, a * f - c * d);
    vstd::arithmetic::mul::lemma_mul_is_distributive_sub_other_way(p, b, a);
    vstd::arithmetic::mul::lemma_mul_is_distributive_sub_other_way(q, e, d);
    vstd::arithmetic::mul::lemma_mul_is_distributive_sub_other_way(r, h, g);
}

/// Swapping two neighbouring columns of a 3x3 determinant negates it.
proof fn lemma_det3_swap_cols(a: int, b: int, c: int, d: int, e: int, f: int, g: int, h: int, i: int)
    ensures
        det3(a, c, b, d, f, e, g, i, h) == -det3(a, b, c, d, e, f, g, h, i),
        det3(b, a, c, e, d, f, h, g, i) == -det3(a, b, c, d, e, f, g, h, i),
{
    lemma_det3_expand(a, b, c, d, e, f, g, h, i);
    lemma_det3_expand(a, c, b, d, f, e, g, i, h);
    lemma_det3_expand(b, a, c, e, d, f, h, g, i);
}

/// Negating the first column of a 3x3 determinant negates it.
proof fn lemma_det3_neg_col(a: int, b: int, c: int, d: int, e: int, f: int, g: int, h: int, i: int)
    ensures
        det3(-a, b, c, -d, e, f, -g, h, i) == -det3(a, b, c, d, e, f, g, h, i),
{
    lemma_det3_expand(a, b, c, d, e, f, g, h, i);
    lemma_det3_expand(-a, b, c, -d, e, f, -g, h, i);
    lemma_neg_mul(a, e * i);
    lemma_neg_mul(a, f * h);
    lemma_neg_mul(b, d * i);
    lemma_neg_mul(d, i);
    lemma_neg_mul(b, f * g);
    lemma_neg_mul(f, g);
    lemma_neg_mul(c, d * h);
    lemma_neg_mul(d, h);
    lemma_neg_mul(c, e * g);
    lemma_neg_mul(e, g);
}

/// Swapping the first two points, or the middle two, of a tetrahedron
/// negates its orientation: `orient3d(b, a, c, d)` and `orient3d(a, c, b, d)`
/// are each the reverse of `orient3d(a, b, c, d)`.
pub proof fn lemma_orient3d_transpositions(a: Point3<i64>, b: Point3<i64>, c: Point3<i64>, d: Point3<i64>)
    ensures
        orient3d_det(b, a, c, d) == -orient3d_det(a, b, c, d),
        orient3d_det(a, c, b, d) == -orient3d_det(a, b, c, d),
{
    let (bx, by, bz) = (b.x - a.x, b.y - a.y, b.z - a.z);
    let (cx, cy, cz) = (c.x - a.x, c.y - a.y, c.z - a.z);
    let (dx, dy, dz) = (d.x - a.x, d.y - a.y, d.z - a.z);
    assert(orient3d_det(a, b, c, d) == det3(bx, cx, dx, by, cy, dy, bz, cz, dz));
    assert(orient3d_det(a, c, b, d) == det3(cx, bx, dx, cy, by, dy, cz, bz, dz));
    lemma_det3_swap_cols(bx, cx, dx, by, cy, dy, bz, cz, dz);
    let (ux, uy, uz) = (a.x - b.x, a.y - b.y, a.z - b.z);
    let (vx, vy, vz) = (c.x - b.x, c.y - b.y, c.z - b.z);
    let (wx, wy, wz) = (d.x - b.x, d.y - b.y, d.z - b.z);
    assert(orient3d_det(b, a, c, d) == det3(ux, vx, wx, uy, vy, wy, uz, vz, wz));
    // The second column of det(u, v, w) less the first is c - a.
    lemma_det3_sub_col(ux, vx, wx, uy, vy, wy, uz, vz, wz);
    assert(vx - ux == cx && vy - uy == cy && vz - uz == cz);
    assert(det3(ux, cx, wx, uy, cy, wy, uz, cz, wz) == det3(ux, vx, wx, uy, vy, wy, uz, vz, wz));
    // The third column less the first is d - a.
    lemma_det3_swap_cols(ux, cx, wx, uy, cy, wy, uz, cz, wz);
    lemma_det3_sub_col(ux, wx, cx, uy, wy, cy, uz, wz, cz);
    assert(wx - ux == dx && wy - uy == dy && wz - uz == dz);
    assert(det3(ux, dx, cx, uy, dy, cy, uz, dz, cz) == det3(ux, wx, cx, uy, wy, cy, uz, wz, cz));
    lemma_det3_swap_cols(ux, cx, dx, uy, cy, dy, uz, cz, dz);
    // The first column is -(b - a).
    lemma_det3_neg_col(bx, cx, dx, by, cy, dy, bz, cz, dz);
    assert(ux == -bx && uy == -by && uz == -bz);
    assert(det3(ux, cx, dx, uy, cy, dy, uz, cz, dz) == det3(-bx, cx, dx, -by, cy, dy, -bz, cz, dz));
}

/// Whether four points are coplanar does not depend on their order: it is
/// kept by swapping any two neighbours, and these swaps give every order.
pub proof fn lemma_coplanar_symmetry(a: Point3<i64>, b: Point3<i64>, c: Point3<i64>, d: Point3<i64>)
    ensures
        (orient3d_det(b, a, c, d) == 0) == (orient3d_det(a, b, c, d) == 0),
        (orient3d_det(a, c, b, d) == 0) == (orient3d_det(a, b, c, d) == 0),
        (orient3d_det(a, b, d, c) == 0) == (orient3d_det(a, b, c, d) == 0),
{
    lemma_orient3d_transpositions(a, b, c, d);
    lemma_orient3d_swap(a, b, c, d);
}

} // verus!
