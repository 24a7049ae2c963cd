use std::cmp::Ordering;

use exactum::predicates::{coplanar, collinear, incircle, insphere, orient2d, orient3d};
use exactum::{Point2, Point3, Rational, Vector2, Wide, Widen};

#[test]
fn point2_sub() {
    let a = Point2::new(5, 3);
    let b = Point2::new(2, 1);
    let v = a - b;
    assert_eq!(v, Vector2::new(3, 2));
}

#[test]
fn point2_add_vector() {
    let p = Point2::new(1, 2);
    let v = Vector2::new(3, 4);
    assert_eq!(p + v, Point2::new(4, 6));
}

#[test]
fn vector2_add() {
    let a = Vector2::new(1, 2);
    let b = Vector2::new(3, 4);
    assert_eq!(a + b, Vector2::new(4, 6));
}

#[test]
fn vector2_neg() {
    let v = Vector2::new(3, -5);
    assert_eq!(-v, Vector2::new(-3, 5));
}

#[test]
fn point3_sub_i64() {
    let a = Point3::new(5_i64, 3, -2);
    let b = Point3::new(2_i64, 1, 4);
    let v = a - b;
    assert_eq!((v.x, v.y, v.z), (3, 2, -6));
    assert_eq!(b + v, a);
}

#[test]
fn widen_i32() {
    let x: i32 = 100_000;
    let wide: i64 = x.to_wide();
    assert_eq!(wide, 100_000_i64);
}

#[test]
fn widen_i64() {
    let x: i64 = 1_000_000_000_000;
    let wide: i128 = x.to_wide();
    assert_eq!(wide, 1_000_000_000_000_i128);
}

#[test]
fn wide_sign() {
    assert_eq!((-5_i128).sign(), Ordering::Less);
    assert_eq!(0_i128.sign(), Ordering::Equal);
    assert_eq!(5_i128.sign(), Ordering::Greater);
}

#[test]
fn wide_arithmetic_exact() {
    assert_eq!(7_i64.wide_mul(-6), -42);
    assert_eq!(7_i128.wide_sub(10), -3);
    assert_eq!(<i64 as Wide>::zero(), 0);
    assert!(3_i32.narrow_lt(&4));
    assert!(!4_i64.narrow_lt(&4));
}

#[test]
fn rational_arithmetic() {
    let a = Rational::new(1, 2);
    let b = Rational::new(1, 3);

    let sum = a + b;
    assert_eq!(sum.num * 6, 5 * sum.denom);

    let diff = a - b;
    assert_eq!(diff.num * 6, 1 * diff.denom);

    let prod = a * b;
    assert_eq!(prod.num * 6, 1 * prod.denom);

    let neg = -a;
    assert_eq!(neg.num, -1);
    assert_eq!(neg.denom, 2);
}

#[test]
fn rational_ordering() {
    let half = Rational::new(1, 2);
    let third = Rational::new(1, 3);
    let two_thirds = Rational::new(2, 3);

    assert!(third < half);
    assert!(half < two_thirds);
    assert!(third < two_thirds);

    let three_sixths = Rational::new(3, 6);
    assert_eq!(half.cmp(&three_sixths), Ordering::Equal);
}

#[test]
fn rational_negative_ordering() {
    let neg_half = Rational::new(-1, 2);
    let half = Rational::new(1, 2);
    let zero = Rational::new(0, 1);

    assert!(neg_half < zero);
    assert!(zero < half);
    assert!(neg_half < half);
}

#[test]
fn rational_from_int() {
    let five = Rational::from_int(5);
    assert_eq!(five.num, 5);
    assert_eq!(five.denom, 1);
    assert_eq!(five.num as f64 / five.denom as f64, 5.0);
}

#[test]
fn rational_division_normalizes_sign() {
    let a = Rational::new(1, 2);
    let b = Rational::new(-3, 4);
    let q = a / b;
    assert!(q.denom > 0);
    assert_eq!(q.num * 3, -2 * q.denom);
}

#[test]
fn rational_sign_queries() {
    let r = Rational::new(-3, 7);
    assert_eq!(r.signum(), -1);
    assert!(r.is_negative());
    assert!(!r.is_non_negative());
    assert!(!r.is_zero());
    assert_eq!(Rational::new(0, 5).signum(), 0);
    assert!(Rational::new(0, 5).is_zero());
}

#[test]
fn rational_partial_cmp_out_of_range() {
    let big = Rational::new(i128::MAX, 1);
    let tiny = Rational::new(1, i128::MAX);
    assert_eq!(big.partial_cmp(&tiny), None);
}

#[test]
fn orient2d_ccw_i64() {
    let a = Point2::new(0_i64, 0);
    let b = Point2::new(1, 0);
    let c = Point2::new(0, 1);
    assert_eq!(orient2d(a, b, c), Ordering::Greater);
}

#[test]
fn orient2d_ccw_i32() {
    let a = Point2::new(0_i32, 0);
    let b = Point2::new(1, 0);
    let c = Point2::new(0, 1);
    assert_eq!(orient2d(a, b, c), Ordering::Greater);
}

#[test]
fn orient2d_cw() {
    let a = Point2::new(0_i64, 0);
    let b = Point2::new(0, 1);
    let c = Point2::new(1, 0);
    assert_eq!(orient2d(a, b, c), Ordering::Less);
}

#[test]
fn orient2d_collinear() {
    let a = Point2::new(0_i64, 0);
    let b = Point2::new(1, 1);
    let c = Point2::new(2, 2);
    assert_eq!(orient2d(a, b, c), Ordering::Equal);
}

#[test]
fn orient2d_reversal_flips_sign() {
    let a = Point2::new(-7_i64, 3);
    let b = Point2::new(11, -4);
    let c = Point2::new(2, 9);
    assert_eq!(orient2d(a, b, c), Ordering::Greater);
    assert_eq!(orient2d(b, a, c), Ordering::Less);
    assert_eq!(orient2d(b, c, a), Ordering::Greater);
}

#[test]
fn incircle_inside() {
    let a = Point2::new(0, 0);
    let b = Point2::new(4, 0);
    let c = Point2::new(0, 4);
    let d = Point2::new(1, 1);
    assert_eq!(incircle(a, b, c, d), Ordering::Greater);
}

#[test]
fn incircle_outside() {
    let a = Point2::new(0, 0);
    let b = Point2::new(4, 0);
    let c = Point2::new(0, 4);
    let d = Point2::new(10, 10);
    assert_eq!(incircle(a, b, c, d), Ordering::Less);
}

#[test]
fn incircle_on_circle() {
    let a = Point2::new(1, 0);
    let b = Point2::new(0, 1);
    let c = Point2::new(-1, 0);
    let d = Point2::new(0, -1);
    assert_eq!(incircle(a, b, c, d), Ordering::Equal);
}

#[test]
fn collinear_true() {
    let a = Point2::new(0_i64, 0);
    let b = Point2::new(5, 5);
    let c = Point2::new(10, 10);
    assert!(collinear(a, b, c));
}

#[test]
fn collinear_false() {
    let a = Point2::new(0_i64, 0);
    let b = Point2::new(1, 0);
    let c = Point2::new(0, 1);
    assert!(!collinear(a, b, c));
}

#[test]
fn orient3d_above() {
    let a = Point3::new(0_i64, 0, 0);
    let b = Point3::new(1, 0, 0);
    let c = Point3::new(0, 1, 0);
    let d = Point3::new(0, 0, 1);
    assert_eq!(orient3d(a, b, c, d), Ordering::Greater);
}

#[test]
fn orient3d_below() {
    let a = Point3::new(0_i64, 0, 0);
    let b = Point3::new(1, 0, 0);
    let c = Point3::new(0, 1, 0);
    let d = Point3::new(0, 0, -1);
    assert_eq!(orient3d(a, b, c, d), Ordering::Less);
}

#[test]
fn orient3d_coplanar() {
    let a = Point3::new(0_i64, 0, 0);
    let b = Point3::new(1, 0, 0);
    let c = Point3::new(0, 1, 0);
    let d = Point3::new(1, 1, 0);
    assert_eq!(orient3d(a, b, c, d), Ordering::Equal);
}

#[test]
fn coplanar_true() {
    let a = Point3::new(0_i64, 0, 0);
    let b = Point3::new(1, 0, 0);
    let c = Point3::new(0, 1, 0);
    let d = Point3::new(2, 3, 0);
    assert!(coplanar(a, b, c, d));
}

#[test]
fn coplanar_false() {
    let a = Point3::new(0_i64, 0, 0);
    let b = Point3::new(1, 0, 0);
    let c = Point3::new(0, 1, 0);
    let d = Point3::new(0, 0, 1);
    assert!(!coplanar(a, b, c, d));
}

#[test]
fn insphere_inside() {
    let a = Point3::new(1_i64, 1, 1);
    let b = Point3::new(-1, -1, 1);
    let c = Point3::new(-1, 1, -1);
    let d = Point3::new(1, -1, -1);
    let e = Point3::new(0, 0, 0);
    assert_eq!(insphere(a, b, c, d, e), Ordering::Greater);
}

#[test]
fn insphere_outside() {
    let a = Point3::new(1_i64, 1, 1);
    let b = Point3::new(-1, -1, 1);
    let c = Point3::new(-1, 1, -1);
    let d = Point3::new(1, -1, -1);
    let e = Point3::new(10, 10, 10);
    assert_eq!(insphere(a, b, c, d, e), Ordering::Less);
}

#[test]
fn insphere_on_sphere() {
    let a = Point3::new(1_i64, 0, 0);
    let b = Point3::new(0, 1, 0);
    let c = Point3::new(0, 0, 1);
    let d = Point3::new(-1, 0, 0);
    let e = Point3::new(0, -1, 0);
    assert_eq!(insphere(a, b, c, d, e), Ordering::Equal);
}
