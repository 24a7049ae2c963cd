//! Exact rational number type for computational geometry.
//!
//! Used for intersection points and circumcenters where integer coordinates
//! are not sufficient.
use std::cmp::Ordering;
use std::ops::{Add, Div, Mul, Neg, Sub};
use vstd::prelude::*;
use vstd::std_specs::cmp::PartialOrdSpecImpl;
use vstd::std_specs::ops::{AddSpecImpl, DivSpecImpl, MulSpecImpl, NegSpecImpl, SubSpecImpl};

use crate::widen::sign_of;

verus! {

/// True when `v` is representable as an `i128`.
pub open spec fn fits_i128(v: int) -> bool {
    i128::MIN <= v <= i128::MAX
}

/// A rational number represented as numerator/denominator.
///
/// Used for exact coordinates (e.g., intersection points, circumcenters).
/// The denominator is positive in every well-formed value; no reduction is
/// performed.
#[derive(Debug, Clone, Copy, PartialEq, Eq)]
pub struct Rational {
    pub num: i128,
    pub denom: i128,
}

impl Rational {
    /// A well-formed rational has a positive denominator.
    pub open spec fn wf(self) -> bool {
        self.denom > 0
    }

    /// Left cross product `self.num * other.denom`.
    pub open spec fn cross_left(self, other: Rational) -> int {
        self.num * other.denom
    }

    /// Right cross product `other.num * self.denom`.
    pub open spec fn cross_right(self, other: Rational) -> int {
        other.num * self.denom
    }

    /// Both cross products of a comparison fit in an `i128`.
    pub open spec fn cmp_fits(self, other: Rational) -> bool {
        fits_i128(self.cross_left(other)) && fits_i128(self.cross_right(other))
    }

    /// The ordering of two rationals, by cross multiplication.
    pub open spec fn cross_order(self, other: Rational) -> Ordering {
        sign_of(self.cross_left(other) - self.cross_right(other))
    }

    /// `self` and `other` denote the same number.
    pub open spec fn same_value(self, other: Rational) -> bool {
        self.num * other.denom == other.num * self.denom
    }

    /// `self` denotes a number strictly below `other`.
    pub open spec fn value_lt(self, other: Rational) -> bool {
        self.num * other.denom < other.num * self.denom
    }

    /// `self` denotes a number at most `other`.
    pub open spec fn value_le(self, other: Rational) -> bool {
        self.num * other.denom <= other.num * self.denom
    }

    /// Creates a new rational number.
    ///
    /// The denominator must be positive. No automatic reduction is performed.
    pub fn new(num: i128, denom: i128) -> (r: Self)
        requires
            denom > 0,
        ensures
            r.num == num,
            r.denom == denom,
    {
        Self { num, denom }
    }

    /// Creates a rational from an integer.
    pub fn from_int(n: i64) -> (r: Self)
        ensures
            r.num == n,
            r.denom == 1,
    {
        Self { num: n as i128, denom: 1 }
    }

    /// Returns the sign of this rational: -1, 0, or 1.
    pub fn signum(self) -> (s: i128)
        ensures
            s == (if self.num > 0 {
                1int
            } else if self.num < 0 {
                -1int
            } else {
                0int
            }),
    {
        if self.num > 0 {
            1
        } else if self.num < 0 {
            -1
        } else {
            0
        }
    }

    /// Returns true if this rational is negative.
    pub fn is_negative(self) -> (r: bool)
        ensures
            r == (self.num < 0),
    {
        self.num < 0
    }

    /// Returns true if this rational is non-negative (>= 0).
    pub fn is_non_negative(self) -> (r: bool)
        ensures
            r == (self.num >= 0),
    {
        self.num >= 0
    }

    /// Returns true if this rational is zero.
    pub fn is_zero(self) -> (r: bool)
        ensures
            r == (self.num == 0),
    {
        self.num == 0
    }

    /// Three-way comparison by cross multiplication (`a/b` vs `c/d` as `a*d` vs `c*b`).
    pub fn cmp(&self, other: &Self) -> (o: Ordering)
        requires
            self.cmp_fits(*other),
        ensures
            o == self.cross_order(*other),
    {
        let lhs = self.num * other.denom;
        let rhs = other.num * self.denom;
        if lhs > rhs {
            Ordering::Greater
        } else if lhs < rhs {
            Ordering::Less
        } else {
            Ordering::Equal
        }
    }
}

/// Partial comparison: the cross-multiplication order, or `None` when a
/// cross product does not fit in an `i128`.
pub open spec fn rational_partial_order(a: Rational, b: Rational) -> Option<Ordering> {
    if a.cmp_fits(b) {
        Some(a.cross_order(b))
    } else {
        None
    }
}

impl PartialOrd for Rational {
    fn partial_cmp(&self, other: &Self) -> (r: Option<Ordering>) {
        let lhs = self.num.checked_mul(other.denom);
        let rhs = other.num.checked_mul(self.denom);
        match (lhs, rhs) {
            (Some(l), Some(r)) => {
                if l > r {
                    Some(Ordering::Greater)
                } else if l < r {
                    Some(Ordering::Less)
                } else {
                    Some(Ordering::Equal)
                }
            },
            _ => None,
        }
    }
}

impl PartialOrdSpecImpl for Rational {
    open spec fn obeys_partial_cmp_spec() -> bool {
        true
    }

    open spec fn partial_cmp_spec(&self, other: &Self) -> Option<Ordering> {
        rational_partial_order(*self, *other)
    }
}

/// Numerator of a sum `a/b + c/d = (ad + cb) / bd`.
pub open spec fn add_num(a: Rational, b: Rational) -> int {
    a.num * b.denom + b.num * a.denom
}

/// Numerator of a difference `a/b - c/d = (ad - cb) / bd`.
pub open spec fn sub_num(a: Rational, b: Rational) -> int {
    a.num * b.denom - b.num * a.denom
}

/// Denominator of a sum, difference or product.
pub open spec fn prod_denom(a: Rational, b: Rational) -> int {
    a.denom * b.denom
}

/// The intermediate values of a sum all fit in an `i128`.
pub open spec fn add_fits(a: Rational, b: Rational) -> bool {
    &&& fits_i128(a.num * b.denom)
    &&& fits_i128(b.num * a.denom)
    &&& fits_i128(add_num(a, b))
    &&& fits_i128(prod_denom(a, b))
}

/// The intermediate values of a difference all fit in an `i128`.
pub open spec fn sub_fits(a: Rational, b: Rational) -> bool {
    &&& fits_i128(a.num * b.denom)
    &&& fits_i128(b.num * a.denom)
    &&& fits_i128(sub_num(a, b))
    &&& fits_i128(prod_denom(a, b))
}

/// The intermediate values of a product all fit in an `i128`.
pub open spec fn mul_fits(a: Rational, b: Rational) -> bool {
    fits_i128(a.num * b.num) && fits_i128(prod_denom(a, b))
}

/// The intermediate values of a quotient all fit in an `i128`
/// (including the sign normalization).
pub open spec fn div_fits(a: Rational, b: Rational) -> bool {
    &&& fits_i128(a.num * b.denom)
    &&& fits_i128(a.denom * b.num)
    &&& fits_i128(-(a.num * b.denom))
    &&& fits_i128(-(a.denom * b.num))
}

/// The quotient `(a/b) / (c/d) = ad / bc`, with the sign moved to the numerator.
pub open spec fn div_value(a: Rational, b: Rational) -> Rational {
    if a.denom * b.num < 0 {
        Rational { num: (-(a.num * b.denom)) as i128, denom: (-(a.denom * b.num)) as i128 }
    } else {
        Rational { num: (a.num * b.denom) as i128, denom: (a.denom * b.num) as i128 }
    }
}

impl Neg for Rational {
    type Output = Self;

    fn neg(self) -> (r: Self) {
        Self { num: -self.num, denom: self.denom }
    }
}

impl NegSpecImpl for Rational {
    open spec fn obeys_neg_spec() -> bool {
        true
    }

    open spec fn neg_req(self) -> bool {
        self.num != i128::MIN
    }

    open spec fn neg_spec(self) -> Self {
        Rational { num: (-self.num) as i128, denom: self.denom }
    }
}

impl Add for Rational {
    type Output = Self;

    fn add(self, other: Self) -> (r: Self) {
        Self { num: self.num * other.denom + other.num * self.denom, denom: self.denom * other.denom }
    }
}

impl AddSpecImpl for Rational {
    open spec fn obeys_add_spec() -> bool {
        true
    }

    open spec fn add_req(self, other: Self) -> bool {
        add_fits(self, other)
    }

    open spec fn add_spec(self, other: Self) -> Self {
        Rational { num: add_num(self, other) as i128, denom: prod_denom(self, other) as i128 }
    }
}

impl Sub for Rational {
    type Output = Self;

    fn sub(self, other: Self) -> (r: Self) {
        Self { num: self.num * other.denom - other.num * self.denom, denom: self.denom * other.denom }
    }
}

impl SubSpecImpl for Rational {
    open spec fn obeys_sub_spec() -> bool {
        true
    }

    open spec fn sub_req(self, other: Self) -> bool {
        sub_fits(self, other)
    }

    open spec fn sub_spec(self, other: Self) -> Self {
        Rational { num: sub_num(self, other) as i128, denom: prod_denom(self, other) as i128 }
    }
}

impl Mul for Rational {
    type Output = Self;

    fn mul(self, other: Self) -> (r: Self) {
        Self { num: self.num * other.num, denom: self.denom * other.denom }
    }
}

impl MulSpecImpl for Rational {
    open spec fn obeys_mul_spec() -> bool {
        true
    }

    open spec fn mul_req(self, other: Self) -> bool {
        mul_fits(self, other)
    }

    open spec fn mul_spec(self, other: Self) -> Self {
        Rational { num: (self.num * other.num) as i128, denom: prod_denom(self, other) as i128 }
    }
}

impl Div for Rational {
    type Output = Self;

    fn div(self, other: Self) -> (r: Self) {
        let n = self.num * other.denom;
        let d = self.denom * other.num;
        if d < 0 {
            Self { num: -n, denom: -d }
        } else {
            Self { num: n, denom: d }
        }
    }
}

impl DivSpecImpl for Rational {
    open spec fn obeys_div_spec() -> bool {
        true
    }

    open spec fn div_req(self, other: Self) -> bool {
        div_fits(self, other)
    }

    open spec fn div_spec(self, other: Self) -> Self {
        div_value(self, other)
    }
}

// ---------------------------------------------------------------------------
// Laws
// ---------------------------------------------------------------------------

/// Comparison is antisymmetric: `a` compares below `b` exactly when `b`
/// compares above `a`, and equal comparisons agree both ways.
pub proof fn lemma_cross_order_antisymmetric(a: Rational, b: Rational)
    ensures
        (a.cross_order(b) == Ordering::Less) == (b.cross_order(a) == Ordering::Greater),
        (a.cross_order(b) == Ordering::Equal) == (b.cross_order(a) == Ordering::Equal),
        (a.cross_order(b) == Ordering::Greater) == (b.cross_order(a) == Ordering::Less),
{
}

/// Order by value is transitive among rationals with positive denominators,
/// and equality of value is an equivalence.
pub proof fn lemma_value_order_transitive(a: Rational, b: Rational, c: Rational)
    requires
        a.wf(),
        b.wf(),
        c.wf(),
    ensures
        a.value_le(b) && b.value_le(c) ==> a.value_le(c),
        a.value_lt(b) && b.value_le(c) ==> a.value_lt(c),
        a.value_le(b) && b.value_lt(c) ==> a.value_lt(c),
        a.same_value(b) && b.same_value(c) ==> a.same_value(c),
{
    let d1 = a.num * b.denom - b.num * a.denom;
    let d2 = b.num * c.denom - c.num * b.denom;
    let d3 = a.num * c.denom - c.num * a.denom;
    assert(d3 * b.denom == d1 * c.denom + d2 * a.denom) by (nonlinear_arith)
        requires
            d1 == a.num * b.denom - b.num * a.denom,
            d2 == b.num * c.denom - c.num * b.denom,
            d3 == a.num * c.denom - c.num * a.denom,
    ;
    assert(d1 <= 0 ==> d1 * c.denom <= 0) by (nonlinear_arith)
        requires
            c.denom > 0,
    ;
    assert(d1 < 0 ==> d1 * c.denom < 0) by (nonlinear_arith)
        requires
            c.denom > 0,
    ;
    assert(d2 <= 0 ==> d2 * a.denom <= 0) by (nonlinear_arith)
        requires
            a.denom > 0,
    ;
    assert(d2 < 0 ==> d2 * a.denom < 0) by (nonlinear_arith)
        requires
            a.denom > 0,
    ;
    assert(d3 * b.denom <= 0 ==> d3 <= 0) by (nonlinear_arith)
        requires
            b.denom > 0,
    ;
    assert(d3 * b.denom < 0 ==> d3 < 0) by (nonlinear_arith)
        requires
            b.denom > 0,
    ;
    assert(d3 * b.denom == 0 ==> d3 == 0) by (nonlinear_arith)
        requires
            b.denom > 0,
    ;
}

/// Integers keep their order as rationals: two rationals with denominator
/// 1 compare as their numerators do.
pub proof fn lemma_integer_order(a: Rational, b: Rational)
    requires
        a.denom == 1,
        b.denom == 1,
    ensures
        a.cross_order(b) == sign_of(a.num - b.num),
{
}

/// Sum and product do not depend on the order of the operands (as exact
/// numerator/denominator pairs).
pub proof fn lemma_add_mul_commute(a: Rational, b: Rational)
    ensures
        add_num(a, b) == add_num(b, a),
        prod_denom(a, b) == prod_denom(b, a),
        a.num * b.num == b.num * a.num,
{
    assert(prod_denom(a, b) == prod_denom(b, a)) by (nonlinear_arith);
    assert(a.num * b.num == b.num * a.num) by (nonlinear_arith);
}

} // verus!
