//! Integer widening, so that products of coordinate differences cannot overflow.
use std::cmp::Ordering;
use vstd::prelude::*;

verus! {

/// Sign of a mathematical integer as an `Ordering` against zero.
pub open spec fn sign_of(v: int) -> Ordering {
    if v > 0 {
        Ordering::Greater
    } else if v < 0 {
        Ordering::Less
    } else {
        Ordering::Equal
    }
}

/// Types that can widen to avoid overflow in multiplication.
///
/// `i32` widens to `i64`, `i64` widens to `i128`.
pub trait Widen: Copy + Sized {
    /// A wider type that can hold products of `Self` values.
    type Wide: Wide;

    /// The mathematical value of a narrow integer.
    spec fn value(self) -> int;

    /// Smallest representable narrow value.
    spec fn narrow_min() -> int;

    /// Largest representable narrow value.
    spec fn narrow_max() -> int;

    /// Every narrow value lies in the narrow range, and the wide type
    /// holds four times any narrow value.
    proof fn value_in_range(self)
        ensures
            Self::narrow_min() <= self.value() <= Self::narrow_max(),
            Self::narrow_min() < 0 < Self::narrow_max(),
            Self::narrow_max() <= -Self::narrow_min(),
            <Self::Wide as Wide>::wide_min() <= 4 * Self::narrow_min(),
            -4 * Self::narrow_min() <= <Self::Wide as Wide>::wide_max(),
    ;

    /// Distinct narrow values have distinct mathematical values.
    proof fn value_injective(self, other: Self)
        ensures
            self.value() == other.value() ==> self == other,
    ;

    /// Convert to the wide type.
    fn to_wide(self) -> (w: Self::Wide)
        ensures
            w.wide_value() == self.value(),
    ;

    /// Strict less-than on narrow values.
    fn narrow_lt(&self, other: &Self) -> (r: bool)
        ensures
            r == (self.value() < other.value()),
    ;

    /// Less-or-equal on narrow values.
    fn narrow_le(&self, other: &Self) -> (r: bool)
        ensures
            r == (self.value() <= other.value()),
    ;

    /// Equality on narrow values.
    fn narrow_eq(&self, other: &Self) -> (r: bool)
        ensures
            r == (self.value() == other.value()),
    ;
}

/// The wide side of a widening relationship.
pub trait Wide: Copy + Sized {
    /// The mathematical value of a wide integer.
    spec fn wide_value(self) -> int;

    /// Smallest representable wide value.
    spec fn wide_min() -> int;

    /// Largest representable wide value.
    spec fn wide_max() -> int;

    /// Every wide value lies in the wide range.
    proof fn wide_in_range(self)
        ensures
            Self::wide_min() <= self.wide_value() <= Self::wide_max(),
    ;

    /// Returns the zero value.
    fn zero() -> (z: Self)
        ensures
            z.wide_value() == 0,
    ;

    /// Compare to zero and return ordering.
    fn sign(&self) -> (o: Ordering)
        ensures
            o == sign_of(self.wide_value()),
    ;

    /// Exact sum.
    fn wide_add(self, other: Self) -> (r: Self)
        requires
            Self::wide_min() <= self.wide_value() + other.wide_value() <= Self::wide_max(),
        ensures
            r.wide_value() == self.wide_value() + other.wide_value(),
    ;

    /// Exact difference.
    fn wide_sub(self, other: Self) -> (r: Self)
        requires
            Self::wide_min() <= self.wide_value() - other.wide_value() <= Self::wide_max(),
        ensures
            r.wide_value() == self.wide_value() - other.wide_value(),
    ;

    /// Exact product.
    fn wide_mul(self, other: Self) -> (r: Self)
        requires
            Self::wide_min() <= self.wide_value() * other.wide_value() <= Self::wide_max(),
        ensures
            r.wide_value() == self.wide_value() * other.wide_value(),
    ;

    /// Strict less-than on wide values.
    fn wide_lt(&self, other: &Self) -> (r: bool)
        ensures
            r == (self.wide_value() < other.wide_value()),
    ;
}

// i32 -> i64

impl Widen for i32 {
    type Wide = i64;

    open spec fn value(self) -> int {
        self as int
    }

    open spec fn narrow_min() -> int {
        i32::MIN as int
    }

    open spec fn narrow_max() -> int {
        i32::MAX as int
    }

    proof fn value_in_range(self) {
        assert(<i64 as Wide>::wide_min() == i64::MIN as int);
        assert(<i64 as Wide>::wide_max() == i64::MAX as int);
    }

    proof fn value_injective(self, other: Self) {
    }

    fn to_wide(self) -> (w: i64) {
        let w = self as i64;
        assert(w.wide_value() == self as int);
        w
    }

    fn narrow_lt(&self, other: &Self) -> (r: bool) {
        *self < *other
    }

    fn narrow_le(&self, other: &Self) -> (r: bool) {
        *self <= *other
    }

    fn narrow_eq(&self, other: &Self) -> (r: bool) {
        *self == *other
    }
}

impl Wide for i64 {
    open spec fn wide_value(self) -> int {
        self as int
    }

    open spec fn wide_min() -> int {
        i64::MIN as int
    }

    open spec fn wide_max() -> int {
        i64::MAX as int
    }

    proof fn wide_in_range(self) {
    }

    fn zero() -> (z: i64) {
        0
    }

    fn sign(&self) -> (o: Ordering) {
        if *self > 0 {
            Ordering::Greater
        } else if *self < 0 {
            Ordering::Less
        } else {
            Ordering::Equal
        }
    }

    fn wide_add(self, other: i64) -> (r: i64) {
        self + other
    }

    fn wide_sub(self, other: i64) -> (r: i64) {
        self - other
    }

    fn wide_mul(self, other: i64) -> (r: i64) {
        self * other
    }

    fn wide_lt(&self, other: &i64) -> (r: bool) {
        *self < *other
    }
}

// i64 -> i128

impl Widen for i64 {
    type Wide = i128;

    open spec fn value(self) -> int {
        self as int
    }

    open spec fn narrow_min() -> int {
        i64::MIN as int
    }

    open spec fn narrow_max() -> int {
        i64::MAX as int
    }

    proof fn value_in_range(self) {
        assert(<i128 as Wide>::wide_min() == i128::MIN as int);
        assert(<i128 as Wide>::wide_max() == i128::MAX as int);
    }

    proof fn value_injective(self, other: Self) {
    }

    fn to_wide(self) -> (w: i128) {
        let w = self as i128;
        assert(w.wide_value() == self as int);
        w
    }

    fn narrow_lt(&self, other: &Self) -> (r: bool) {
        *self < *other
    }

    fn narrow_le(&self, other: &Self) -> (r: bool) {
        *self <= *other
    }

    fn narrow_eq(&self, other: &Self) -> (r: bool) {
        *self == *other
    }
}

impl Wide for i128 {
    open spec fn wide_value(self) -> int {
        self as int
    }

    open spec fn wide_min() -> int {
        i128::MIN as int
    }

    open spec fn wide_max() -> int {
        i128::MAX as int
    }

    proof fn wide_in_range(self) {
    }

    fn zero() -> (z: i128) {
        0
    }

    fn sign(&self) -> (o: Ordering) {
        if *self > 0 {
            Ordering::Greater
        } else if *self < 0 {
            Ordering::Less
        } else {
            Ordering::Equal
        }
    }

    fn wide_add(self, other: i128) -> (r: i128) {
        self + other
    }

    fn wide_sub(self, other: i128) -> (r: i128) {
        self - other
    }

    fn wide_mul(self, other: i128) -> (r: i128) {
        self * other
    }

    fn wide_lt(&self, other: &i128) -> (r: bool) {
        *self < *other
    }
}

} // verus!
