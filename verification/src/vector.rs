//! Vector types for 2D and 3D geometry.
use std::ops::{Add, Neg, Sub};
use vstd::prelude::*;
use vstd::std_specs::ops::{AddSpecImpl, NegSpecImpl, SubSpecImpl};

verus! {

/// A 2D displacement vector with integer components.
#[derive(Debug, Clone, Copy, PartialEq, Eq, Hash)]
pub struct Vector2<T> {
    pub x: T,
    pub y: T,
}

impl<T> Vector2<T> {
    /// Creates a new 2D vector.
    pub fn new(x: T, y: T) -> (r: Self)
        ensures
            r.x == x,
            r.y == y,
    {
        Self { x, y }
    }
}

impl Add for Vector2<i32> {
    type Output = Self;

    fn add(self, other: Self) -> (r: Self) {
        Self::new(self.x + other.x, self.y + other.y)
    }
}

impl AddSpecImpl for Vector2<i32> {
    open spec fn obeys_add_spec() -> bool {
        true
    }

    open spec fn add_req(self, other: Self) -> bool {
        &&& i32::MIN <= self.x + other.x <= i32::MAX
        &&& i32::MIN <= self.y + other.y <= i32::MAX
    }

    open spec fn add_spec(self, other: Self) -> Self {
        Vector2 { x: (self.x + other.x) as i32, y: (self.y + other.y) as i32 }
    }
}

impl Sub for Vector2<i32> {
    type Output = Self;

    fn sub(self, other: Self) -> (r: Self) {
        Self::new(self.x - other.x, self.y - other.y)
    }
}

impl SubSpecImpl for Vector2<i32> {
    open spec fn obeys_sub_spec() -> bool {
        true
    }

    open spec fn sub_req(self, other: Self) -> bool {
        &&& i32::MIN <= self.x - other.x <= i32::MAX
        &&& i32::MIN <= self.y - other.y <= i32::MAX
    }

    open spec fn sub_spec(self, other: Self) -> Self {
        Vector2 { x: (self.x - other.x) as i32, y: (self.y - other.y) as i32 }
    }
}

impl Neg for Vector2<i32> {
    type Output = Self;

    fn neg(self) -> (r: Self) {
        Self::new(-self.x, -self.y)
    }
}

impl NegSpecImpl for Vector2<i32> {
    open spec fn obeys_neg_spec() -> bool {
        true
    }

    open spec fn neg_req(self) -> bool {
        &&& self.x != i32::MIN
        &&& self.y != i32::MIN
    }

    open spec fn neg_spec(self) -> Self {
        Vector2 { x: (-self.x) as i32, y: (-self.y) as i32 }
    }
}

impl Add for Vector2<i64> {
    type Output = Self;

    fn add(self, other: Self) -> (r: Self) {
        Self::new(self.x + other.x, self.y + other.y)
    }
}

impl AddSpecImpl for Vector2<i64> {
    open spec fn obeys_add_spec() -> bool {
        true
    }

    open spec fn add_req(self, other: Self) -> bool {
        &&& i64::MIN <= self.x + other.x <= i64::MAX
        &&& i64::MIN <= self.y + other.y <= i64::MAX
    }

    open spec fn add_spec(self, other: Self) -> Self {
        Vector2 { x: (self.x + other.x) as i64, y: (self.y + other.y) as i64 }
    }
}

impl Sub for Vector2<i64> {
    type Output = Self;

    fn sub(self, other: Self) -> (r: Self) {
        Self::new(self.x - other.x, self.y - other.y)
    }
}

impl SubSpecImpl for Vector2<i64> {
    open spec fn obeys_sub_spec() -> bool {
        true
    }

    open spec fn sub_req(self, other: Self) -> bool {
        &&& i64::MIN <= self.x - other.x <= i64::MAX
        &&& i64::MIN <= self.y - other.y <= i64::MAX
    }

    open spec fn sub_spec(self, other: Self) -> Self {
        Vector2 { x: (self.x - other.x) as i64, y: (self.y - other.y) as i64 }
    }
}

impl Neg for Vector2<i64> {
    type Output = Self;

    fn neg(self) -> (r: Self) {
        Self::new(-self.x, -self.y)
    }
}

impl NegSpecImpl for Vector2<i64> {
    open spec fn obeys_neg_spec() -> bool {
        true
    }

    open spec fn neg_req(self) -> bool {
        &&& self.x != i64::MIN
        &&& self.y != i64::MIN
    }

    open spec fn neg_spec(self) -> Self {
        Vector2 { x: (-self.x) as i64, y: (-self.y) as i64 }
    }
}

/// A 3D displacement vector with integer components.
#[derive(Debug, Clone, Copy, PartialEq, Eq, Hash)]
pub struct Vector3<T> {
    pub x: T,
    pub y: T,
    pub z: T,
}

impl<T> Vector3<T> {
    /// Creates a new 3D vector.
    pub fn new(x: T, y: T, z: T) -> (r: Self)
        ensures
            r.x == x,
            r.y == y,
            r.z == z,
    {
        Self { x, y, z }
    }
}

impl Add for Vector3<i32> {
    type Output = Self;

    fn add(self, other: Self) -> (r: Self) {
        Self::new(self.x + other.x, self.y + other.y, self.z + other.z)
    }
}

impl AddSpecImpl for Vector3<i32> {
    open spec fn obeys_add_spec() -> bool {
        true
    }

    open spec fn add_req(self, other: Self) -> bool {
        &&& i32::MIN <= self.x + other.x <= i32::MAX
        &&& i32::MIN <= self.y + other.y <= i32::MAX
        &&& i32::MIN <= self.z + other.z <= i32::MAX
    }

    open spec fn add_spec(self, other: Self) -> Self {
        Vector3 { x: (self.x + other.x) as i32, y: (self.y + other.y) as i32, z: (self.z + other.z) as i32 }
    }
}

impl Sub for Vector3<i32> {
    type Output = Self;

    fn sub(self, other: Self) -> (r: Self) {
        Self::new(self.x - other.x, self.y - other.y, self.z - other.z)
    }
}

impl SubSpecImpl for Vector3<i32> {
    open spec fn obeys_sub_spec() -> bool {
        true
    }

    open spec fn sub_req(self, other: Self) -> bool {
        &&& i32::MIN <= self.x - other.x <= i32::MAX
        &&& i32::MIN <= self.y - other.y <= i32::MAX
        &&& i32::MIN <= self.z - other.z <= i32::MAX
    }

    open spec fn sub_spec(self, other: Self) -> Self {
        Vector3 { x: (self.x - other.x) as i32, y: (self.y - other.y) as i32, z: (self.z - other.z) as i32 }
    }
}

impl Neg for Vector3<i32> {
    type Output = Self;

    fn neg(self) -> (r: Self) {
        Self::new(-self.x, -self.y, -self.z)
    }
}

impl NegSpecImpl for Vector3<i32> {
    open spec fn obeys_neg_spec() -> bool {
        true
    }

    open spec fn neg_req(self) -> bool {
        &&& self.x != i32::MIN
        &&& self.y != i32::MIN
        &&& self.z != i32::MIN
    }

    open spec fn neg_spec(self) -> Self {
        Vector3 { x: (-self.x) as i32, y: (-self.y) as i32, z: (-self.z) as i32 }
    }
}

impl Add for Vector3<i64> {
    type Output = Self;

    fn add(self, other: Self) -> (r: Self) {
        Self::new(self.x + other.x, self.y + other.y, self.z + other.z)
    }
}

impl AddSpecImpl for Vector3<i64> {
    open spec fn obeys_add_spec() -> bool {
        true
    }

    open spec fn add_req(self, other: Self) -> bool {
        &&& i64::MIN <= self.x + other.x <= i64::MAX
        &&& i64::MIN <= self.y + other.y <= i64::MAX
        &&& i64::MIN <= self.z + other.z <= i64::MAX
    }

    open spec fn add_spec(self, other: Self) -> Self {
        Vector3 { x: (self.x + other.x) as i64, y: (self.y + other.y) as i64, z: (self.z + other.z) as i64 }
    }
}

impl Sub for Vector3<i64> {
    type Output = Self;

    fn sub(self, other: Self) -> (r: Self) {
        Self::new(self.x - other.x, self.y - other.y, self.z - other.z)
    }
}

impl SubSpecImpl for Vector3<i64> {
    open spec fn obeys_sub_spec() -> bool {
        true
    }

    open spec fn sub_req(self, other: Self) -> bool {
        &&& i64::MIN <= self.x - other.x <= i64::MAX
        &&& i64::MIN <= self.y - other.y <= i64::MAX
        &&& i64::MIN <= self.z - other.z <= i64::MAX
    }

    open spec fn sub_spec(self, other: Self) -> Self {
        Vector3 { x: (self.x - other.x) as i64, y: (self.y - other.y) as i64, z: (self.z - other.z) as i64 }
    }
}

impl Neg for Vector3<i64> {
    type Output = Self;

    fn neg(self) -> (r: Self) {
        Self::new(-self.x, -self.y, -self.z)
    }
}

impl NegSpecImpl for Vector3<i64> {
    open spec fn obeys_neg_spec() -> bool {
        true
    }

    open spec fn neg_req(self) -> bool {
        &&& self.x != i64::MIN
        &&& self.y != i64::MIN
        &&& self.z != i64::MIN
    }

    open spec fn neg_spec(self) -> Self {
        Vector3 { x: (-self.x) as i64, y: (-self.y) as i64, z: (-self.z) as i64 }
    }
}

} // verus!
