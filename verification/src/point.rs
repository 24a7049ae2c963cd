//! Point types for 2D and 3D geometry.
use std::ops::{Add, Sub};
use vstd::prelude::*;
use vstd::std_specs::ops::{AddSpecImpl, SubSpecImpl};

use crate::vector::{Vector2, Vector3};

verus! {

/// A 2D point with integer coordinates.
#[derive(Debug, Clone, Copy, PartialEq, Eq, Hash)]
pub struct Point2<T> {
    pub x: T,
    pub y: T,
}

impl<T> Point2<T> {
    /// Creates a new 2D point.
    pub fn new(x: T, y: T) -> (r: Self)
        ensures
            r.x == x,
            r.y == y,
    {
        Self { x, y }
    }
}

impl Sub for Point2<i32> {
    type Output = Vector2<i32>;

    fn sub(self, other: Self) -> (r: Vector2<i32>) {
        Vector2::new(self.x - other.x, self.y - other.y)
    }
}

impl SubSpecImpl for Point2<i32> {
    open spec fn obeys_sub_spec() -> bool {
        true
    }

    open spec fn sub_req(self, other: Self) -> bool {
        &&& i32::MIN <= self.x - other.x <= i32::MAX
        &&& i32::MIN <= self.y - other.y <= i32::MAX
    }

    open spec fn sub_spec(self, other: Self) -> Vector2<i32> {
        Vector2 { x: (self.x - other.x) as i32, y: (self.y - other.y) as i32 }
    }
}

impl Add<Vector2<i32>> for Point2<i32> {
    type Output = Self;

    fn add(self, v: Vector2<i32>) -> (r: Self) {
        Self::new(self.x + v.x, self.y + v.y)
    }
}

impl AddSpecImpl<Vector2<i32>> for Point2<i32> {
    open spec fn obeys_add_spec() -> bool {
        true
    }

    open spec fn add_req(self, v: Vector2<i32>) -> bool {
        &&& i32::MIN <= self.x + v.x <= i32::MAX
        &&& i32::MIN <= self.y + v.y <= i32::MAX
    }

    open spec fn add_spec(self, v: Vector2<i32>) -> Self {
        Point2 { x: (self.x + v.x) as i32, y: (self.y + v.y) as i32 }
    }
}

impl Sub for Point2<i64> {
    type Output = Vector2<i64>;

    fn sub(self, other: Self) -> (r: Vector2<i64>) {
        Vector2::new(self.x - other.x, self.y - other.y)
    }
}

impl SubSpecImpl for Point2<i64> {
    open spec fn obeys_sub_spec() -> bool {
        true
    }

    open spec fn sub_req(self, other: Self) -> bool {
        &&& i64::MIN <= self.x - other.x <= i64::MAX
        &&& i64::MIN <= self.y - other.y <= i64::MAX
    }

    open spec fn sub_spec(self, other: Self) -> Vector2<i64> {
        Vector2 { x: (self.x - other.x) as i64, y: (self.y - other.y) as i64 }
    }
}

impl Add<Vector2<i64>> for Point2<i64> {
    type Output = Self;

    fn add(self, v: Vector2<i64>) -> (r: Self) {
        Self::new(self.x + v.x, self.y + v.y)
    }
}

impl AddSpecImpl<Vector2<i64>> for Point2<i64> {
    open spec fn obeys_add_spec() -> bool {
        true
    }

    open spec fn add_req(self, v: Vector2<i64>) -> bool {
        &&& i64::MIN <= self.x + v.x <= i64::MAX
        &&& i64::MIN <= self.y + v.y <= i64::MAX
    }

    open spec fn add_spec(self, v: Vector2<i64>) -> Self {
        Point2 { x: (self.x + v.x) as i64, y: (self.y + v.y) as i64 }
    }
}

/// A 3D point with integer coordinates.
#[derive(Debug, Clone, Copy, PartialEq, Eq, Hash)]
pub struct Point3<T> {
    pub x: T,
    pub y: T,
    pub z: T,
}

impl<T> Point3<T> {
    /// Creates a new 3D point.
    pub fn new(x: T, y: T, z: T) -> (r: Self)
        ensures
            r.x == x,
            r.y == y,
            r.z == z,
    {
        Self { x, y, z }
    }
}

impl Sub for Point3<i32> {
    type Output = Vector3<i32>;

    fn sub(self, other: Self) -> (r: Vector3<i32>) {
        Vector3::new(self.x - other.x, self.y - other.y, self.z - other.z)
    }
}

impl SubSpecImpl for Point3<i32> {
    open spec fn obeys_sub_spec() -> bool {
        true
    }

    open spec fn sub_req(self, other: Self) -> bool {
        &&& i32::MIN <= self.x - other.x <= i32::MAX
        &&& i32::MIN <= self.y - other.y <= i32::MAX
        &&& i32::MIN <= self.z - other.z <= i32::MAX
    }

    open spec fn sub_spec(self, other: Self) -> Vector3<i32> {
        Vector3 { x: (self.x - other.x) as i32, y: (self.y - other.y) as i32, z: (self.z - other.z) as i32 }
    }
}

impl Add<Vector3<i32>> for Point3<i32> {
    type Output = Self;

    fn add(self, v: Vector3<i32>) -> (r: Self) {
        Self::new(self.x + v.x, self.y + v.y, self.z + v.z)
    }
}

impl AddSpecImpl<Vector3<i32>> for Point3<i32> {
    open spec fn obeys_add_spec() -> bool {
        true
    }

    open spec fn add_req(self, v: Vector3<i32>) -> bool {
        &&& i32::MIN <= self.x + v.x <= i32::MAX
        &&& i32::MIN <= self.y + v.y <= i32::MAX
        &&& i32::MIN <= self.z + v.z <= i32::MAX
    }

    open spec fn add_spec(self, v: Vector3<i32>) -> Self {
        Point3 { x: (self.x + v.x) as i32, y: (self.y + v.y) as i32, z: (self.z + v.z) as i32 }
    }
}

impl Sub for Point3<i64> {
    type Output = Vector3<i64>;

    fn sub(self, other: Self) -> (r: Vector3<i64>) {
        Vector3::new(self.x - other.x, self.y - other.y, self.z - other.z)
    }
}

impl SubSpecImpl for Point3<i64> {
    open spec fn obeys_sub_spec() -> bool {
        true
    }

    open spec fn sub_req(self, other: Self) -> bool {
        &&& i64::MIN <= self.x - other.x <= i64::MAX
        &&& i64::MIN <= self.y - other.y <= i64::MAX
        &&& i64::MIN <= self.z - other.z <= i64::MAX
    }

    open spec fn sub_spec(self, other: Self) -> Vector3<i64> {
        Vector3 { x: (self.x - other.x) as i64, y: (self.y - other.y) as i64, z: (self.z - other.z) as i64 }
    }
}

impl Add<Vector3<i64>> for Point3<i64> {
    type Output = Self;

    fn add(self, v: Vector3<i64>) -> (r: Self) {
        Self::new(self.x + v.x, self.y + v.y, self.z + v.z)
    }
}

impl AddSpecImpl<Vector3<i64>> for Point3<i64> {
    open spec fn obeys_add_spec() -> bool {
        true
    }

    open spec fn add_req(self, v: Vector3<i64>) -> bool {
        &&& i64::MIN <= self.x + v.x <= i64::MAX
        &&& i64::MIN <= self.y + v.y <= i64::MAX
        &&& i64::MIN <= self.z + v.z <= i64::MAX
    }

    open spec fn add_spec(self, v: Vector3<i64>) -> Self {
        Point3 { x: (self.x + v.x) as i64, y: (self.y + v.y) as i64, z: (self.z + v.z) as i64 }
    }
}

} // verus!
