//! Exact geometric predicates and algorithms using integer arithmetic.
mod point;
mod rational;
mod vector;
mod widen;

pub mod algo;
pub mod ops;
pub mod predicates;

pub use point::{Point2, Point3};
pub use rational::Rational;
pub use vector::{Vector2, Vector3};
pub use widen::{Wide, Widen};
