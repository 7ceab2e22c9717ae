//! Bounding-volume hierarchy and scene-scan logic of a Monte Carlo ray tracer.
//!
//! Coordinates are IEEE-754 binary32 values kept as their bit patterns and ordered
//! by the IEEE totalOrder predicate; the floating-point arithmetic of ray tests is
//! supplied by callers as closures.

pub mod aabb;
pub mod bvh;
pub mod hittable;
pub mod rand;
pub mod vec;
