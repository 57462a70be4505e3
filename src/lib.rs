//! The intersection core of a Monte-Carlo ray tracer.
//!
//! Coordinates and ray parameters are held as `Scalar`s, doubles ranked in their IEEE 754
//! order, so that the comparisons and selections of the core are exact: the slab test,
//! box unions, the bounding-volume hierarchy and its traversal, nearest-hit search, and
//! the choices that materials and the path estimator make. The floating-point arithmetic
//! that produces those values (sphere roots, slab crossings, shading) is the caller's.
pub mod aabb;
pub mod bvh;
pub mod hittable;
pub mod hittable_list;
pub mod integrator;
pub mod material;
pub mod scalar;
