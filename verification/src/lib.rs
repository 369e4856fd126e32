//! A path-tracing core over exact fixed-point coordinates.
//!
//! Every coordinate, distance and color channel is an integer count of
//! `1/SCALE` world units, so every geometric decision (sphere intersection,
//! slab tests, nearest-hit selection) is exact integer arithmetic with a
//! verified contract.

pub mod fixed;
pub mod ray;
pub mod rng;
pub mod color;
pub mod aabb;
pub mod texture;
pub mod material;
pub mod hit;
pub mod sphere;
pub mod bvh;
pub mod scene;
pub mod tracer;
pub mod vector3;
