//! The discrete core of a Monte Carlo path tracer.
//!
//! Coordinates, ray parameters and lengths are real numbers. This library
//! never computes with them: it only orders them. It therefore holds each
//! one as an `i64` *key*, any integer encoding in which a smaller value has
//! a smaller key. Arithmetic on the values themselves is the caller's part,
//! handed in as closures where a decision needs it.

pub mod aabb;
pub mod bvh;
pub mod camera;
pub mod canvas;
pub mod hittable;
pub mod interval;
pub mod medium;
pub mod perlin;
pub mod plane;
pub mod ray;
pub mod sphere;
pub mod texture;
pub mod utils;
pub mod vec3;
