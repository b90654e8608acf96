//! A verified core for a stochastic ray tracer.
//!
//! Geometry, materials and the bounding-volume hierarchy are computed in
//! fixed-point arithmetic (16 fractional bits held in `i128` words), so that
//! every routine has an exact mathematical contract.  Camera models, scene
//! generation and image encoding live outside this crate and talk to it
//! through plain fixed-point values.

pub mod fixed;
pub mod rng;
pub mod vec3;
pub mod ray;
pub mod aabb;
pub mod hitable;
pub mod sphere;
pub mod world;
pub mod material;

