//! The decision core of a Monte Carlo path tracer.
//!
//! A renderer of this kind does two sorts of work. It computes with vectors
//! and scalars, and it decides: which root of a quadratic counts as the hit,
//! which primitive is nearest, whether a path goes on, whether glass reflects
//! or refracts, in which order the pixels leave. This crate holds the second
//! sort. Scalars reach it as binary32 bit patterns, and it reads nothing of
//! them but their order.

pub mod hittable;
pub mod image;
pub mod integrator;
pub mod material;
pub mod scalar;
pub mod sphere;
pub mod util;
pub mod world;
