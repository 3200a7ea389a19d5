//! Verified core of a progressive path tracer: bounding volumes, the
//! bounding-volume hierarchy and its closest-hit queries, and the pixel
//! scheduling and framebuffer bookkeeping of the parallel renderer.
//!
//! Geometry is floating point, which the library does not touch: every
//! coordinate and distance that the core compares is carried as an
//! order-preserving 64-bit key of the IEEE-754 value (see
//! `aabb::ordered_key`), and the intersection tests themselves are handed
//! in by the caller.
pub mod aabb;
pub mod bvh;
pub mod framebuffer;
pub mod schedule;
pub mod traverse;
