//! Planar convex hulls over pluggable geometric kernels.
//!
//! The algorithms never look inside a point: a kernel supplies the point type,
//! the scalar type and the geometric primitives. Two hull constructions are
//! offered: an exact one, driven by exact predicates, and an approximate one
//! for scalars with rounding.
pub mod algorithms;
pub mod common;
pub mod kernels;
pub mod primitives;
pub mod traits;
