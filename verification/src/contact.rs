//! Decisions of finite convex contact queries.
//!
//! Points, planes and axes are measured in double precision elsewhere; which
//! axis separates two solids, which points a manifold keeps and when a sweep
//! ends is decided here, from the measures alone.

pub mod clip;
pub mod interval;
pub mod manifold;
pub mod pair;
pub mod sweep;
