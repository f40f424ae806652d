//! Scene-query core: a hierarchical spatial index over collider handles,
//! incrementally refreshed as objects move, answering ray casts, shape casts,
//! point projections and region/shape intersection tests.
//!
//! All geometry is exact: coordinates are fixed-point integers and distances
//! are measured in the Chebyshev (maximum) metric, so every contract is an
//! exact statement about integer arithmetic.

pub mod index;
pub mod math;
pub mod dispatcher;
pub mod model;
pub mod pipeline;
pub mod visitors;
pub mod shape;
