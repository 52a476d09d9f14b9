//! Exact K-means clustering (Lloyd's algorithm) on 2-D points.
//!
//! Data points carry integer coordinates (fixed-point, at a scale the caller
//! picks); centroids are kept as exact rationals (coordinate sums over a
//! count), so assignment, update and the convergence test are all exact.

pub mod engine;
pub mod geometry;
pub mod laws;
pub mod model;
mod passes;
mod sampling;

pub use engine::{Config, Error, Init, KMeans};
pub use geometry::{Centroid, Dist2, Point};
