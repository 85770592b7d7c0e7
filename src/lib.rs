//! Blue-noise point sets over a rectangle by Bridson's fast Poisson disk
//! sampling, on integer coordinates.

pub mod geometry;
pub mod grid;
pub mod random;
pub mod sampler;
