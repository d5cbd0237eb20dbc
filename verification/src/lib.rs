//! A library for generating virtual terrains with a simplified Landscape
//! Evolution Model (LEM): sites drain toward outlets through a flow network
//! that is re-derived from the current elevation field, closed depressions
//! are carved open so that every site reaches an outlet, and elevations are
//! iterated to a fixed point of the stream-power erosion law.
//!
//! All physical quantities are fixed-point integers so that routing,
//! accumulation and convergence are exact and deterministic.

pub mod drainage_basin;
pub mod generator;
pub mod graph;
pub mod parameters;
pub mod stream_tree;
pub mod terrain;
pub mod units;

pub use units::isqrt;
