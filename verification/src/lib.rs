//! A small route-optimization engine: given a set of labeled 3D points,
//! compute a short open-path visiting order, exactly for small point sets
//! and by a multi-start nearest-neighbor heuristic for larger ones.
//!
//! Coordinates are plain integers in a unit of the caller's choice; all
//! distances are Euclidean lengths rounded down to that unit.

pub mod geometry;
pub mod label;
pub mod cloud;
pub mod solver;
pub mod walker;
pub mod routes;

pub use cloud::{Cloud, Place};
pub use geometry::Position;
pub use label::{parse_label, LabelError, LabelKey};
pub use routes::Strategy;
