//! Verified core of a force-directed 3D graph layout engine.
//!
//! The library builds an indexed graph model from plain node and edge
//! declarations, derives display colors and labels from node attributes,
//! and relaxes node positions with a dimension-annealed force schedule,
//! emitting one frame of positions, colors and arrows per outer iteration.
//! All coordinates are fixed-point integers (see `fixed`).

pub mod fixed;
pub mod model;
pub mod attrs;
pub mod rng;
pub mod solver;
