//! Iso-contour extraction ("marching squares") over a grid of integer samples.
//!
//! A grid of samples and a threshold level go in; polylines in grid coordinate
//! space come out. Crossing points are exact rationals, so every contract here
//! speaks of exact values.

pub mod chains;
pub mod grid;
pub mod laws;
pub mod marching_squares;
