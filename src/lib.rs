//! Turns point-cloud elevation samples into a regular height grid, restricts or
//! annotates that grid with boolean masks built from vector geometry, and derives
//! the triangle topology of a closed printable solid from it.
//!
//! Planar coordinates and elevations are fixed-point integers in a unit chosen by
//! the caller (centimetres, say), so that every grid computation is exact.

pub mod errors;
pub mod utils;
pub mod utm_bounds;
pub mod utm_point;
pub mod height_map;
pub mod mask;
pub mod stl;
