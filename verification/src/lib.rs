//! Stroking a polyline into a filled ribbon.
//!
//! The library turns an ordered polyline, given in normalized coordinates,
//! together with a bounding rectangle and a stroke width, into a closed
//! outline polygon in pixel space. All geometry is carried out exactly on
//! scaled integers: directions are fixed-point unit vectors obtained with an
//! integer square root, so every result is pinned down by the contracts.

pub mod fixed;
pub mod geom;
pub mod laws;
pub mod outline;
