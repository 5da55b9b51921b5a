//! Geometry and spatial-query core of a tile-based platformer: occupancy
//! grids, merging of occupied cells into rectangular colliders, overlap
//! sensors and depth-ordered pointer picking.

pub mod grid;
pub mod merge;
pub mod collider;
pub mod sensor;
pub mod picking;
pub mod edit;
pub mod progress;
pub mod control;
