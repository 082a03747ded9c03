//! A quadtree over point masses in the plane, the spatial index of an
//! n-body simulation. Coordinates are integers on a grid and masses are
//! integers, so every operation is exact.
pub mod body;
pub mod geometry;
pub mod node;
pub mod tree;
