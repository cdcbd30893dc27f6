//! A point-driven quadrant tree over the plane, with the single-precision
//! arithmetic that its geometry needs held to the letter of the binary
//! format.
//!
//! * `single` holds the numbers: bit patterns, what they stand for, and the
//!   order, sum, difference, half and quarter of the format.
//! * `octree` holds the tree, its insertion and the order in which its nodes
//!   are drawn.
//! * `geometry` and `route` relate the tree to the regions of the plane that
//!   its nodes cover.
//! * `raster` paints rectangles into a frame of pixels.

pub mod geometry;
pub mod octree;
pub mod raster;
pub mod route;
pub mod single;

pub use octree::Octree;
