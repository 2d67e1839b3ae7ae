//! A two-dimensional point quadtree over fixed-point coordinates.
//!
//! The plane is the square `[-UNIT, UNIT) x [-UNIT, UNIT)`, where the
//! integer constant [`UNIT`](geom::UNIT) stands for a coordinate value of
//! one. Each node of the tree is either a leaf holding a bounded list of
//! points or a branch holding the four quadrants of its region; inserting
//! into a full leaf subdivides it. All regions are half-open, so every
//! point of the plane belongs to exactly one leaf.

pub mod geom;
pub mod tree;

pub use geom::{Point, Rectangle, UNIT};
pub use tree::{QuadTree, QuadTreeType, Quadrants};
