//! An adaptive quadtree engine over an axis-aligned planar region with
//! integer grid coordinates, together with a few small verified utilities.
//!
//! The quadtree supports point insertion, demand-driven subdivision
//! (refinement), a weak-balancing pass that enforces a 2:1 level bound
//! between face-adjacent leaves, and derived queries (face-neighbor
//! search, hanging-edge detection, dual-mesh extraction).

pub mod adder;
pub mod adjacency;
pub mod aggregator;
pub mod balance;
pub mod dual;
pub mod geometry;
pub mod grep;
pub mod post;
pub mod restaurant;
pub mod shoes;
pub mod tree;
pub mod voxel;
