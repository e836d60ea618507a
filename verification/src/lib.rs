//! A binary space partition (BSP) tree over a 2D integer rectangle.
//!
//! The tree subdivides a rectangular region into progressively smaller
//! rectangles, as used by procedural map generators. Nodes live in a single
//! owning arena held by the tree; child, parent, and traversal links are
//! indices into that arena, so dropping the tree frees every node exactly
//! once and a stale index can never dangle.

pub mod bsp;
pub mod rng;
