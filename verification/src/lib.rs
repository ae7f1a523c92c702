//! HashLife: Conway's Game of Life on a hash-consed quadtree.
//!
//! The universe is an unbounded square grid represented by a quadtree whose
//! structurally equal subtrees are shared through a canonicalizing cache.
//! Evolution advances exactly one generation per step, using the classical
//! nine-region recursion with memoized per-node results.

pub mod cache;
pub mod count;
pub mod evolve;
pub mod laws;
pub mod render;
pub mod universe;
pub mod model;
pub mod node;

pub use cache::NodeCache;
pub use node::Node;
pub use node::NodeContent;
pub use node::UniverseError;
pub use universe::Universe;
