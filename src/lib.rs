//! A static octree over axis-aligned integer bounding volumes.
//!
//! The tree is built once from a fixed set of volumes. Every cell lives in one
//! arena owned by the tree and refers to its children by arena index, so the
//! whole tree is released in a single step when the `Octree` is dropped.
pub mod bounds;
pub mod geometry;
pub mod octree;
pub mod pool;

pub use geometry::{Aabb, Point3, Volume};
pub use octree::{Octree, OctreeCell};
