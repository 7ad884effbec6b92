//! Rebuilds a directory hierarchy, as a tree of path entries, from the flat and
//! unordered list of entries that a directory walk hands over.
//!
//! - [`item`]: the entries, and the errors of a build.
//! - [`path`]: paths as text, with their segments, depth and canonical key.
//! - [`tree`]: the arena tree of `id_tree` that holds the entries, and what is relied
//!   on of it.
//! - [`shape`]: what it means for a tree to mirror a directory.
//! - [`builder`]: the build itself.
//! - [`order`]: the pre-order walk of a built tree follows the hierarchy.
//! - [`repeat`]: the order of discovery does not show in the tree.
//! - [`bag`]: sequences that are rearrangements of each other.

pub mod bag;
pub mod builder;
pub mod item;
pub mod order;
pub mod path;
pub mod repeat;
pub mod shape;
pub mod tree;

pub use crate::builder::{build_tree, create_file_tree, single_file_tree};
pub use crate::item::{BuildError, Item};
