//! A handle-based, mutable n-ary tree.
//!
//! Nodes live in a contiguous generational arena and are addressed by
//! lightweight, validity-checked handles rather than native references.
//! A stale or foreign handle is always reported as absent, never resolved
//! to the wrong node.

use vstd::prelude::*;

pub mod behaviors;
pub mod core_tree;
pub mod node;
pub mod slab;
pub mod tree;

pub use behaviors::RemoveBehavior;
pub use node::Node;
pub use node::Relatives;
pub use slab::Index;
pub use slab::Slab;
pub use tree::NodeRef;
pub use tree::Tree;
pub use tree::TreeBuilder;

verus! {

/// Handle to one node of one tree: the issuing tree's identifier plus the
/// arena handle of the node's slot.  It resolves only against the tree
/// instance that issued it, and only while the slot's generation still
/// matches.
#[derive(Clone, Copy, Debug, PartialEq, Eq, Structural, PartialOrd, Ord, Hash)]
pub struct NodeId {
    pub tree_id: u64,
    pub index: Index,
}

} // verus!
