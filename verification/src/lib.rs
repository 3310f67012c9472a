//! A library for creating and modifying tree structures.
//!
//! The `Tree` owns all of its `Node`s, and all relationships between `Node`s
//! are managed with lightweight `NodeId` handles.  Trees here are "just"
//! trees: no cycles, no arbitrary graphs, and no comparison-driven placement.

#![allow(unused_imports)]
use vstd::prelude::*;

mod behaviors;
mod builders;
mod core_tree;
mod error;
mod laws;
mod movement;
mod node;
mod opt_node;
mod opt_tree;
mod reach;
mod removal;
mod sorting;
mod swap;
mod traversal;
mod tree;
mod vec_node;

pub use behaviors::InsertBehavior;
pub use behaviors::MoveBehavior;
pub use behaviors::RemoveBehavior;
pub use builders::VecTreeBuilder;
pub use core_tree::CoreTree;
pub use error::NodeIdError;
pub use laws::moved_across;
pub use node::Node;
pub use opt_node::OptNode;
pub use opt_tree::OptTree;
pub use opt_tree::OptTreeBuilder;
pub use sorting::OrderedData;
pub use traversal::AncestorIds;
pub use traversal::Ancestors;
pub use traversal::Children;
pub use traversal::ChildrenIds;
pub use traversal::IdWalk;
pub use traversal::LevelOrderTraversal;
pub use traversal::PostOrderTraversal;
pub use traversal::PreOrderTraversal;
pub use tree::Tree;
pub use tree::TreeBuilder;
pub use vec_node::VecNode;
pub use vec_node::VecNodeBuilder;
pub use vec_node::VecTree;


verus! {

use snowflake::ProcessUniqueId;

/// An iterator-like walk over the children of a node in a `VecTree`.
pub type VecChildren = traversal::IdWalk;

/// An iterator-like walk over the child handles of a node in a `VecTree`.
pub type VecChildrenIds = traversal::IdWalk;

/// An iterator-like walk over a `VecTree` subtree in pre-order.
pub type VecPreOrderTraversal = traversal::IdWalk;

/// An iterator-like walk over a `VecTree` subtree in post-order.
pub type VecPostOrderTraversal = traversal::IdWalk;

/// An iterator-like walk over a `VecTree` subtree tier by tier.
pub type VecLevelOrderTraversal = traversal::IdWalk;

/// Declaration of `snowflake::ProcessUniqueId`, the per-process unique
/// identifier that tags each tree instance so that handles from one tree are
/// rejected by every other tree.  The type is opaque here: the library only
/// stores such identifiers and compares them for equality.
#[verifier::external_type_specification]
#[verifier::external_body]
pub struct ExProcessUniqueId(ProcessUniqueId);

/// Relies on `snowflake::ProcessUniqueId::new`: returns an identifier that no
/// other call in this process has returned or will return.  Nothing is stated
/// here, since the result depends on process-wide state; the validation rules
/// of `CoreTree` only compare identifiers for equality.  (The call aborts the
/// process in the astronomically unlikely case that the identifier space is
/// exhausted.)
#[verifier::external_body]
pub(crate) fn new_process_unique_id() -> ProcessUniqueId {
    ProcessUniqueId::new()
}

/// Relies on the `PartialEq` implementation that `snowflake` derives for
/// `ProcessUniqueId`: it compares the two plain integer fields of the
/// identifiers, so it returns `true` exactly when the values are equal.
#[verifier::external_body]
pub(crate) fn ids_equal(a: &ProcessUniqueId, b: &ProcessUniqueId) -> (r: bool)
    ensures
        r == (a == b),
{
    a == b
}

/// An identifier used to differentiate between `Node`s within a `Tree`.
///
/// `NodeId`s are produced by the `Tree` as `Node`s are inserted into it.  Each
/// `NodeId` is specific to the `Tree` that generated it: a handle from tree
/// `A` is never a valid way to access a `Node` of tree `B`.  After the `Node`
/// a handle names has been removed, the handle is detected as no longer valid.
#[derive(Clone, Copy, Debug, Hash)]
pub struct NodeId {
    pub tree_id: ProcessUniqueId,
    pub index: usize,
}

impl PartialEq for NodeId {
    fn eq(&self, other: &NodeId) -> (r: bool) {
        ids_equal(&self.tree_id, &other.tree_id) && self.index == other.index
    }
}

impl Eq for NodeId {

}

impl vstd::std_specs::cmp::PartialEqSpecImpl for NodeId {
    open spec fn obeys_eq_spec() -> bool {
        true
    }

    open spec fn eq_spec(&self, other: &NodeId) -> bool {
        self.tree_id == other.tree_id && self.index == other.index
    }
}

} // verus!
