//! The builder for a tree over nodes with ordered child lists.

use vstd::prelude::*;

use crate::node::Node;
use crate::tree::Tree;
use crate::vec_node::VecNode;
use crate::vec_node::VecTree;
use crate::NodeId;

verus! {

/// A `VecTree` builder that provides more control over how a `VecTree` is
/// created.
pub struct VecTreeBuilder<T> {
    pub root: Option<VecNode<T>>,
    pub node_capacity: usize,
    pub swap_capacity: usize,
}

impl<T> VecTreeBuilder<T> {
    /// Creates a new `VecTreeBuilder` with the default settings.
    pub fn new() -> (r: VecTreeBuilder<T>)
        ensures
            r.root is None,
            r.node_capacity == 0,
            r.swap_capacity == 0,
    {
        VecTreeBuilder { root: None, node_capacity: 0, swap_capacity: 0 }
    }

    /// Sets the root node of the `VecTreeBuilder`.
    pub fn with_root(self, root: VecNode<T>) -> (r: VecTreeBuilder<T>)
        ensures
            r.root == Some(root),
            r.node_capacity == self.node_capacity,
            r.swap_capacity == self.swap_capacity,
    {
        VecTreeBuilder { root: Some(root), ..self }
    }

    /// Sets the number of nodes the tree pre-allocates space for.
    pub fn with_node_capacity(self, node_capacity: usize) -> (r: VecTreeBuilder<T>)
        ensures
            r.root == self.root,
            r.node_capacity == node_capacity,
            r.swap_capacity == self.swap_capacity,
    {
        VecTreeBuilder { node_capacity, ..self }
    }

    /// Sets the number of vacated slots the tree pre-allocates space for.
    pub fn with_swap_capacity(self, swap_capacity: usize) -> (r: VecTreeBuilder<T>)
        ensures
            r.root == self.root,
            r.node_capacity == self.node_capacity,
            r.swap_capacity == swap_capacity,
    {
        VecTreeBuilder { swap_capacity, ..self }
    }

    /// Build a `VecTree` based upon the current settings in the builder.
    pub fn build(self) -> (r: VecTree<T>)
        requires
            self.root matches Some(node) ==> node.parent is None && node.children@.len() == 0,
        ensures
            r.wf(),
            r.core_tree.free_ids@.len() == 0,
            match self.root {
                Some(node) => {
                    &&& r.n() == 1
                    &&& r.node_at(0) == node
                    &&& r.core_tree.root == Some(r.mk_id(0))
                },
                None => r.n() == 0 && r.core_tree.root is None,
            },
    {
        let builder = crate::tree::TreeBuilder::new();
        let builder = match self.root {
            Some(node) => builder.with_root(node),
            None => builder,
        };
        builder.with_node_capacity(self.node_capacity).with_swap_capacity(
            self.swap_capacity,
        ).build()
    }
}

} // verus!
