//! The ordered-child-list node representation and its builder.
//!
//! `VecNode` is the node shape that stores its children as an ordered list
//! of handles; it is the representation the `Tree` engine works on.

use vstd::prelude::*;

use crate::node::Node;
use crate::tree::Tree;
use crate::NodeId;

verus! {

/// A container that wraps data in a given `Tree`, with an ordered list of
/// child handles.
pub type VecNode<T> = Node<T>;

/// A tree over nodes with ordered child lists.
pub type VecTree<T> = Tree<T>;

/// A `VecNode` builder that provides more control over how a node is
/// created.
pub struct VecNodeBuilder<T> {
    pub data: T,
    pub child_capacity: usize,
}

impl<T> VecNodeBuilder<T> {
    /// Creates a new `VecNodeBuilder` with the required data.
    pub fn new(data: T) -> (r: VecNodeBuilder<T>)
        ensures
            r.data == data,
            r.child_capacity == 0,
    {
        VecNodeBuilder { data, child_capacity: 0 }
    }

    /// Sets the number of children the node pre-allocates space for.
    pub fn with_child_capacity(self, child_capacity: usize) -> (r: VecNodeBuilder<T>)
        ensures
            r.data == self.data,
            r.child_capacity == child_capacity,
    {
        VecNodeBuilder { child_capacity, ..self }
    }

    /// Build a node based upon the current settings in the builder.
    pub fn build(self) -> (r: VecNode<T>)
        ensures
            r.data == self.data,
            r.parent is None,
            r.children@ == Seq::<NodeId>::empty(),
    {
        Node::new_with_child_capacity(self.data, self.child_capacity)
    }
}

} // verus!
