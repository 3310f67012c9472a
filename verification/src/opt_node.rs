//! The first/last-child and sibling-link node representation.
//!
//! An `OptNode` references its surroundings through optional handles only:
//! its parent, its previous and next sibling, and its first and last child.
//! It is the node shape an `OptTree` works on.

use vstd::prelude::*;

use crate::NodeId;

verus! {

/// A node that holds optional handles to all nearby nodes.
pub struct OptNode<T> {
    pub data: T,
    pub parent: Option<NodeId>,
    pub prev_sibling: Option<NodeId>,
    pub next_sibling: Option<NodeId>,
    pub first_child: Option<NodeId>,
    pub last_child: Option<NodeId>,
}

impl<T> OptNode<T> {
    /// Creates a new `OptNode` with the data provided and no links.
    pub fn new(data: T) -> (r: OptNode<T>)
        ensures
            r.data == data,
            r.parent is None,
            r.prev_sibling is None,
            r.next_sibling is None,
            r.first_child is None,
            r.last_child is None,
    {
        OptNode {
            data,
            parent: None,
            prev_sibling: None,
            next_sibling: None,
            first_child: None,
            last_child: None,
        }
    }

    /// Returns an immutable reference to the data contained within the node.
    pub fn data(&self) -> (r: &T)
        ensures
            *r == self.data,
    {
        &self.data
    }

    /// Returns a mutable reference to the data contained within the node.
    pub fn data_mut(&mut self) -> (r: &mut T)
        ensures
            *r == old(self).data,
            final(self).data == *final(r),
            final(self).parent == old(self).parent,
            final(self).prev_sibling == old(self).prev_sibling,
            final(self).next_sibling == old(self).next_sibling,
            final(self).first_child == old(self).first_child,
            final(self).last_child == old(self).last_child,
    {
        &mut self.data
    }

    /// Replaces this node's data with the data provided and returns the old
    /// value.
    pub fn replace_data(&mut self, data: T) -> (r: T)
        ensures
            r == old(self).data,
            final(self).data == data,
            final(self).parent == old(self).parent,
            final(self).prev_sibling == old(self).prev_sibling,
            final(self).next_sibling == old(self).next_sibling,
            final(self).first_child == old(self).first_child,
            final(self).last_child == old(self).last_child,
    {
        let mut data = data;
        core::mem::swap(&mut data, &mut self.data);
        data
    }

    /// The handle of this node's parent, if it has one.
    pub fn parent(&self) -> (r: Option<NodeId>)
        ensures
            r == self.parent,
    {
        self.parent
    }

    /// The handle of this node's previous sibling, if it has one.
    pub fn prev_sibling(&self) -> (r: Option<NodeId>)
        ensures
            r == self.prev_sibling,
    {
        self.prev_sibling
    }

    /// The handle of this node's next sibling, if it has one.
    pub fn next_sibling(&self) -> (r: Option<NodeId>)
        ensures
            r == self.next_sibling,
    {
        self.next_sibling
    }

    /// The handle of this node's first child, if it has one.
    pub fn first_child(&self) -> (r: Option<NodeId>)
        ensures
            r == self.first_child,
    {
        self.first_child
    }

    /// The handle of this node's last child, if it has one.
    pub fn last_child(&self) -> (r: Option<NodeId>)
        ensures
            r == self.last_child,
    {
        self.last_child
    }

    /// Sets the parent link of this node.
    pub fn set_parent(&mut self, parent: Option<NodeId>)
        ensures
            *final(self) == (OptNode { parent, ..*old(self) }),
    {
        self.parent = parent;
    }

    /// Sets the previous-sibling link of this node.
    pub fn set_prev_sibling(&mut self, prev_sibling: Option<NodeId>)
        ensures
            *final(self) == (OptNode { prev_sibling, ..*old(self) }),
    {
        self.prev_sibling = prev_sibling;
    }

    /// Sets the next-sibling link of this node.
    pub fn set_next_sibling(&mut self, next_sibling: Option<NodeId>)
        ensures
            *final(self) == (OptNode { next_sibling, ..*old(self) }),
    {
        self.next_sibling = next_sibling;
    }

    /// Sets the first-child link of this node.
    pub fn set_first_child(&mut self, first_child: Option<NodeId>)
        ensures
            *final(self) == (OptNode { first_child, ..*old(self) }),
    {
        self.first_child = first_child;
    }

    /// Sets the last-child link of this node.
    pub fn set_last_child(&mut self, last_child: Option<NodeId>)
        ensures
            *final(self) == (OptNode { last_child, ..*old(self) }),
    {
        self.last_child = last_child;
    }
}

} // verus!
