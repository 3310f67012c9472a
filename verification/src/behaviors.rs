use vstd::prelude::*;

use crate::NodeId;

verus! {

/// Describes the possible behaviors of the `Tree::remove_node` method.
pub enum RemoveBehavior {
    /// All children are dropped recursively: the entire sub-tree of the
    /// removed `Node` disappears from the tree, and handles that pointed into
    /// it are no longer valid.
    DropChildren,
    /// The children of the removed `Node` are re-attached to its parent, one
    /// level up.  If the removed `Node` has no parent, this behaves exactly
    /// like `OrphanChildren`.
    LiftChildren,
    /// The children of the removed `Node` have their parent references
    /// cleared.  They stay in the tree and can still be reached through their
    /// handles, but nothing points to them any more.
    OrphanChildren,
}

/// Describes the possible behaviors of the `Tree::move_node` method.
pub enum MoveBehavior<'a> {
    /// The `Node` becomes the new root, keeping its children.  An old root is
    /// attached as the last child of the moved `Node`.
    ToRoot,
    /// The `Node` is moved below the given parent, keeping its children.
    ToParent(&'a NodeId),
}

/// Describes the possible behaviors of the `Tree::insert` method.
pub enum InsertBehavior<'a> {
    /// Insert the new `Node` as the root.  An old root becomes the first
    /// child of the new `Node`.
    AsRoot,
    /// Insert the new `Node` as the last child of the named `Node`.
    UnderNode(&'a NodeId),
}

} // verus!
