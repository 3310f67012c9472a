use vstd::prelude::*;

verus! {

/// The error type for operations that take a `NodeId`.
///
/// Every operation that accepts a handle validates it first and returns one of
/// these errors without modifying the tree when validation fails.
#[derive(Clone, Copy, Debug, PartialEq, Eq, Structural)]
pub enum NodeIdError {
    /// The handle was produced by a different tree instance.
    InvalidNodeIdForTree,
    /// The handle names a slot of this tree that is no longer occupied; the
    /// `Node` it once pointed to has been removed.
    NodeIdNoLongerValid,
}

} // verus!
