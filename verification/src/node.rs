use vstd::prelude::*;

use crate::NodeId;

verus! {

/// A container that wraps data in a given `Tree`.
///
/// A `Node` holds the caller's payload together with the structural links the
/// tree maintains for it: an optional parent handle and an ordered list of
/// child handles.  A `Node` gains links only once it has been inserted into a
/// `Tree`.
pub struct Node<T> {
    pub data: T,
    pub parent: Option<NodeId>,
    pub children: Vec<NodeId>,
}

impl<T> Node<T> {
    /// Creates a new `Node` with the data provided.
    pub fn new(data: T) -> (r: Node<T>)
        ensures
            r.data == data,
            r.parent is None,
            r.children@ == Seq::<NodeId>::empty(),
    {
        Node::new_with_child_capacity(data, 0)
    }

    /// Creates a new `Node` with the data provided, pre-allocating space for
    /// the given number of children.
    pub fn new_with_child_capacity(data: T, capacity: usize) -> (r: Node<T>)
        ensures
            r.data == data,
            r.parent is None,
            r.children@ == Seq::<NodeId>::empty(),
    {
        Node { data, parent: None, children: Vec::with_capacity(capacity) }
    }

    /// Returns an immutable reference to the data contained within the
    /// `Node`.
    pub fn data(&self) -> (r: &T)
        ensures
            *r == self.data,
    {
        &self.data
    }

    /// Returns a mutable reference to the data contained within the `Node`.
    pub fn data_mut(&mut self) -> (r: &mut T)
        ensures
            *r == old(self).data,
            final(self).data == *final(r),
            final(self).parent == old(self).parent,
            final(self).children == old(self).children,
    {
        &mut self.data
    }

    /// Replaces this `Node`'s data with the data provided and returns the old
    /// value.
    pub fn replace_data(&mut self, data: T) -> (r: T)
        ensures
            r == old(self).data,
            final(self).data == data,
            final(self).parent == old(self).parent,
            final(self).children == old(self).children,
    {
        let mut data = data;
        core::mem::swap(&mut data, &mut self.data);
        data
    }

    /// Returns a `Some` value containing the `NodeId` of this `Node`'s parent
    /// if it exists; returns `None` if it does not.
    pub fn parent(&self) -> (r: Option<NodeId>)
        ensures
            r == self.parent,
    {
        self.parent
    }

    /// Returns an immutable reference to a `Vec` containing the `NodeId`s of
    /// this `Node`'s children.
    pub fn children(&self) -> (r: &Vec<NodeId>)
        ensures
            r == &self.children,
    {
        &self.children
    }

    /// Sets the parent link of this `Node`.
    pub fn set_parent(&mut self, parent: Option<NodeId>)
        ensures
            final(self).data == old(self).data,
            final(self).parent == parent,
            final(self).children == old(self).children,
    {
        self.parent = parent;
    }

    /// Appends a handle to the end of this `Node`'s child list.
    pub fn add_child(&mut self, child: NodeId)
        ensures
            final(self).data == old(self).data,
            final(self).parent == old(self).parent,
            final(self).children@ == old(self).children@.push(child),
    {
        self.children.push(child);
    }

    /// Returns a mutable reference to this `Node`'s child list.
    pub fn children_mut(&mut self) -> (r: &mut Vec<NodeId>)
        ensures
            *r == old(self).children,
            final(self).data == old(self).data,
            final(self).parent == old(self).parent,
            final(self).children == *final(r),
    {
        &mut self.children
    }

    /// Replaces the whole child list of this `Node`.
    pub fn set_children(&mut self, children: Vec<NodeId>)
        ensures
            final(self).data == old(self).data,
            final(self).parent == old(self).parent,
            final(self).children == children,
    {
        self.children = children;
    }

    /// Moves the child list out of this `Node`, leaving it with no children.
    pub fn take_children(&mut self) -> (r: Vec<NodeId>)
        ensures
            r == old(self).children,
            final(self).data == old(self).data,
            final(self).parent == old(self).parent,
            final(self).children@ == Seq::<NodeId>::empty(),
    {
        let mut empty: Vec<NodeId> = Vec::new();
        core::mem::swap(&mut self.children, &mut empty);
        empty
    }

    /// Replaces the first occurrence of `old_id` in the child list with
    /// `new_id`, keeping its position.
    pub fn replace_child(&mut self, old_id: NodeId, new_id: NodeId)
        requires
            old(self).children@.contains(old_id),
            old(self).children@.no_duplicates(),
        ensures
            final(self).data == old(self).data,
            final(self).parent == old(self).parent,
            final(self).children@.len() == old(self).children@.len(),
            forall|j: int|
                0 <= j < old(self).children@.len() ==> final(self).children@[j] == (
                if old(self).children@[j] == old_id {
                    new_id
                } else {
                    old(self).children@[j]
                }),
    {
        match position_of(&self.children, old_id) {
            Some(index) => {
                self.children.push(new_id);
                let _ = self.children.swap_remove(index);
                proof {
                    assert(self.children@ =~= old(self).children@.update(index as int, new_id));
                }
            },
            None => {
                proof {
                    assert(false);
                }
            },
        }
    }

    /// Exchanges the places of `a` and `b` in the child list.
    pub(crate) fn exchange_children(&mut self, a: NodeId, b: NodeId)
        requires
            old(self).children@.contains(a),
            old(self).children@.contains(b),
            old(self).children@.no_duplicates(),
        ensures
            final(self).data == old(self).data,
            final(self).parent == old(self).parent,
            final(self).children@.len() == old(self).children@.len(),
            forall|k: int|
                0 <= k < old(self).children@.len() ==> final(self).children@[k] == (
                if old(self).children@[k] == a {
                    b
                } else if old(self).children@[k] == b {
                    a
                } else {
                    old(self).children@[k]
                }),
    {
        let ghost orig = self.children@;
        let ia = match position_of(&self.children, a) {
            Some(k) => k,
            None => vstd::pervasive::unreached(),
        };
        let ib = match position_of(&self.children, b) {
            Some(k) => k,
            None => vstd::pervasive::unreached(),
        };
        let ea = self.children[ia];
        let eb = self.children[ib];
        let slot_a = &mut self.children[ia];
        *slot_a = eb;
        let slot_b = &mut self.children[ib];
        *slot_b = ea;
        proof {
            if a == b {
                assert(self.children@ =~= orig.update(ia as int, b).update(ib as int, a));
                assert forall|k: int| 0 <= k < orig.len() implies self.children@[k] == (
                if orig[k] == a {
                    b
                } else if orig[k] == b {
                    a
                } else {
                    orig[k]
                }) by {}
            } else {
                assert(ia != ib);
                assert forall|k: int| 0 <= k < orig.len() implies self.children@[k] == (
                if orig[k] == a {
                    b
                } else if orig[k] == b {
                    a
                } else {
                    orig[k]
                }) by {
                    if k != ia && k != ib {
                        assert(self.children@[k] == orig[k]);
                        assert(orig[k] != a && orig[k] != b);
                    }
                }
            }
        }
    }

    /// Removes the first occurrence of `id` from the child list, if present;
    /// the later children shift down by one place.
    pub fn remove_child(&mut self, id: NodeId)
        ensures
            final(self).data == old(self).data,
            final(self).parent == old(self).parent,
            old(self).children@.contains(id) ==> exists|k: int|
                0 <= k < old(self).children@.len() && old(self).children@[k] == id && (forall|j: int|
                    0 <= j < k ==> old(self).children@[j] != id) && final(self).children@ == old(
                    self,
                ).children@.remove(k),
            !old(self).children@.contains(id) ==> final(self).children == old(self).children,
    {
        match position_of(&self.children, id) {
            Some(index) => {
                let _ = self.children.remove(index);
                proof {
                    let k = index as int;
                    assert(0 <= k < old(self).children@.len() && old(self).children@[k] == id && (
                    forall|j: int| 0 <= j < k ==> old(self).children@[j] != id) && self.children@
                        == old(self).children@.remove(k));
                }
            },
            None => {
            },
        }
    }
}

/// Returns the position of the first occurrence of `id` in `children`, if
/// there is one.
pub(crate) fn position_of(children: &Vec<NodeId>, id: NodeId) -> (r: Option<usize>)
    ensures
        r matches Some(k) ==> 0 <= k < children@.len() && children@[k as int] == id && (forall|
            j: int,
        |
            0 <= j < k ==> children@[j] != id),
        (r is None) ==> !children@.contains(id),
{
    let mut index: usize = 0;
    while index < children.len()
        invariant
            0 <= index <= children@.len(),
            forall|j: int| 0 <= j < index ==> children@[j] != id,
        decreases children@.len() - index,
    {
        if children[index] == id {
            return Some(index);
        }
        index += 1;
    }
    None
}

} // verus!
