use vstd::prelude::*;

use snowflake::ProcessUniqueId;

use crate::error::NodeIdError;
use crate::ids_equal;
use crate::new_process_unique_id;
use crate::NodeId;

verus! {

/// The core storage engine of a tree: a dense arena of optional slots, a
/// free-slot list consulted first on insertion (last vacated, first re-used),
/// and the identity that tags every handle this arena issues.
///
/// Hierarchical decisions are not made at this level.  This structure only
/// knows how to store, hand out and validate slots, and keeps its internal
/// bookkeeping (`free_ids` against `nodes`) in sync.
pub struct CoreTree<N> {
    pub id: ProcessUniqueId,
    pub root: Option<NodeId>,
    pub nodes: Vec<Option<N>>,
    pub free_ids: Vec<NodeId>,
}

impl<N> CoreTree<N> {
    /// The number of slots the arena currently has, occupied or not.
    pub open spec fn n(self) -> int {
        self.nodes@.len() as int
    }

    /// Slot `i` exists and holds an alive node.
    pub open spec fn occupied(self, i: int) -> bool {
        0 <= i < self.n() && self.nodes@[i] is Some
    }

    /// The node stored in slot `i`.
    pub open spec fn node_at(self, i: int) -> N {
        self.nodes@[i].unwrap()
    }

    /// The handle this arena issues for slot `i`.
    pub open spec fn mk_id(self, i: int) -> NodeId {
        NodeId { tree_id: self.id, index: i as usize }
    }

    /// The handle carries this arena's identity and names an occupied slot.
    pub open spec fn valid(self, id: NodeId) -> bool {
        id.tree_id == self.id && self.occupied(id.index as int)
    }

    /// A handle that carries this arena's identity stays within the storage.
    /// The storage never shrinks, so this holds of every handle the arena has
    /// issued; a handle with a matching identity but an out-of-range index
    /// could only arise from a defect, which validation treats as fatal.
    pub open spec fn in_bounds(self, id: NodeId) -> bool {
        id.tree_id == self.id ==> (id.index as int) < self.n()
    }

    /// The free list records exactly the vacated slots: every entry carries
    /// this arena's identity and names a distinct empty slot, and every empty
    /// slot has an entry.
    pub open spec fn wf_free(self) -> bool {
        &&& forall|k: int|
            0 <= k < self.free_ids@.len() ==> (#[trigger] self.free_ids@[k]).tree_id == self.id
        &&& forall|k: int|
            0 <= k < self.free_ids@.len() ==> ((#[trigger] self.free_ids@[k]).index as int)
                < self.n() && self.nodes@[self.free_ids@[k].index as int] is None
        &&& forall|k1: int, k2: int|
            0 <= k1 < k2 < self.free_ids@.len() ==> (#[trigger] self.free_ids@[k1]).index != (
            #[trigger] self.free_ids@[k2]).index
        &&& forall|i: int|
            0 <= i < self.n() && self.nodes@[i] is None ==> exists|k: int|
                0 <= k < self.free_ids@.len() && (#[trigger] self.free_ids@[k].index) as int == i
    }

    /// Creates a new `CoreTree` with the given optional root node and the
    /// given pre-allocated capacities.
    pub fn new(root: Option<N>, node_capacity: usize, swap_capacity: usize) -> (r: CoreTree<N>)
        ensures
            r.wf_free(),
            r.free_ids@.len() == 0,
            match root {
                Some(node) => r.nodes@ == seq![Some(node)] && r.root == Some(r.mk_id(0)),
                None => r.nodes@ == Seq::<Option<N>>::empty() && r.root is None,
            },
    {
        let tree_id = new_process_unique_id();
        let mut tree = CoreTree {
            id: tree_id,
            root: None,
            nodes: Vec::with_capacity(node_capacity),
            free_ids: Vec::with_capacity(swap_capacity),
        };
        match root {
            Some(node) => {
                tree.nodes.push(Some(node));
                tree.root = Some(NodeId { tree_id, index: 0 });
                proof {
                    assert(tree.nodes@ =~= seq![Some(node)]);
                }
            },
            None => {
            },
        }
        tree
    }

    /// Inserts a new node and returns a handle that points to it.  A vacated
    /// slot is re-used if one exists (the most recently vacated first);
    /// otherwise the node is appended to the end of the storage.
    pub fn insert(&mut self, new_node: N) -> (id: NodeId)
        requires
            old(self).wf_free(),
        ensures
            final(self).wf_free(),
            final(self).id == old(self).id,
            final(self).root == old(self).root,
            id.tree_id == old(self).id,
            final(self).valid(id),
            old(self).free_ids@.len() > 0 ==> {
                &&& id == old(self).free_ids@.last()
                &&& final(self).free_ids@ == old(self).free_ids@.drop_last()
                &&& final(self).nodes@ == old(self).nodes@.update(
                    id.index as int,
                    Some(new_node),
                )
                &&& old(self).nodes@[id.index as int] is None
            },
            old(self).free_ids@.len() == 0 ==> {
                &&& id == old(self).mk_id(old(self).n())
                &&& id.index as int == old(self).n()
                &&& final(self).free_ids@ == old(self).free_ids@
                &&& final(self).nodes@ == old(self).nodes@.push(Some(new_node))
            },
    {
        match self.free_ids.pop() {
            Some(new_node_id) => {
                self.nodes.push(Some(new_node));
                let _ = self.nodes.swap_remove(new_node_id.index);
                proof {
                    assert(self.nodes@ =~= old(self).nodes@.update(
                        new_node_id.index as int,
                        Some(new_node),
                    ));
                    let fr = old(self).free_ids@;
                    assert forall|i: int|
                        0 <= i < self.n() && self.nodes@[i] is None implies exists|k: int|
                        0 <= k < self.free_ids@.len() && (#[trigger] self.free_ids@[k].index)
                            as int == i by {
                        let k0 = choose|k0: int|
                            0 <= k0 < fr.len() && (#[trigger] fr[k0].index) as int == i;
                        assert(k0 < fr.len() - 1);
                        assert(self.free_ids@[k0].index as int == i);
                    }
                }
                new_node_id
            },
            None => {
                let new_node_index = self.nodes.len();
                self.nodes.push(Some(new_node));
                NodeId { tree_id: self.id, index: new_node_index }
            },
        }
    }

    /// Removes the node a handle points to and returns it, recording the
    /// vacated slot for later re-use.  If the handle was the root, the root
    /// becomes absent.
    pub fn remove(&mut self, node_id: NodeId) -> (r: N)
        requires
            old(self).wf_free(),
            old(self).valid(node_id),
        ensures
            final(self).wf_free(),
            final(self).id == old(self).id,
            r == old(self).node_at(node_id.index as int),
            final(self).nodes@ == old(self).nodes@.update(node_id.index as int, None),
            final(self).free_ids@ == old(self).free_ids@.push(node_id),
            final(self).root == if old(self).root == Some(node_id) {
                None::<NodeId>
            } else {
                old(self).root
            },
    {
        let clear_root = match &self.root {
            Some(root_id) => *root_id == node_id,
            None => false,
        };
        if clear_root {
            self.root = None;
        }
        self.nodes.push(None);
        let node_opt = self.nodes.swap_remove(node_id.index);
        self.free_ids.push(node_id);
        proof {
            assert(self.nodes@ =~= old(self).nodes@.update(node_id.index as int, None));
            let fr = self.free_ids@;
            let n0 = old(self).free_ids@.len() as int;
            assert forall|k: int| 0 <= k < n0 implies (#[trigger] fr[k]).index
                != node_id.index by {
                assert(old(self).nodes@[old(self).free_ids@[k].index as int] is None);
            }
            assert forall|i: int|
                0 <= i < self.n() && self.nodes@[i] is None implies exists|k: int|
                0 <= k < fr.len() && (#[trigger] fr[k].index) as int == i by {
                if i == node_id.index as int {
                    assert(fr[n0].index as int == i);
                } else {
                    let k0 = choose|k0: int|
                        0 <= k0 < n0 && (#[trigger] old(self).free_ids@[k0].index) as int == i;
                    assert(fr[k0].index as int == i);
                }
            }
        }
        match node_opt {
            Some(node) => node,
            None => vstd::pervasive::unreached(),
        }
    }

    /// Inserts the given node and records it as this arena's root.
    pub fn set_root(&mut self, new_root: N) -> (id: NodeId)
        requires
            old(self).wf_free(),
        ensures
            final(self).wf_free(),
            final(self).id == old(self).id,
            final(self).root == Some(id),
            id.tree_id == old(self).id,
            final(self).valid(id),
            old(self).free_ids@.len() > 0 ==> {
                &&& id == old(self).free_ids@.last()
                &&& final(self).free_ids@ == old(self).free_ids@.drop_last()
                &&& final(self).nodes@ == old(self).nodes@.update(
                    id.index as int,
                    Some(new_root),
                )
                &&& old(self).nodes@[id.index as int] is None
            },
            old(self).free_ids@.len() == 0 ==> {
                &&& id == old(self).mk_id(old(self).n())
                &&& id.index as int == old(self).n()
                &&& final(self).free_ids@ == old(self).free_ids@
                &&& final(self).nodes@ == old(self).nodes@.push(Some(new_root))
            },
    {
        let new_root_id = self.insert(new_root);
        self.root = Some(new_root_id);
        new_root_id
    }

    /// Returns a reference to the handle of this arena's root, if it has one.
    pub fn root(&self) -> (r: Option<&NodeId>)
        ensures
            (r is Some) == (self.root is Some),
            r matches Some(id) ==> self.root == Some(*id),
    {
        self.root.as_ref()
    }

    /// Returns a reference to the node a handle points to, or the error that
    /// describes why the handle is not valid for this arena.
    pub fn get(&self, node_id: &NodeId) -> (r: Result<&N, NodeIdError>)
        requires
            self.in_bounds(*node_id),
        ensures
            self.valid(*node_id) ==> (r matches Ok(node) && *node == self.node_at(
                node_id.index as int,
            )),
            node_id.tree_id != self.id ==> r == Err::<&N, _>(NodeIdError::InvalidNodeIdForTree),
            node_id.tree_id == self.id && !self.valid(*node_id) ==> r == Err::<&N, _>(
                NodeIdError::NodeIdNoLongerValid,
            ),
    {
        match self.validate_node_id(node_id) {
            Ok(()) => Ok(self.get_unsafe(node_id)),
            Err(e) => Err(e),
        }
    }

    /// Returns a mutable reference to the node a handle points to, or the
    /// error that describes why the handle is not valid for this arena.
    pub fn get_mut(&mut self, node_id: &NodeId) -> (r: Result<&mut N, NodeIdError>)
        requires
            old(self).in_bounds(*node_id),
        ensures
            old(self).valid(*node_id) ==> (r matches Ok(node) && *node == old(self).node_at(
                node_id.index as int,
            ) && final(self).nodes@ == old(self).nodes@.update(
                node_id.index as int,
                Some(*final(node)),
            )),
            !old(self).valid(*node_id) ==> *final(self) == *old(self),
            node_id.tree_id != old(self).id ==> (r matches Err(e) && e
                == NodeIdError::InvalidNodeIdForTree),
            node_id.tree_id == old(self).id && !old(self).valid(*node_id) ==> (r matches Err(e)
                && e == NodeIdError::NodeIdNoLongerValid),
            final(self).id == old(self).id,
            final(self).root == old(self).root,
            final(self).free_ids == old(self).free_ids,
            final(self).nodes@.len() == old(self).nodes@.len(),
    {
        match self.validate_node_id(node_id) {
            Ok(()) => Ok(self.get_mut_unsafe(node_id)),
            Err(e) => Err(e),
        }
    }

    /// Returns a reference to the node a handle points to.  The handle must
    /// already have been validated.
    pub fn get_unsafe(&self, node_id: &NodeId) -> (r: &N)
        requires
            self.valid(*node_id),
        ensures
            *r == self.node_at(node_id.index as int),
    {
        match &self.nodes[node_id.index] {
            Some(node) => node,
            None => vstd::pervasive::unreached(),
        }
    }

    /// Returns a mutable reference to the node a handle points to.  The
    /// handle must already have been validated.
    pub fn get_mut_unsafe(&mut self, node_id: &NodeId) -> (r: &mut N)
        requires
            old(self).valid(*node_id),
        ensures
            *r == old(self).node_at(node_id.index as int),
            final(self).nodes@ == old(self).nodes@.update(
                node_id.index as int,
                Some(*final(r)),
            ),
            final(self).id == old(self).id,
            final(self).root == old(self).root,
            final(self).free_ids == old(self).free_ids,
    {
        let slot = &mut self.nodes[node_id.index];
        match slot {
            Some(node) => node,
            None => vstd::pervasive::unreached(),
        }
    }

    /// Builds the handle this arena uses for the given slot index.
    pub fn new_node_id(&self, node_index: usize) -> (r: NodeId)
        ensures
            r == (NodeId { tree_id: self.id, index: node_index }),
    {
        NodeId { tree_id: self.id, index: node_index }
    }

    /// Checks whether a handle is valid for this arena, pairing the answer
    /// with the error that a failed validation reports.
    pub fn is_valid_node_id(&self, node_id: &NodeId) -> (r: (bool, Option<NodeIdError>))
        requires
            self.in_bounds(*node_id),
        ensures
            r.0 == self.valid(*node_id),
            self.valid(*node_id) ==> (r.1 is None),
            node_id.tree_id != self.id ==> r.1 == Some(NodeIdError::InvalidNodeIdForTree),
            node_id.tree_id == self.id && !self.valid(*node_id) ==> r.1 == Some(
                NodeIdError::NodeIdNoLongerValid,
            ),
    {
        match self.validate_node_id(node_id) {
            Ok(()) => (true, None),
            Err(e) => (false, Some(e)),
        }
    }

    /// Checks whether a handle is valid for this arena: its identity must be
    /// this arena's, and the slot it names must still be occupied.  Nothing
    /// should make it past this function: if there is a way for a handle to
    /// be invalid, it is caught here.
    pub fn validate_node_id(&self, node_id: &NodeId) -> (r: Result<(), NodeIdError>)
        requires
            self.in_bounds(*node_id),
        ensures
            self.valid(*node_id) ==> r is Ok,
            node_id.tree_id != self.id ==> r == Err::<(), _>(NodeIdError::InvalidNodeIdForTree),
            node_id.tree_id == self.id && !self.valid(*node_id) ==> r == Err::<(), _>(
                NodeIdError::NodeIdNoLongerValid,
            ),
    {
        if !ids_equal(&node_id.tree_id, &self.id) {
            return Err(NodeIdError::InvalidNodeIdForTree);
        }
        if self.nodes[node_id.index].is_none() {
            return Err(NodeIdError::NodeIdNoLongerValid);
        }
        Ok(())
    }
}

} // verus!
