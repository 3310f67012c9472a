//! A tree over sibling-linked nodes.
//!
//! An `OptTree` stores `OptNode`s in the same arena a `Tree` uses, but the
//! structural relationships are kept as first/last-child handles on the
//! parent and previous/next-sibling handles on the children.

use vstd::prelude::*;

use crate::behaviors::InsertBehavior;
use crate::core_tree::CoreTree;
use crate::error::NodeIdError;
use crate::opt_node::OptNode;
use crate::NodeId;

verus! {

/// An `OptTree` builder that provides more control over how an `OptTree` is
/// created.
pub struct OptTreeBuilder<T> {
    pub root: Option<OptNode<T>>,
    pub node_capacity: usize,
    pub swap_capacity: usize,
}

impl<T> OptTreeBuilder<T> {
    /// Creates a new `OptTreeBuilder` with the default settings.
    pub fn new() -> (r: OptTreeBuilder<T>)
        ensures
            r.root is None,
            r.node_capacity == 0,
            r.swap_capacity == 0,
    {
        OptTreeBuilder { root: None, node_capacity: 0, swap_capacity: 0 }
    }

    /// Sets the root node of the `OptTreeBuilder`.
    pub fn with_root(self, root: OptNode<T>) -> (r: OptTreeBuilder<T>)
        ensures
            r.root == Some(root),
            r.node_capacity == self.node_capacity,
            r.swap_capacity == self.swap_capacity,
    {
        OptTreeBuilder { root: Some(root), ..self }
    }

    /// Sets the number of nodes the tree pre-allocates space for.
    pub fn with_node_capacity(self, node_capacity: usize) -> (r: OptTreeBuilder<T>)
        ensures
            r.root == self.root,
            r.node_capacity == node_capacity,
            r.swap_capacity == self.swap_capacity,
    {
        OptTreeBuilder { node_capacity, ..self }
    }

    /// Sets the number of vacated slots the tree pre-allocates space for.
    pub fn with_swap_capacity(self, swap_capacity: usize) -> (r: OptTreeBuilder<T>)
        ensures
            r.root == self.root,
            r.node_capacity == self.node_capacity,
            r.swap_capacity == swap_capacity,
    {
        OptTreeBuilder { swap_capacity, ..self }
    }

    /// Build an `OptTree` based upon the current settings in the builder.
    pub fn build(self) -> (r: OptTree<T>)
        requires
            self.root matches Some(node) ==> node.parent is None && node.prev_sibling is None
                && node.next_sibling is None && node.first_child is None && node.last_child
                is None,
        ensures
            r.opt_wf(),
            r.core_tree.free_ids@.len() == 0,
            match self.root {
                Some(node) => r.core_tree.nodes@ == seq![Some(node)] && r.core_tree.root == Some(
                    r.core_tree.mk_id(0),
                ),
                None => r.core_tree.nodes@ == Seq::<Option<OptNode<T>>>::empty()
                    && r.core_tree.root is None,
            },
    {
        let tree = OptTree {
            core_tree: CoreTree::new(self.root, self.node_capacity, self.swap_capacity),
        };
        tree
    }
}

/// A tree of `OptNode`s: every structural relationship is kept in optional
/// handles on the nodes themselves.
pub struct OptTree<T> {
    pub core_tree: CoreTree<OptNode<T>>,
}

impl<T> OptTree<T> {
    /// An optional link either is absent or names an occupied slot of this
    /// tree.
    pub open spec fn link_ok(self, l: Option<NodeId>) -> bool {
        match l {
            Some(x) => self.core_tree.valid(x),
            None => true,
        }
    }

    /// The links of every alive node point at alive nodes, and a node has a
    /// first child exactly when it has a last child.
    pub open spec fn opt_wf(self) -> bool {
        &&& self.core_tree.wf_free()
        &&& self.link_ok(self.core_tree.root)
        &&& forall|i: int|
            #[trigger] self.core_tree.occupied(i) ==> {
                let n = self.core_tree.node_at(i);
                &&& self.link_ok(n.parent)
                &&& self.link_ok(n.prev_sibling)
                &&& self.link_ok(n.next_sibling)
                &&& self.link_ok(n.first_child)
                &&& self.link_ok(n.last_child)
                &&& ((n.first_child is Some) <==> (n.last_child is Some))
                &&& (match n.first_child {
                    Some(fc) => fc.index as int != i,
                    None => true,
                })
                &&& (match n.last_child {
                    Some(lc) => lc.index as int != i,
                    None => true,
                })
            }
    }

    /// Creates a new `OptTree` with default settings: no root node and no
    /// pre-allocated space.
    pub fn new() -> (r: OptTree<T>)
        ensures
            r.opt_wf(),
            r.core_tree.nodes@.len() == 0,
            r.core_tree.root is None,
            r.core_tree.free_ids@.len() == 0,
    {
        OptTreeBuilder::new().build()
    }

    /// Get an immutable reference to the node a handle points to, or the
    /// error saying why the handle is invalid.
    pub fn get(&self, node_id: &NodeId) -> (r: Result<&OptNode<T>, NodeIdError>)
        requires
            self.core_tree.in_bounds(*node_id),
        ensures
            self.core_tree.valid(*node_id) ==> (r matches Ok(node) && *node
                == self.core_tree.node_at(node_id.index as int)),
            node_id.tree_id != self.core_tree.id ==> r == Err::<&OptNode<T>, _>(
                NodeIdError::InvalidNodeIdForTree,
            ),
            node_id.tree_id == self.core_tree.id && !self.core_tree.valid(*node_id) ==> r
                == Err::<&OptNode<T>, _>(NodeIdError::NodeIdNoLongerValid),
    {
        self.core_tree.get(node_id)
    }

    /// Inserts a new node into the tree, as the root or under an existing
    /// node, as the `InsertBehavior` directs.  A new root takes an old root
    /// as its only child; a node inserted under a parent becomes its last
    /// child, linked behind the previous last child.  On an invalid handle
    /// nothing is changed.
    pub fn insert(&mut self, node: OptNode<T>, behavior: InsertBehavior<'_>) -> (r: Result<
        NodeId,
        NodeIdError,
    >)
        requires
            old(self).opt_wf(),
            node.parent is None,
            node.prev_sibling is None,
            node.next_sibling is None,
            node.first_child is None,
            node.last_child is None,
            behavior matches InsertBehavior::UnderNode(p) ==> old(self).core_tree.in_bounds(*p),
        ensures
            final(self).opt_wf(),
            behavior matches InsertBehavior::AsRoot ==> (r matches Ok(id) && {
                let t1 = *final(self);
                &&& t1.core_tree.valid(id)
                &&& t1.core_tree.root == Some(id)
                &&& t1.core_tree.node_at(id.index as int).data == node.data
                &&& t1.core_tree.node_at(id.index as int).parent is None
                &&& t1.core_tree.node_at(id.index as int).prev_sibling is None
                &&& t1.core_tree.node_at(id.index as int).next_sibling is None
                &&& match old(self).core_tree.root {
                    Some(oldr) => {
                        let t1n = t1.core_tree.node_at(oldr.index as int);
                        let t0n = old(self).core_tree.node_at(oldr.index as int);
                        &&& t1.core_tree.node_at(id.index as int).first_child == Some(oldr)
                        &&& t1.core_tree.node_at(id.index as int).last_child == Some(oldr)
                        &&& t1.core_tree.valid(oldr)
                        &&& t1n.parent == Some(id)
                        &&& t1n.data == t0n.data
                        &&& t1n.prev_sibling == t0n.prev_sibling
                        &&& t1n.next_sibling == t0n.next_sibling
                        &&& t1n.first_child == t0n.first_child
                        &&& t1n.last_child == t0n.last_child
                    },
                    None => {
                        &&& t1.core_tree.node_at(id.index as int).first_child is None
                        &&& t1.core_tree.node_at(id.index as int).last_child is None
                    },
                }
                &&& (forall|j: int|
                    old(self).core_tree.occupied(j) && j != id.index as int && (match old(
                        self,
                    ).core_tree.root {
                        Some(oldr) => j != oldr.index as int,
                        None => true,
                    }) ==> #[trigger] t1.core_tree.node_at(j) == old(self).core_tree.node_at(j))
            }),
            behavior matches InsertBehavior::UnderNode(p) ==> (old(self).core_tree.valid(*p)
                ==> (r matches Ok(id) && {
                let t1 = *final(self);
                &&& t1.core_tree.valid(id)
                &&& t1.core_tree.node_at(id.index as int).data == node.data
                &&& t1.core_tree.node_at(id.index as int).parent == Some(*p)
                &&& t1.core_tree.node_at(p.index as int).last_child == Some(id)
                &&& t1.core_tree.node_at(id.index as int).prev_sibling == (
                if old(self).core_tree.node_at(p.index as int).last_child is Some {
                    old(self).core_tree.node_at(p.index as int).last_child
                } else {
                    None
                })
                &&& t1.core_tree.node_at(p.index as int).first_child == (
                if old(self).core_tree.node_at(p.index as int).first_child is Some {
                    old(self).core_tree.node_at(p.index as int).first_child
                } else {
                    Some(id)
                })
                &&& t1.core_tree.root == old(self).core_tree.root
            })),
            behavior matches InsertBehavior::UnderNode(p) ==> (!old(self).core_tree.valid(*p)
                ==> *final(self) == *old(self)),
            behavior matches InsertBehavior::UnderNode(p) ==> (p.tree_id != old(self).core_tree.id ==> r == Err::<NodeId, _>(NodeIdError::InvalidNodeIdForTree)),
            behavior matches InsertBehavior::UnderNode(p) ==> (p.tree_id == old(self).core_tree.id && !old(self).core_tree.valid(*p) ==> r == Err::<NodeId, _>(
                NodeIdError::NodeIdNoLongerValid,
            )),
    {
        match behavior {
            InsertBehavior::AsRoot => Ok(self.set_root(node)),
            InsertBehavior::UnderNode(parent_id) => {
                match self.core_tree.validate_node_id(parent_id) {
                    Err(e) => Err(e),
                    Ok(()) => self.insert_under_node(node, parent_id),
                }
            },
        }
    }

    /// Sets the root of the tree; an old root becomes the only child of the
    /// new one.
    fn set_root(&mut self, new_root: OptNode<T>) -> (id: NodeId)
        requires
            old(self).opt_wf(),
            new_root.parent is None,
            new_root.prev_sibling is None,
            new_root.next_sibling is None,
            new_root.first_child is None,
            new_root.last_child is None,
        ensures
            final(self).opt_wf(),
            final(self).core_tree.valid(id),
            final(self).core_tree.root == Some(id),
            final(self).core_tree.node_at(id.index as int).data == new_root.data,
            final(self).core_tree.node_at(id.index as int).parent is None,
            final(self).core_tree.node_at(id.index as int).prev_sibling is None,
            final(self).core_tree.node_at(id.index as int).next_sibling is None,
            match old(self).core_tree.root {
                Some(oldr) => {
                    let t1n = final(self).core_tree.node_at(oldr.index as int);
                    let t0n = old(self).core_tree.node_at(oldr.index as int);
                    &&& final(self).core_tree.node_at(id.index as int).first_child == Some(oldr)
                    &&& final(self).core_tree.node_at(id.index as int).last_child == Some(oldr)
                    &&& final(self).core_tree.valid(oldr)
                    &&& t1n.parent == Some(id)
                    &&& t1n.data == t0n.data
                    &&& t1n.prev_sibling == t0n.prev_sibling
                    &&& t1n.next_sibling == t0n.next_sibling
                    &&& t1n.first_child == t0n.first_child
                    &&& t1n.last_child == t0n.last_child
                },
                None => {
                    &&& final(self).core_tree.node_at(id.index as int).first_child is None
                    &&& final(self).core_tree.node_at(id.index as int).last_child is None
                },
            },
            forall|j: int|
                old(self).core_tree.occupied(j) && j != id.index as int && (match old(
                    self,
                ).core_tree.root {
                    Some(oldr) => j != oldr.index as int,
                    None => true,
                }) ==> #[trigger] final(self).core_tree.node_at(j) == old(self).core_tree.node_at(
                    j,
                ),
    {
        let ghost t0 = *old(self);
        let current_root = match self.core_tree.root.as_ref() {
            Some(r) => Some(*r),
            None => None,
        };
        let new_root_id = self.core_tree.set_root(new_root);
        proof {
            assert forall|j: int|
                0 <= j < t0.core_tree.n() && j != new_root_id.index as int implies
                self.core_tree.nodes@[j] == t0.core_tree.nodes@[j] by {
                if t0.core_tree.free_ids@.len() > 0 {
                } else {
                }
            }
            assert forall|j: int|
                #[trigger] self.core_tree.occupied(j) implies (t0.core_tree.occupied(j) || j
                    == new_root_id.index as int) by {
                if j != new_root_id.index as int {
                    assert(self.core_tree.nodes@[j] == t0.core_tree.nodes@[j]);
                }
            }
            let t1 = *self;
            assert forall|i: int| #[trigger] t1.core_tree.occupied(i) implies {
                let n = t1.core_tree.node_at(i);
                &&& t1.link_ok(n.parent)
                &&& t1.link_ok(n.prev_sibling)
                &&& t1.link_ok(n.next_sibling)
                &&& t1.link_ok(n.first_child)
                &&& t1.link_ok(n.last_child)
                &&& ((n.first_child is Some) <==> (n.last_child is Some))
                &&& (match n.first_child {
                    Some(fc) => fc.index as int != i,
                    None => true,
                })
                &&& (match n.last_child {
                    Some(lc) => lc.index as int != i,
                    None => true,
                })
            } by {
                if i != new_root_id.index as int {
                    assert(t0.core_tree.occupied(i));
                    assert(t1.core_tree.node_at(i) == t0.core_tree.node_at(i));
                    Self::lemma_links_grow(t0, t1, i);
                }
            }
        }
        match current_root {
            Some(current_root_id) => {
                proof {
                    assert(t0.core_tree.valid(current_root_id));
                    assert(self.core_tree.occupied(current_root_id.index as int));
                    assert(current_root_id.index != new_root_id.index) by {
                        if current_root_id.index == new_root_id.index {
                            assert(t0.core_tree.occupied(current_root_id.index as int));
                        }
                    }
                }
                match self.core_tree.get_mut(&current_root_id) {
                    Ok(n) => n.set_parent(Some(new_root_id)),
                    Err(_) => proof {
                        assert(false);
                    },
                }
                match self.core_tree.get_mut(&new_root_id) {
                    Ok(n) => n.set_first_child(Some(current_root_id)),
                    Err(_) => proof {
                        assert(false);
                    },
                }
                match self.core_tree.get_mut(&new_root_id) {
                    Ok(n) => n.set_last_child(Some(current_root_id)),
                    Err(_) => proof {
                        assert(false);
                    },
                }
                proof {
                    let t1 = *self;
                    assert forall|j: int|
                        #[trigger] t1.core_tree.occupied(j) implies (t0.core_tree.occupied(j) || j
                            == new_root_id.index as int) by {
                        if j != new_root_id.index as int && j != current_root_id.index as int {
                            assert(t1.core_tree.nodes@[j] == t0.core_tree.nodes@[j]);
                        }
                        if j == current_root_id.index as int {
                            assert(t0.core_tree.occupied(j));
                        }
                    }
                    assert forall|j: int|
                        t0.core_tree.occupied(j) && j != new_root_id.index as int && j
                            != current_root_id.index as int implies #[trigger] t1.core_tree.node_at(
                        j,
                    ) == t0.core_tree.node_at(j) by {
                        assert(t1.core_tree.nodes@[j] == t0.core_tree.nodes@[j]);
                    }
                    Self::lemma_opt_wf_rebuild(t0, t1, new_root_id, current_root_id);
                }
            },
            None => {
            },
        }
        new_root_id
    }

    /// Validity of one node's links carries over when the set of alive
    /// slots only grows.
    proof fn lemma_links_grow(t0: Self, t1: Self, i: int)
        requires
            t0.opt_wf(),
            t0.core_tree.occupied(i),
            t1.core_tree.id == t0.core_tree.id,
            t1.core_tree.n() >= t0.core_tree.n(),
            forall|j: int| t0.core_tree.occupied(j) ==> #[trigger] t1.core_tree.occupied(j),
            t1.core_tree.node_at(i) == t0.core_tree.node_at(i),
        ensures
            ({
                let n = t1.core_tree.node_at(i);
                &&& t1.link_ok(n.parent)
                &&& t1.link_ok(n.prev_sibling)
                &&& t1.link_ok(n.next_sibling)
                &&& t1.link_ok(n.first_child)
                &&& t1.link_ok(n.last_child)
                &&& ((n.first_child is Some) <==> (n.last_child is Some))
                &&& (match n.first_child {
                    Some(fc) => fc.index as int != i,
                    None => true,
                })
                &&& (match n.last_child {
                    Some(lc) => lc.index as int != i,
                    None => true,
                })
            }),
    {
        assert(t0.core_tree.occupied(i));
    }

    /// After re-wiring a handful of slots whose new links are all valid, the
    /// tree is well formed; used by `set_root`.
    proof fn lemma_opt_wf_rebuild(t0: Self, t1: Self, new_root_id: NodeId, old_root_id: NodeId)
        requires
            t0.opt_wf(),
            t0.core_tree.valid(old_root_id),
            t1.core_tree.wf_free(),
            t1.core_tree.id == t0.core_tree.id,
            t1.core_tree.n() >= t0.core_tree.n(),
            forall|j: int| t0.core_tree.occupied(j) ==> #[trigger] t1.core_tree.occupied(j),
            forall|j: int|
                #[trigger] t1.core_tree.occupied(j) ==> (t0.core_tree.occupied(j) || j
                    == new_root_id.index as int),
            t1.core_tree.valid(new_root_id),
            t1.core_tree.valid(old_root_id),
            t1.core_tree.root == Some(new_root_id),
            ({
                let rn = t1.core_tree.node_at(new_root_id.index as int);
                &&& rn.parent is None
                &&& rn.prev_sibling is None
                &&& rn.next_sibling is None
                &&& rn.first_child == Some(old_root_id)
                &&& rn.last_child == Some(old_root_id)
            }),
            ({
                let on = t1.core_tree.node_at(old_root_id.index as int);
                let o0 = t0.core_tree.node_at(old_root_id.index as int);
                &&& on.parent == Some(new_root_id)
                &&& on.prev_sibling == o0.prev_sibling
                &&& on.next_sibling == o0.next_sibling
                &&& on.first_child == o0.first_child
                &&& on.last_child == o0.last_child
            }),
            forall|j: int|
                t0.core_tree.occupied(j) && j != new_root_id.index as int && j
                    != old_root_id.index as int ==> #[trigger] t1.core_tree.node_at(j)
                    == t0.core_tree.node_at(j),
        ensures
            t1.opt_wf(),
    {
        assert forall|i: int| #[trigger] t1.core_tree.occupied(i) implies {
            let n = t1.core_tree.node_at(i);
            &&& t1.link_ok(n.parent)
            &&& t1.link_ok(n.prev_sibling)
            &&& t1.link_ok(n.next_sibling)
            &&& t1.link_ok(n.first_child)
            &&& t1.link_ok(n.last_child)
            &&& ((n.first_child is Some) <==> (n.last_child is Some))
            &&& (match n.first_child {
                Some(fc) => fc.index as int != i,
                None => true,
            })
            &&& (match n.last_child {
                Some(lc) => lc.index as int != i,
                None => true,
            })
        } by {
            if i == new_root_id.index as int {
            } else if i == old_root_id.index as int {
                assert(t0.core_tree.occupied(i));
            } else {
                if t0.core_tree.occupied(i) {
                    assert(t1.core_tree.node_at(i) == t0.core_tree.node_at(i));
                    Self::lemma_links_grow(t0, t1, i);
                } else {
                    // a freshly inserted slot is the new root
                    assert(false);
                }
            }
        }
    }

    /// Inserts a node as the last child of a validated parent handle.
    fn insert_under_node(&mut self, node: OptNode<T>, parent_id: &NodeId) -> (r: Result<
        NodeId,
        NodeIdError,
    >)
        requires
            old(self).opt_wf(),
            old(self).core_tree.valid(*parent_id),
            node.parent is None,
            node.prev_sibling is None,
            node.next_sibling is None,
            node.first_child is None,
            node.last_child is None,
        ensures
            final(self).opt_wf(),
            r matches Ok(id) && {
                let t1 = *final(self);
                &&& t1.core_tree.valid(id)
                &&& t1.core_tree.node_at(id.index as int).data == node.data
                &&& t1.core_tree.node_at(id.index as int).parent == Some(*parent_id)
                &&& t1.core_tree.node_at(parent_id.index as int).last_child == Some(id)
                &&& t1.core_tree.node_at(id.index as int).prev_sibling == (
                if old(self).core_tree.node_at(parent_id.index as int).last_child is Some {
                    old(self).core_tree.node_at(parent_id.index as int).last_child
                } else {
                    None
                })
                &&& t1.core_tree.node_at(parent_id.index as int).first_child == (
                if old(self).core_tree.node_at(parent_id.index as int).first_child is Some {
                    old(self).core_tree.node_at(parent_id.index as int).first_child
                } else {
                    Some(id)
                })
                &&& t1.core_tree.root == old(self).core_tree.root
            },
    {
        let ghost t0 = *old(self);
        let mut node = node;
        node.set_parent(Some(*parent_id));
        let new_id = self.core_tree.insert(node);
        let ghost ta = *self;
        proof {
            assert forall|j: int|
                0 <= j < t0.core_tree.n() && j != new_id.index as int implies ta.core_tree.nodes@[j]
                    == t0.core_tree.nodes@[j] by {
                if t0.core_tree.free_ids@.len() > 0 {
                } else {
                }
            }
            assert forall|j: int|
                #[trigger] ta.core_tree.occupied(j) implies (t0.core_tree.occupied(j) || j
                    == new_id.index as int) by {
                if j != new_id.index as int {
                    assert(ta.core_tree.nodes@[j] == t0.core_tree.nodes@[j]);
                }
            }
            assert(ta.core_tree.occupied(parent_id.index as int));
            assert(new_id.index != parent_id.index) by {
                if new_id.index == parent_id.index {
                    assert(t0.core_tree.occupied(parent_id.index as int));
                }
            }
            assert(ta.core_tree.node_at(parent_id.index as int) == t0.core_tree.node_at(
                parent_id.index as int,
            ));
        }
        let children = {
            let parent = self.core_tree.get_unsafe(parent_id);
            (parent.first_child(), parent.last_child())
        };
        match children {
            (Some(_), Some(last_id)) => {
                proof {
                    assert(t0.core_tree.valid(last_id)) by {
                        assert(t0.core_tree.occupied(parent_id.index as int));
                    }
                    assert(last_id.index != new_id.index) by {
                        if last_id.index == new_id.index {
                            assert(t0.core_tree.occupied(last_id.index as int));
                        }
                    }
                    assert(last_id.index != parent_id.index) by {
                        assert(t0.core_tree.occupied(parent_id.index as int));
                    }
                }
                match self.core_tree.get_mut(parent_id) {
                    Ok(p) => p.set_last_child(Some(new_id)),
                    Err(_) => proof {
                        assert(false);
                    },
                }
                match self.core_tree.get_mut(&new_id) {
                    Ok(n) => n.set_prev_sibling(Some(last_id)),
                    Err(_) => proof {
                        assert(false);
                    },
                }
                match self.core_tree.get_mut(&last_id) {
                    Ok(l) => l.set_next_sibling(Some(new_id)),
                    Err(_) => proof {
                        assert(false);
                    },
                }
                proof {
                    let t1 = *self;
                    assert forall|j: int|
                        #[trigger] t1.core_tree.occupied(j) implies (t0.core_tree.occupied(j) || j
                            == new_id.index as int) by {
                        assert(ta.core_tree.occupied(j) == t1.core_tree.occupied(j));
                    }
                    assert forall|j: int|
                        t0.core_tree.occupied(j) && j != parent_id.index as int && j
                            != new_id.index as int && j != last_id.index as int implies #[trigger]
                        t1.core_tree.node_at(j) == t0.core_tree.node_at(j) by {
                        assert(ta.core_tree.nodes@[j] == t0.core_tree.nodes@[j]);
                    }
                    Self::lemma_under_wf(t0, t1, *parent_id, new_id, Some(last_id));
                }
                Ok(new_id)
            },
            (None, None) => {
                match self.core_tree.get_mut(parent_id) {
                    Ok(p) => p.set_first_child(Some(new_id)),
                    Err(_) => proof {
                        assert(false);
                    },
                }
                match self.core_tree.get_mut(parent_id) {
                    Ok(p) => p.set_last_child(Some(new_id)),
                    Err(_) => proof {
                        assert(false);
                    },
                }
                proof {
                    let t1 = *self;
                    assert forall|j: int|
                        #[trigger] t1.core_tree.occupied(j) implies (t0.core_tree.occupied(j) || j
                            == new_id.index as int) by {
                        assert(ta.core_tree.occupied(j) == t1.core_tree.occupied(j));
                    }
                    assert forall|j: int|
                        t0.core_tree.occupied(j) && j != parent_id.index as int && j
                            != new_id.index as int implies #[trigger] t1.core_tree.node_at(j)
                            == t0.core_tree.node_at(j) by {
                        assert(ta.core_tree.nodes@[j] == t0.core_tree.nodes@[j]);
                    }
                    Self::lemma_under_wf(t0, t1, *parent_id, new_id, None);
                }
                Ok(new_id)
            },
            _ => {
                proof {
                    assert(t0.core_tree.occupied(parent_id.index as int));
                    assert(false);
                }
                Err(NodeIdError::NodeIdNoLongerValid)
            },
        }
    }

    /// After inserting one node below its parent and wiring the sibling
    /// links, the tree is well formed.
    proof fn lemma_under_wf(
        t0: Self,
        t1: Self,
        parent_id: NodeId,
        new_id: NodeId,
        old_last: Option<NodeId>,
    )
        requires
            t0.opt_wf(),
            t0.core_tree.valid(parent_id),
            t0.core_tree.node_at(parent_id.index as int).last_child == old_last,
            match old_last {
                Some(l) => t0.core_tree.valid(l) && l.index != new_id.index && l.index
                    != parent_id.index,
                None => true,
            },
            t1.core_tree.wf_free(),
            t1.core_tree.id == t0.core_tree.id,
            t1.core_tree.n() >= t0.core_tree.n(),
            forall|j: int| t0.core_tree.occupied(j) ==> #[trigger] t1.core_tree.occupied(j),
            forall|j: int|
                #[trigger] t1.core_tree.occupied(j) ==> (t0.core_tree.occupied(j) || j
                    == new_id.index as int),
            t1.core_tree.valid(new_id),
            t1.core_tree.valid(parent_id),
            new_id.index != parent_id.index,
            t1.core_tree.root == t0.core_tree.root,
            ({
                let nn = t1.core_tree.node_at(new_id.index as int);
                &&& nn.parent == Some(parent_id)
                &&& nn.prev_sibling == old_last
                &&& nn.next_sibling is None
                &&& nn.first_child is None
                &&& nn.last_child is None
            }),
            ({
                let pn = t1.core_tree.node_at(parent_id.index as int);
                let p0 = t0.core_tree.node_at(parent_id.index as int);
                &&& pn.parent == p0.parent
                &&& pn.prev_sibling == p0.prev_sibling
                &&& pn.next_sibling == p0.next_sibling
                &&& pn.last_child == Some(new_id)
                &&& pn.first_child == (match old_last {
                    Some(_) => p0.first_child,
                    None => Some(new_id),
                })
            }),
            match old_last {
                Some(l) => {
                    let ln = t1.core_tree.node_at(l.index as int);
                    let l0 = t0.core_tree.node_at(l.index as int);
                    &&& ln.parent == l0.parent
                    &&& ln.prev_sibling == l0.prev_sibling
                    &&& ln.next_sibling == Some(new_id)
                    &&& ln.first_child == l0.first_child
                    &&& ln.last_child == l0.last_child
                },
                None => true,
            },
            forall|j: int|
                t0.core_tree.occupied(j) && j != parent_id.index as int && j
                    != new_id.index as int && (match old_last {
                    Some(l) => j != l.index as int,
                    None => true,
                }) ==> #[trigger] t1.core_tree.node_at(j) == t0.core_tree.node_at(j),
        ensures
            t1.opt_wf(),
    {
        assert(t1.link_ok(t1.core_tree.root)) by {
            match t0.core_tree.root {
                Some(rt) => {
                    assert(t0.core_tree.valid(rt));
                    assert(t1.core_tree.occupied(rt.index as int));
                },
                None => {
                },
            }
        }
        assert forall|i: int| #[trigger] t1.core_tree.occupied(i) implies {
            let n = t1.core_tree.node_at(i);
            &&& t1.link_ok(n.parent)
            &&& t1.link_ok(n.prev_sibling)
            &&& t1.link_ok(n.next_sibling)
            &&& t1.link_ok(n.first_child)
            &&& t1.link_ok(n.last_child)
            &&& ((n.first_child is Some) <==> (n.last_child is Some))
            &&& (match n.first_child {
                Some(fc) => fc.index as int != i,
                None => true,
            })
            &&& (match n.last_child {
                Some(lc) => lc.index as int != i,
                None => true,
            })
        } by {
            if i == new_id.index as int {
                match old_last {
                    Some(l) => {
                        assert(t1.core_tree.occupied(l.index as int));
                    },
                    None => {
                    },
                }
            } else if i == parent_id.index as int {
                assert(t0.core_tree.occupied(i));
                match old_last {
                    Some(_) => {
                        assert(t0.core_tree.node_at(i).first_child is Some);
                        match t0.core_tree.node_at(i).first_child {
                            Some(fc) => {
                                assert(t0.core_tree.valid(fc));
                                assert(t1.core_tree.occupied(fc.index as int));
                            },
                            None => {
                            },
                        }
                    },
                    None => {
                    },
                }
                match t0.core_tree.node_at(i).parent {
                    Some(x) => {
                        assert(t0.core_tree.valid(x));
                        assert(t1.core_tree.occupied(x.index as int));
                    },
                    None => {
                    },
                }
                match t0.core_tree.node_at(i).prev_sibling {
                    Some(x) => {
                        assert(t0.core_tree.valid(x));
                        assert(t1.core_tree.occupied(x.index as int));
                    },
                    None => {
                    },
                }
                match t0.core_tree.node_at(i).next_sibling {
                    Some(x) => {
                        assert(t0.core_tree.valid(x));
                        assert(t1.core_tree.occupied(x.index as int));
                    },
                    None => {
                    },
                }
            } else {
                assert(t0.core_tree.occupied(i));
                match old_last {
                    Some(l) => {
                        if i == l.index as int {
                            let l0 = t0.core_tree.node_at(i);
                            assert(t0.link_ok(l0.parent) && t0.link_ok(l0.prev_sibling)
                                && t0.link_ok(l0.first_child) && t0.link_ok(l0.last_child));
                            match l0.parent {
                                Some(x) => {
                                    assert(t1.core_tree.occupied(x.index as int));
                                },
                                None => {
                                },
                            }
                            match l0.prev_sibling {
                                Some(x) => {
                                    assert(t1.core_tree.occupied(x.index as int));
                                },
                                None => {
                                },
                            }
                            match l0.first_child {
                                Some(x) => {
                                    assert(t1.core_tree.occupied(x.index as int));
                                },
                                None => {
                                },
                            }
                            match l0.last_child {
                                Some(x) => {
                                    assert(t1.core_tree.occupied(x.index as int));
                                },
                                None => {
                                },
                            }
                        } else {
                            assert(t1.core_tree.node_at(i) == t0.core_tree.node_at(i));
                            Self::lemma_links_grow(t0, t1, i);
                        }
                    },
                    None => {
                        assert(t1.core_tree.node_at(i) == t0.core_tree.node_at(i));
                        Self::lemma_links_grow(t0, t1, i);
                    },
                }
            }
        }
    }
}

} // verus!
