use vstd::prelude::*;

use crate::behaviors::InsertBehavior;
use crate::core_tree::CoreTree;
use crate::error::NodeIdError;
use crate::node::Node;
use crate::NodeId;

verus! {

/// A `Tree` builder that provides more control over how a `Tree` is created.
pub struct TreeBuilder<T> {
    pub root: Option<Node<T>>,
    pub node_capacity: usize,
    pub swap_capacity: usize,
}

impl<T> TreeBuilder<T> {
    /// Creates a new `TreeBuilder` with the default settings.
    pub fn new() -> (r: TreeBuilder<T>)
        ensures
            r.root is None,
            r.node_capacity == 0,
            r.swap_capacity == 0,
    {
        TreeBuilder { root: None, node_capacity: 0, swap_capacity: 0 }
    }

    /// Sets the root `Node` of the `TreeBuilder`.
    pub fn with_root(self, root: Node<T>) -> (r: TreeBuilder<T>)
        ensures
            r.root == Some(root),
            r.node_capacity == self.node_capacity,
            r.swap_capacity == self.swap_capacity,
    {
        TreeBuilder { root: Some(root), ..self }
    }

    /// Sets the number of `Node`s the `Tree` pre-allocates space for.
    pub fn with_node_capacity(self, node_capacity: usize) -> (r: TreeBuilder<T>)
        ensures
            r.root == self.root,
            r.node_capacity == node_capacity,
            r.swap_capacity == self.swap_capacity,
    {
        TreeBuilder { node_capacity, ..self }
    }

    /// Sets the number of vacated slots the `Tree` pre-allocates space for.
    pub fn with_swap_capacity(self, swap_capacity: usize) -> (r: TreeBuilder<T>)
        ensures
            r.root == self.root,
            r.node_capacity == self.node_capacity,
            r.swap_capacity == swap_capacity,
    {
        TreeBuilder { swap_capacity, ..self }
    }

    /// Build a `Tree` based upon the current settings in the `TreeBuilder`.
    pub fn build(self) -> (r: Tree<T>)
        requires
            self.root matches Some(node) ==> node.parent is None && node.children@.len() == 0,
        ensures
            r.wf(),
            r.core_tree.free_ids@.len() == 0,
            match self.root {
                Some(node) => {
                    &&& r.n() == 1
                    &&& r.node_at(0) == node
                    &&& r.core_tree.root == Some(r.mk_id(0))
                },
                None => r.n() == 0 && r.core_tree.root is None,
            },
    {
        let tree = Tree {
            core_tree: CoreTree::new(self.root, self.node_capacity, self.swap_capacity),
        };
        proof {
            assert forall|i: int| #[trigger] tree.occupied(i) implies tree.rooted(i, 0) by {}
            assert(tree.all_rooted(0));
        }
        tree
    }
}

/// `new_s` is `old_s` with its first occurrence of `x` taken out.
pub open spec fn removed_one(old_s: Seq<NodeId>, new_s: Seq<NodeId>, x: NodeId) -> bool {
    exists|k: int|
        0 <= k < old_s.len() && old_s[k] == x && (forall|j: int| 0 <= j < k ==> old_s[j] != x)
            && new_s == old_s.remove(k)
}

/// A tree structure consisting of `Node`s, all owned by the tree itself and
/// addressed through `NodeId` handles.
pub struct Tree<T> {
    pub core_tree: CoreTree<Node<T>>,
}

impl<T> Tree<T> {
    /// The number of storage slots, occupied or not.
    pub open spec fn n(self) -> int {
        self.core_tree.n()
    }

    /// Slot `i` holds an alive node.
    pub open spec fn occupied(self, i: int) -> bool {
        self.core_tree.occupied(i)
    }

    /// The node in slot `i`.
    pub open spec fn node_at(self, i: int) -> Node<T> {
        self.core_tree.node_at(i)
    }

    /// The child handles of the node in slot `i`.
    pub open spec fn children_of(self, i: int) -> Seq<NodeId> {
        self.node_at(i).children@
    }

    /// The parent handle of the node in slot `i`.
    pub open spec fn parent_of(self, i: int) -> Option<NodeId> {
        self.node_at(i).parent
    }

    /// The handle of slot `i`.
    pub open spec fn mk_id(self, i: int) -> NodeId {
        self.core_tree.mk_id(i)
    }

    /// The handle names an occupied slot of this tree.
    pub open spec fn valid(self, id: NodeId) -> bool {
        self.core_tree.valid(id)
    }

    /// A handle bearing this tree's identity stays within the storage (see
    /// `CoreTree::in_bounds`).
    pub open spec fn in_bounds(self, id: NodeId) -> bool {
        self.core_tree.in_bounds(id)
    }

    /// The root handle, if there is one, names an occupied, parentless slot.
    pub open spec fn root_ok(self) -> bool {
        match self.core_tree.root {
            Some(r) => self.valid(r) && self.node_at(r.index as int).parent is None,
            None => true,
        }
    }

    /// The parent link of slot `i`, if any, names an occupied slot whose
    /// child list holds `i` back.
    pub open spec fn parent_link_ok(self, i: int) -> bool {
        match self.node_at(i).parent {
            Some(p) => self.valid(p) && self.children_of(p.index as int).contains(self.mk_id(i)),
            None => true,
        }
    }

    /// The child list of slot `i` holds distinct handles of occupied slots,
    /// each of which names `i` as its parent.
    pub open spec fn child_links_ok(self, i: int) -> bool {
        &&& self.children_of(i).no_duplicates()
        &&& forall|c: int|
            0 <= c < self.children_of(i).len() ==> self.valid(#[trigger] self.children_of(i)[c])
                && self.node_at(self.children_of(i)[c].index as int).parent == Some(self.mk_id(i))
    }

    /// Parent and child links agree everywhere, and the root is sound.
    pub open spec fn wf_links(self) -> bool {
        &&& self.root_ok()
        &&& forall|i: int|
            #[trigger] self.occupied(i) ==> self.parent_link_ok(i) && self.child_links_ok(i)
    }

    /// The tree invariant: the free list is in sync with the storage, parent
    /// and child links are symmetric, and parent chains have no cycles.
    pub open spec fn wf(self) -> bool {
        &&& self.core_tree.wf_free()
        &&& self.wf_links()
        &&& self.acyclic()
    }

    /// No alive node links to `id`, neither as a parent nor as a child.
    pub open spec fn unreferenced(self, id: NodeId) -> bool {
        forall|i: int|
            #[trigger] self.occupied(i) ==> self.node_at(i).parent != Some(id)
                && !self.children_of(i).contains(id)
    }

    /// Outside the `except` slots, the storage of `post` matches this one and
    /// the tree identity is unchanged.
    pub open spec fn same_except(self, post: Self, except: Set<int>) -> bool {
        &&& post.core_tree.id == self.core_tree.id
        &&& post.n() >= self.n()
        &&& forall|j: int|
            0 <= j < post.n() && !except.contains(j) ==> post.core_tree.nodes@[j] == (
            if j < self.n() {
                self.core_tree.nodes@[j]
            } else {
                None
            })
    }

    /// `post` is this tree with one fresh slot `x` made alive: `x` was not a
    /// valid handle before, and every other slot keeps its occupancy.
    pub open spec fn grows_by(self, post: Self, x: NodeId) -> bool {
        &&& x.tree_id == self.core_tree.id
        &&& !self.valid(x)
        &&& post.valid(x)
        &&& self.n() <= post.n() <= self.n() + 1
        &&& forall|j: int|
            #[trigger] post.occupied(j) <==> (self.occupied(j) || j == x.index as int)
    }

    /// Where a fresh slot comes from: the most recently freed slot is
    /// reused first, and only with no free slot is the arena extended by
    /// one.
    pub open spec fn allocates(self, post: Self, x: NodeId) -> bool {
        &&& (self.core_tree.free_ids@.len() == 0 ==> {
            &&& x.index as int == self.n()
            &&& post.n() == self.n() + 1
            &&& post.core_tree.free_ids@ == self.core_tree.free_ids@
        })
        &&& (self.core_tree.free_ids@.len() > 0 ==> {
            &&& x == self.core_tree.free_ids@.last()
            &&& post.n() == self.n()
            &&& post.core_tree.free_ids@ == self.core_tree.free_ids@.drop_last()
        })
    }

    /// No alive node names `id` as its parent.
    pub open spec fn no_parent_ref(self, id: NodeId) -> bool {
        forall|i: int| #[trigger] self.occupied(i) ==> self.node_at(i).parent != Some(id)
    }

    /// A chain never passes a slot that no parent link names, except at its
    /// own start.
    pub(crate) proof fn lemma_no_parent_ref_chain(self, c: NodeId, i: int, f: nat)
        requires
            self.wf_links(),
            self.no_parent_ref(c),
            c.tree_id == self.core_tree.id,
            i != c.index as int,
        ensures
            !self.on_chain(i, c.index as int, f),
        decreases f,
    {
        if self.on_chain(i, c.index as int, f) {
            assert(self.occupied(i));
            assert(self.parent_link_ok(i));
            match self.node_at(i).parent {
                None => {
                },
                Some(p) => {
                    assert(self.valid(p));
                    if p.index as int == c.index as int {
                        assert(p == c);
                        assert(false);
                    } else {
                        self.lemma_no_parent_ref_chain(c, p.index as int, (f - 1) as nat);
                    }
                },
            }
        }
    }

    /// A parentless node stands in nobody's child list.
    pub(crate) proof fn lemma_parentless_not_child(self, c: NodeId)
        requires
            self.wf_links(),
            self.valid(c),
            self.node_at(c.index as int).parent is None,
        ensures
            forall|i: int| #[trigger] self.occupied(i) ==> !self.children_of(i).contains(c),
    {
        assert forall|i: int| #[trigger] self.occupied(i) implies !self.children_of(i).contains(
            c,
        ) by {
            if self.children_of(i).contains(c) {
                let k = choose|k: int|
                    0 <= k < self.children_of(i).len() && self.children_of(i)[k] == c;
                assert(self.valid(self.children_of(i)[k]));
                assert(self.node_at(c.index as int).parent == Some(self.mk_id(i)));
                assert(false);
            }
        }
    }

    /// Every slot on a chain is occupied.
    pub(crate) proof fn lemma_chain_occupied(t: Self, i: int, j: int, f: nat)
        requires
            t.on_chain(i, j, f),
        ensures
            t.occupied(j),
        decreases f,
    {
        if i != j {
            match t.node_at(i).parent {
                None => {
                },
                Some(p) => {
                    Self::lemma_chain_occupied(t, p.index as int, j, (f - 1) as nat);
                },
            }
        }
    }

    /// The two link conditions at one occupied slot, from `wf_links`.
    pub(crate) proof fn lemma_links_at(self, i: int)
        requires
            self.wf_links(),
            self.occupied(i),
        ensures
            self.parent_link_ok(i),
            self.child_links_ok(i),
    {
    }

    /// The number of slots fits the machine word that `Vec` uses.
    pub(crate) proof fn lemma_n_fits(self)
        ensures
            self.n() <= usize::MAX,
    {
        broadcast use vstd::std_specs::vec::axiom_spec_len;

        assert(self.core_tree.nodes@.len() == vstd::std_specs::vec::spec_vec_len(
            &self.core_tree.nodes,
        ));
    }

    /// The free list stays in sync when the slot contents change but no slot
    /// switches between occupied and vacated.
    pub(crate) proof fn lemma_wf_free_same_occupancy(t0: Self, t1: Self)
        requires
            t0.core_tree.wf_free(),
            t1.core_tree.free_ids == t0.core_tree.free_ids,
            t1.core_tree.id == t0.core_tree.id,
            t1.n() == t0.n(),
            forall|j: int| #[trigger] t1.occupied(j) <==> t0.occupied(j),
        ensures
            t1.core_tree.wf_free(),
    {
        let fr = t1.core_tree.free_ids@;
        assert forall|k: int|
            0 <= k < fr.len() implies ((#[trigger] fr[k]).index as int) < t1.n()
                && t1.core_tree.nodes@[fr[k].index as int] is None by {
            assert(t0.core_tree.nodes@[fr[k].index as int] is None);
            assert(!t0.occupied(fr[k].index as int));
            assert(!t1.occupied(fr[k].index as int));
        }
        assert forall|i: int|
            0 <= i < t1.n() && t1.core_tree.nodes@[i] is None implies exists|k: int|
                0 <= k < fr.len() && (#[trigger] fr[k].index) as int == i by {
            assert(!t1.occupied(i));
            assert(!t0.occupied(i));
            assert(t0.core_tree.nodes@[i] is None);
            let k0 = choose|k0: int|
                0 <= k0 < t0.core_tree.free_ids@.len() && (#[trigger] t0.core_tree.free_ids@[
                k0].index) as int == i;
            assert(fr[k0].index as int == i);
        }
    }

    /// Reading one unchanged slot through `same_except`.
    pub(crate) proof fn lemma_same_at(t0: Self, t1: Self, s: Set<int>, j: int)
        requires
            t0.same_except(t1, s),
            0 <= j < t1.n(),
            !s.contains(j),
        ensures
            t1.core_tree.nodes@[j] == (if j < t0.n() {
                t0.core_tree.nodes@[j]
            } else {
                None
            }),
            j < t0.n() ==> t1.node_at(j) == t0.node_at(j),
            j < t0.n() ==> t1.occupied(j) == t0.occupied(j),
            j >= t0.n() ==> !t1.occupied(j),
    {
        assert(t1.core_tree.nodes@[j] == (if j < t0.n() {
            t0.core_tree.nodes@[j]
        } else {
            None
        }));
    }

    /// Link symmetry does not depend on the root or free-list fields.
    pub(crate) proof fn lemma_links_same_nodes(t0: Self, t1: Self)
        requires
            t1.core_tree.id == t0.core_tree.id,
            t1.core_tree.nodes@ == t0.core_tree.nodes@,
            forall|i: int| #[trigger] t0.occupied(i) ==> t0.parent_link_ok(i) && t0.child_links_ok(i),
        ensures
            forall|i: int| #[trigger] t1.occupied(i) ==> t1.parent_link_ok(i) && t1.child_links_ok(i),
    {
        assert forall|i: int| #[trigger] t1.occupied(i) implies t1.parent_link_ok(i)
            && t1.child_links_ok(i) by {
            assert(t0.occupied(i));
            assert(t0.parent_link_ok(i) && t0.child_links_ok(i));
            assert(t1.node_at(i) == t0.node_at(i));
            match t0.node_at(i).parent {
                Some(p) => {
                    assert(t1.node_at(p.index as int) == t0.node_at(p.index as int));
                },
                None => {
                },
            }
            assert forall|c: int| 0 <= c < t1.children_of(i).len() implies t1.valid(
                #[trigger] t1.children_of(i)[c],
            ) && t1.node_at(t1.children_of(i)[c].index as int).parent == Some(t1.mk_id(i)) by {
                assert(t1.children_of(i) == t0.children_of(i));
                assert(t0.valid(t0.children_of(i)[c]));
            }
        }
    }

    /// Acyclicity does not depend on the root or free-list fields.
    pub(crate) proof fn lemma_acyclic_same_nodes(t0: Self, t1: Self)
        requires
            t1.core_tree.id == t0.core_tree.id,
            t1.core_tree.nodes@ == t0.core_tree.nodes@,
            t0.acyclic(),
        ensures
            t1.acyclic(),
    {
        let fuel = choose|fuel: nat| t0.all_rooted(fuel);
        assert forall|i: int| #[trigger] t1.occupied(i) implies t1.rooted(i, fuel) by {
            assert(t0.occupied(i));
            assert(t0.rooted(i, fuel));
            assert forall|j: int| #[trigger] t0.on_chain(i, j, fuel) implies t1.occupied(j)
                && t1.node_at(j).parent == t0.node_at(j).parent by {
                Self::lemma_chain_occupied(t0, i, j, fuel);
            }
            t0.lemma_chain_frame(t1, i, fuel);
        }
        assert(t1.all_rooted(fuel));
    }

    /// Creates a new `Tree` with default settings: no root `Node` and no
    /// pre-allocated space.
    pub fn new() -> (r: Tree<T>)
        ensures
            r.wf(),
            r.n() == 0,
            r.core_tree.root is None,
            r.core_tree.free_ids@.len() == 0,
    {
        TreeBuilder::new().build()
    }

    /// Returns a `Some` value containing the `NodeId` of the root `Node` if
    /// it exists; otherwise a `None` value is returned.
    pub fn root_node_id(&self) -> (r: Option<&NodeId>)
        ensures
            (r is Some) == (self.core_tree.root is Some),
            r matches Some(id) ==> self.core_tree.root == Some(*id),
    {
        self.core_tree.root.as_ref()
    }

    /// Get an immutable reference to the `Node` a handle points to, or the
    /// error saying why the handle is invalid.
    pub fn get(&self, node_id: &NodeId) -> (r: Result<&Node<T>, NodeIdError>)
        requires
            self.in_bounds(*node_id),
        ensures
            self.valid(*node_id) ==> (r matches Ok(node) && *node == self.node_at(
                node_id.index as int,
            )),
            node_id.tree_id != self.core_tree.id ==> r == Err::<&Node<T>, _>(
                NodeIdError::InvalidNodeIdForTree,
            ),
            node_id.tree_id == self.core_tree.id && !self.valid(*node_id) ==> r == Err::<
                &Node<T>,
                _,
            >(NodeIdError::NodeIdNoLongerValid),
    {
        self.core_tree.get(node_id)
    }

    /// Get a mutable reference to the `Node` a handle points to, or the error
    /// saying why the handle is invalid.  The caller may change the payload
    /// through the reference; the tree remains well formed as long as the
    /// links are left alone.
    pub fn get_mut(&mut self, node_id: &NodeId) -> (r: Result<&mut Node<T>, NodeIdError>)
        requires
            old(self).in_bounds(*node_id),
        ensures
            old(self).valid(*node_id) ==> (r matches Ok(node) && *node == old(self).node_at(
                node_id.index as int,
            ) && final(self).core_tree.nodes@ == old(self).core_tree.nodes@.update(
                node_id.index as int,
                Some(*final(node)),
            )),
            !old(self).valid(*node_id) ==> *final(self) == *old(self),
            node_id.tree_id != old(self).core_tree.id ==> (r matches Err(e) && e
                == NodeIdError::InvalidNodeIdForTree),
            node_id.tree_id == old(self).core_tree.id && !old(self).valid(*node_id) ==> (r
                matches Err(e) && e == NodeIdError::NodeIdNoLongerValid),
            final(self).core_tree.id == old(self).core_tree.id,
            final(self).core_tree.root == old(self).core_tree.root,
            final(self).core_tree.free_ids == old(self).core_tree.free_ids,
            final(self).n() == old(self).n(),
    {
        self.core_tree.get_mut(node_id)
    }

    /// Inserts a fresh, clean node into the storage and hands back its
    /// handle, leaving every link in the tree as it was.
    pub(crate) fn insert_new_node(&mut self, new_node: Node<T>) -> (id: NodeId)
        requires
            old(self).wf(),
            new_node.parent is None,
            new_node.children@.len() == 0,
        ensures
            final(self).wf(),
            old(self).grows_by(*final(self), id),
            old(self).allocates(*final(self), id),
            old(self).same_except(*final(self), set![id.index as int]),
            final(self).node_at(id.index as int) == new_node,
            final(self).core_tree.root == old(self).core_tree.root,
            final(self).unreferenced(id),
            final(self).core_tree.root != Some(id),
    {
        let id = self.core_tree.insert(new_node);
        proof {
            broadcast use vstd::set_lib::group_set_lib_default;

            let t0 = *old(self);
            let t1 = *self;
            let xi = id.index as int;
            if t0.core_tree.free_ids@.len() > 0 {
                assert(t1.core_tree.nodes@ == t0.core_tree.nodes@.update(xi, Some(new_node)));
            } else {
                assert(t1.core_tree.nodes@ == t0.core_tree.nodes@.push(Some(new_node)));
            }
            assert(t1.node_at(xi) == new_node);
            assert(!t0.occupied(xi));
            assert forall|j: int|
                0 <= j < t1.n() && !set![xi].contains(j) implies t1.core_tree.nodes@[j] == (
            if j < t0.n() {
                t0.core_tree.nodes@[j]
            } else {
                None
            }) by {
                assert(j != xi);
            }
            assert(t0.same_except(t1, set![xi]));
            assert forall|j: int| #[trigger] t1.occupied(j) implies (t0.occupied(j) || j == xi) by {}
            assert(t0.grows_by(t1, id));
            // the fresh slot is referenced by nobody: all old links point at
            // slots that were occupied before, and the fresh node is clean
            assert forall|i: int| #[trigger] t1.occupied(i) implies t1.node_at(i).parent != Some(id)
                && !t1.children_of(i).contains(id) by {
                if i == xi {
                    assert(t1.children_of(i).len() == 0);
                } else {
                    assert(t0.occupied(i));
                    assert(t0.parent_link_ok(i) && t0.child_links_ok(i));
                    assert(t1.node_at(i) == t0.node_at(i));
                    match t0.node_at(i).parent {
                        Some(p) => {
                            assert(t0.valid(p));
                            assert(p.index as int != xi);
                        },
                        None => {
                        },
                    }
                    if t1.children_of(i).contains(id) {
                        let c = choose|c: int|
                            0 <= c < t0.children_of(i).len() && t0.children_of(i)[c] == id;
                        assert(t0.valid(t0.children_of(i)[c]));
                        assert(false);
                    }
                }
            }
            // links stay symmetric
            assert forall|i: int| #[trigger] t1.occupied(i) implies t1.parent_link_ok(i)
                && t1.child_links_ok(i) by {
                if i == xi {
                    assert(t1.children_of(i).len() == 0);
                } else {
                    assert(t0.occupied(i));
                    assert(t0.parent_link_ok(i) && t0.child_links_ok(i));
                    assert(t1.node_at(i) == t0.node_at(i));
                    match t0.node_at(i).parent {
                        Some(p) => {
                            assert(t0.valid(p));
                            assert(t1.node_at(p.index as int) == t0.node_at(p.index as int));
                        },
                        None => {
                        },
                    }
                    assert forall|c: int| 0 <= c < t1.children_of(i).len() implies t1.valid(
                        #[trigger] t1.children_of(i)[c],
                    ) && t1.node_at(t1.children_of(i)[c].index as int).parent == Some(
                        t1.mk_id(i),
                    ) by {
                        assert(t1.children_of(i) == t0.children_of(i));
                        assert(t0.valid(t0.children_of(i)[c]));
                        assert(t1.node_at(t0.children_of(i)[c].index as int) == t0.node_at(
                            t0.children_of(i)[c].index as int,
                        ));
                    }
                }
            }
            // root unchanged and still sound
            match t0.core_tree.root {
                Some(rt) => {
                    assert(t0.valid(rt));
                    assert(t1.node_at(rt.index as int) == t0.node_at(rt.index as int));
                    assert(rt != id);
                },
                None => {
                },
            }
            // chains: the fresh node is parentless, old chains never pass it
            let fuel = choose|fuel: nat| t0.all_rooted(fuel);
            assert forall|i: int| #[trigger] t1.occupied(i) implies t1.rooted(i, fuel) by {
                if i == xi {
                    assert(t1.node_at(xi).parent is None);
                } else {
                    assert(t0.occupied(i));
                    assert(t0.rooted(i, fuel));
                    assert forall|j: int| #[trigger] t0.on_chain(i, j, fuel) implies t1.occupied(j)
                        && t1.node_at(j).parent == t0.node_at(j).parent by {
                        Self::lemma_chain_occupied(t0, i, j, fuel);
                        assert(j != xi);
                        assert(t1.node_at(j) == t0.node_at(j));
                    }
                    t0.lemma_chain_frame(t1, i, fuel);
                }
            }
            assert(t1.all_rooted(fuel));
        }
        id
    }

    /// Wires an alive, parentless node below a parent that is outside its
    /// subtree: appends it to the parent's children and points its parent
    /// link back.
    pub(crate) fn set_as_parent_and_child(&mut self, parent_id: &NodeId, child_id: &NodeId)
        requires
            old(self).wf(),
            old(self).valid(*parent_id),
            old(self).valid(*child_id),
            *parent_id != *child_id,
            old(self).node_at(child_id.index as int).parent is None,
            !old(self).is_desc(parent_id.index as int, child_id.index as int),
            old(self).core_tree.root != Some(*child_id),
        ensures
            final(self).wf(),
            final(self).n() == old(self).n(),
            old(self).same_except(
                *final(self),
                set![parent_id.index as int, child_id.index as int],
            ),
            forall|j: int| #[trigger] final(self).occupied(j) <==> old(self).occupied(j),
            final(self).core_tree.root == old(self).core_tree.root,
            final(self).core_tree.free_ids == old(self).core_tree.free_ids,
            final(self).node_at(parent_id.index as int).data == old(self).node_at(
                parent_id.index as int,
            ).data,
            final(self).node_at(parent_id.index as int).parent == old(self).node_at(
                parent_id.index as int,
            ).parent,
            final(self).children_of(parent_id.index as int) == old(self).children_of(
                parent_id.index as int,
            ).push(*child_id),
            final(self).node_at(child_id.index as int).data == old(self).node_at(
                child_id.index as int,
            ).data,
            final(self).node_at(child_id.index as int).parent == Some(*parent_id),
            final(self).children_of(child_id.index as int) == old(self).children_of(
                child_id.index as int,
            ),
    {
        let ghost t0 = *old(self);
        proof {
            assert(parent_id.index != child_id.index);
        }
        match self.core_tree.get_mut(parent_id) {
            Ok(parent) => parent.add_child(*child_id),
            Err(_) => proof {
                assert(false);
            },
        }
        match self.core_tree.get_mut(child_id) {
            Ok(child) => child.set_parent(Some(*parent_id)),
            Err(_) => proof {
                assert(false);
            },
        }
        proof {
            broadcast use vstd::set_lib::group_set_lib_default;

            let t1 = *self;
            let pi = parent_id.index as int;
            let ci = child_id.index as int;
            assert(t1.children_of(pi) =~= t0.children_of(pi).push(*child_id));
            assert forall|j: int| #[trigger] t1.occupied(j) <==> t0.occupied(j) by {}
            assert forall|j: int|
                0 <= j < t1.n() && !set![pi, ci].contains(j) implies t1.core_tree.nodes@[j] == (
            if j < t0.n() {
                t0.core_tree.nodes@[j]
            } else {
                None
            }) by {
                assert(j != pi && j != ci);
            }
            assert(t0.same_except(t1, set![pi, ci]));
            t0.lemma_parentless_not_child(*child_id);
            assert(t0.occupied(pi));
            assert(!t0.children_of(pi).contains(*child_id));
            // link symmetry
            assert forall|i: int| #[trigger] t1.occupied(i) implies t1.parent_link_ok(i)
                && t1.child_links_ok(i) by {
                assert(t0.occupied(i));
                assert(t0.parent_link_ok(i) && t0.child_links_ok(i));
                Self::lemma_relink_links(t0, t1, *parent_id, *child_id, i);
            }
            // root: unchanged, not the child, so still parentless
            match t0.core_tree.root {
                Some(rt) => {
                    assert(t0.valid(rt));
                    assert(rt != *child_id);
                    if rt.index as int == ci {
                        assert(rt.tree_id == t0.core_tree.id);
                        assert(rt == *child_id);
                        assert(false);
                    }
                    assert(t1.node_at(rt.index as int).parent == t0.node_at(rt.index as int).parent);
                },
                None => {
                },
            }
            // chains: only the child's parent link changed, and the parent is
            // outside the child's subtree, so every chain stays rooted
            let fuel = choose|fuel: nat| t0.all_rooted(fuel);
            // the parent keeps its old, child-free chain
            assert(t1.rooted(pi, fuel)) by {
                assert(t0.rooted(pi, fuel));
                assert forall|j: int| #[trigger] t0.on_chain(pi, j, fuel) implies t1.occupied(j)
                    && t1.node_at(j).parent == t0.node_at(j).parent by {
                    Self::lemma_chain_occupied(t0, pi, j, fuel);
                    assert(j != ci);
                    assert(t1.node_at(j).parent == t0.node_at(j).parent);
                }
                t0.lemma_chain_frame(t1, pi, fuel);
            }
            // so the child's new chain is rooted through the parent
            assert(t1.rooted(ci, fuel + 1)) by {
                assert(t1.node_at(ci).parent == Some(*parent_id));
            }
            assert forall|i: int| #[trigger] t1.occupied(i) implies t1.rooted(
                i,
                fuel + (fuel + 1),
            ) by {
                assert(t0.occupied(i));
                assert(t0.rooted(i, fuel));
                if t0.on_chain(i, ci, fuel) {
                    // chain up to the child is untouched, then continues
                    // through the parent
                    assert forall|j: int| #[trigger] t0.on_chain(i, j, fuel) && j != ci implies
                        t1.occupied(j) && t1.node_at(j).parent == t0.node_at(j).parent by {
                        Self::lemma_chain_occupied(t0, i, j, fuel);
                    }
                    t0.lemma_chain_frame_to(t1, i, ci, fuel);
                    t1.lemma_chain_concat(i, ci, fuel, fuel + 1);
                } else {
                    assert forall|j: int| #[trigger] t0.on_chain(i, j, fuel) implies t1.occupied(j)
                        && t1.node_at(j).parent == t0.node_at(j).parent by {
                        Self::lemma_chain_occupied(t0, i, j, fuel);
                        assert(j != ci);
                    }
                    t0.lemma_chain_frame(t1, i, fuel);
                    t1.lemma_rooted_mono(i, fuel, fuel + (fuel + 1));
                }
            }
            assert(t1.all_rooted(fuel + (fuel + 1)));
        }
    }

    /// After appending `child` below `parent` (and nothing else), every slot
    /// keeps symmetric links.
    proof fn lemma_relink_links(t0: Self, t1: Self, parent_id: NodeId, child_id: NodeId, i: int)
        requires
            t0.wf_links(),
            t0.valid(parent_id),
            t0.valid(child_id),
            parent_id != child_id,
            t0.node_at(child_id.index as int).parent is None,
            t1.core_tree.id == t0.core_tree.id,
            t1.n() == t0.n(),
            forall|j: int| #[trigger] t1.occupied(j) <==> t0.occupied(j),
            forall|j: int|
                t0.occupied(j) && j != parent_id.index as int && j != child_id.index as int
                    ==> #[trigger] t1.node_at(j) == t0.node_at(j),
            t1.node_at(parent_id.index as int).parent == t0.node_at(parent_id.index as int).parent,
            t1.node_at(parent_id.index as int).children@ == t0.node_at(
                parent_id.index as int,
            ).children@.push(child_id),
            t1.node_at(child_id.index as int).parent == Some(parent_id),
            t1.node_at(child_id.index as int).children@ == t0.node_at(
                child_id.index as int,
            ).children@,
            t1.occupied(i),
        ensures
            t1.parent_link_ok(i),
            t1.child_links_ok(i),
    {
        let pi = parent_id.index as int;
        let ci = child_id.index as int;
        assert(t0.occupied(i));
        assert(t0.parent_link_ok(i) && t0.child_links_ok(i));
        t0.lemma_parentless_not_child(child_id);
        assert(t0.occupied(pi));
        assert(!t0.children_of(pi).contains(child_id));
        assert(pi != ci);
        // parent link of i still answered by its parent's children
        let pr = t1.node_at(i).parent;
        match pr {
            Some(p) => {
                if i == ci {
                    assert(p == parent_id);
                    assert(t1.occupied(pi));
                    assert(t1.valid(p));
                    assert(t1.children_of(pi)[t1.children_of(pi).len() - 1] == child_id);
                    assert(t1.children_of(pi).contains(t1.mk_id(i)));
                } else {
                    assert(t1.node_at(i).parent == t0.node_at(i).parent);
                    assert(t0.valid(p));
                    assert(t1.occupied(p.index as int));
                    assert(t1.valid(p));
                    if p.index as int == pi {
                        assert(t0.children_of(pi).contains(t0.mk_id(i)));
                        let c = choose|c: int|
                            0 <= c < t0.children_of(pi).len() && t0.children_of(pi)[c] == t0.mk_id(
                                i,
                            );
                        assert(t1.children_of(pi)[c] == t0.mk_id(i));
                        assert(t1.children_of(pi).contains(t1.mk_id(i)));
                    } else if p.index as int == ci {
                        assert(t1.children_of(ci) == t0.children_of(ci));
                        assert(t0.children_of(ci).contains(t0.mk_id(i)));
                    } else {
                        assert(t1.node_at(p.index as int) == t0.node_at(p.index as int));
                        assert(t0.children_of(p.index as int).contains(t0.mk_id(i)));
                    }
                }
            },
            None => {
            },
        }
        // children of i still point back at i
        if i == pi {
            let oldc = t0.children_of(pi);
            let newc = t1.children_of(pi);
            assert(newc == oldc.push(child_id));
            assert forall|k1: int, k2: int|
                0 <= k1 < k2 < newc.len() implies newc[k1] != newc[k2] by {
                if k2 == newc.len() - 1 {
                    assert(newc[k2] == child_id);
                    if newc[k1] == child_id {
                        assert(oldc[k1] == child_id);
                        assert(oldc.contains(child_id));
                    }
                } else {
                    assert(oldc[k1] == newc[k1] && oldc[k2] == newc[k2]);
                }
            }
            assert(newc.no_duplicates());
            assert forall|c: int| 0 <= c < newc.len() implies t1.valid(#[trigger] newc[c])
                && t1.node_at(newc[c].index as int).parent == Some(t1.mk_id(i)) by {
                if c == newc.len() - 1 {
                    assert(newc[c] == child_id);
                    assert(t1.occupied(ci));
                    assert(t1.valid(child_id));
                } else {
                    assert(newc[c] == oldc[c]);
                    assert(t0.valid(oldc[c]));
                    assert(t1.occupied(oldc[c].index as int));
                    assert(t1.valid(oldc[c]));
                    assert(t0.node_at(oldc[c].index as int).parent == Some(t0.mk_id(pi)));
                    assert(oldc[c].index as int != ci);
                    if oldc[c].index as int == pi {
                        assert(t1.node_at(pi).parent == t0.node_at(pi).parent);
                    } else {
                        assert(t1.node_at(oldc[c].index as int) == t0.node_at(
                            oldc[c].index as int,
                        ));
                    }
                }
            }
        } else {
            assert(t1.children_of(i) == t0.children_of(i));
            assert forall|c: int| 0 <= c < t1.children_of(i).len() implies t1.valid(
                #[trigger] t1.children_of(i)[c],
            ) && t1.node_at(t1.children_of(i)[c].index as int).parent == Some(t1.mk_id(i)) by {
                assert(t1.children_of(i)[c] == t0.children_of(i)[c]);
                let ch = t0.children_of(i)[c];
                assert(t0.valid(ch));
                assert(t1.occupied(ch.index as int));
                assert(t1.valid(ch));
                assert(t0.node_at(ch.index as int).parent == Some(t0.mk_id(i)));
                assert(ch.index as int != ci);
                if ch.index as int == pi {
                    assert(t1.node_at(pi).parent == t0.node_at(pi).parent);
                } else {
                    assert(t1.node_at(ch.index as int) == t0.node_at(ch.index as int));
                }
            }
        }
    }

    /// Sets the root of the `Tree`.
    ///
    /// If there is already a root `Node` present in the tree, that `Node` is
    /// set as the first child of the new root.
    pub fn set_root(&mut self, new_root: Node<T>) -> (id: NodeId)
        requires
            old(self).wf(),
            new_root.parent is None,
            new_root.children@.len() == 0,
        ensures
            final(self).wf(),
            old(self).grows_by(*final(self), id),
            old(self).allocates(*final(self), id),
            final(self).core_tree.root == Some(id),
            final(self).node_at(id.index as int).data == new_root.data,
            final(self).node_at(id.index as int).parent is None,
            match old(self).core_tree.root {
                Some(old_root) => {
                    &&& final(self).children_of(id.index as int) == seq![old_root]
                    &&& final(self).node_at(old_root.index as int).parent == Some(id)
                    &&& final(self).node_at(old_root.index as int).data == old(self).node_at(
                        old_root.index as int,
                    ).data
                    &&& final(self).children_of(old_root.index as int) == old(self).children_of(
                        old_root.index as int,
                    )
                    &&& old(self).same_except(
                        *final(self),
                        set![id.index as int, old_root.index as int],
                    )
                },
                None => {
                    &&& final(self).children_of(id.index as int).len() == 0
                    &&& old(self).same_except(*final(self), set![id.index as int])
                },
            },
    {
        let ghost t0 = *old(self);
        let new_root_id = self.insert_new_node(new_root);
        let ghost ta = *self;
        let current_root = match self.core_tree.root.as_ref() {
            Some(r) => Some(*r),
            None => None,
        };
        self.core_tree.root = Some(new_root_id);
        proof {
            let tb = *self;
            Self::lemma_links_same_nodes(ta, tb);
            Self::lemma_acyclic_same_nodes(ta, tb);
            assert(tb.root_ok());
            assert(tb.wf());
        }
        match current_root {
            Some(current_root_id) => {
                proof {
                    let tb = *self;
                    let xi = new_root_id.index as int;
                    let ci = current_root_id.index as int;
                    assert(tb.valid(current_root_id));
                    assert(current_root_id != new_root_id);
                    // the fresh root is parentless, so nothing sits above it
                    if tb.is_desc(xi, ci) {
                        let f = choose|f: nat| tb.on_chain(xi, ci, f);
                        assert(xi != ci);
                        assert(tb.node_at(xi).parent is None);
                        assert(!tb.on_chain(xi, ci, f));
                        assert(false);
                    }
                }
                self.set_as_parent_and_child(&new_root_id, &current_root_id);
                proof {
                    broadcast use vstd::set_lib::group_set_lib_default;

                    let t1 = *self;
                    let xi = new_root_id.index as int;
                    let ci = current_root_id.index as int;
                    assert(t1.children_of(xi) =~= seq![current_root_id]);
                    assert forall|j: int|
                        0 <= j < t1.n() && !set![xi, ci].contains(j)
                            implies t1.core_tree.nodes@[j] == (
                    if j < t0.n() {
                        t0.core_tree.nodes@[j]
                    } else {
                        None
                    }) by {
                        assert(j != xi && j != ci);
                    }
                    assert(t0.same_except(t1, set![xi, ci]));
                    let tb = Tree { core_tree: CoreTree { root: Some(new_root_id), ..ta.core_tree } };
                    assert forall|j: int| #[trigger] t1.occupied(j) implies (t0.occupied(j) || j
                        == xi) by {
                        assert(tb.occupied(j));
                        assert(ta.occupied(j));
                    }
                    assert forall|j: int|
                        t0.occupied(j) || j == xi implies #[trigger] t1.occupied(j) by {
                        assert(ta.occupied(j));
                        assert(tb.occupied(j));
                    }
                    assert(t1.occupied(xi));
                    assert(t1.valid(new_root_id));
                    assert(t0.grows_by(t1, new_root_id));
                    // the displaced root keeps its payload and children
                    assert(ta.node_at(ci) == t0.node_at(ci)) by {
                        Self::lemma_same_at(t0, ta, set![xi], ci);
                    }
                    assert(t1.node_at(ci).data == t0.node_at(ci).data);
                    assert(t1.children_of(ci) == t0.children_of(ci));
                    assert(t1.node_at(xi).data == new_root.data);
                    assert(t1.node_at(xi).parent is None);
                }
            },
            None => {
                proof {
                    let t1 = *self;
                    let xi = new_root_id.index as int;
                    assert(t1.core_tree.nodes@ == ta.core_tree.nodes@);
                    assert(t1.children_of(xi).len() == 0);
                    assert(t0.same_except(t1, set![xi]));
                    assert forall|j: int| #[trigger] t1.occupied(j) implies (t0.occupied(j) || j
                        == xi) by {
                        assert(ta.occupied(j));
                    }
                    assert forall|j: int|
                        t0.occupied(j) || j == xi implies #[trigger] t1.occupied(j) by {
                        assert(ta.occupied(j));
                    }
                    assert(ta.valid(new_root_id));
                    assert(t1.occupied(xi));
                    assert(t1.valid(new_root_id));
                    assert(t0.grows_by(t1, new_root_id));
                }
            },
        }
        new_root_id
    }

    /// Add a new `Node` to the tree as the last child of the `Node` the given
    /// handle points to.  Returns the handle of the inserted child, or the
    /// error saying why the parent handle is invalid; on error nothing is
    /// changed.
    pub fn insert_with_parent(&mut self, child: Node<T>, parent_id: &NodeId) -> (r: Result<
        NodeId,
        NodeIdError,
    >)
        requires
            old(self).wf(),
            old(self).in_bounds(*parent_id),
            child.parent is None,
            child.children@.len() == 0,
        ensures
            final(self).wf(),
            old(self).valid(*parent_id) ==> (r matches Ok(id) && {
                &&& old(self).grows_by(*final(self), id)
                &&& old(self).allocates(*final(self), id)
                &&& old(self).same_except(
                    *final(self),
                    set![id.index as int, parent_id.index as int],
                )
                &&& final(self).node_at(id.index as int).data == child.data
                &&& final(self).node_at(id.index as int).parent == Some(*parent_id)
                &&& final(self).children_of(id.index as int).len() == 0
                &&& final(self).children_of(parent_id.index as int) == old(self).children_of(
                    parent_id.index as int,
                ).push(id)
                &&& final(self).node_at(parent_id.index as int).parent == old(self).node_at(
                    parent_id.index as int,
                ).parent
                &&& final(self).node_at(parent_id.index as int).data == old(self).node_at(
                    parent_id.index as int,
                ).data
                &&& final(self).core_tree.root == old(self).core_tree.root
            }),
            !old(self).valid(*parent_id) ==> *final(self) == *old(self),
            parent_id.tree_id != old(self).core_tree.id ==> r == Err::<NodeId, _>(
                NodeIdError::InvalidNodeIdForTree,
            ),
            parent_id.tree_id == old(self).core_tree.id && !old(self).valid(*parent_id) ==> r
                == Err::<NodeId, _>(NodeIdError::NodeIdNoLongerValid),
    {
        let ghost t0 = *old(self);
        let (is_valid, error) = self.core_tree.is_valid_node_id(parent_id);
        if !is_valid {
            return Err(match error {
                Some(e) => e,
                None => vstd::pervasive::unreached(),
            });
        }
        let new_child_id = self.insert_new_node(child);
        let ghost tmid = *self;
        proof {
            let ta = *self;
            let xi = new_child_id.index as int;
            let pi = parent_id.index as int;
            if new_child_id == *parent_id {
                assert(ta.occupied(xi));
                assert(t0.valid(new_child_id));
                assert(false);
            }
            assert(t0.occupied(pi));
            assert(ta.occupied(pi) <==> (t0.occupied(pi) || pi == xi));
            assert(ta.valid(*parent_id));
            // the parent's chain cannot pass the fresh, unreferenced node
            if ta.is_desc(pi, xi) {
                let f = choose|f: nat| ta.on_chain(pi, xi, f);
                assert(ta.no_parent_ref(new_child_id)) by {
                    assert forall|i: int| #[trigger] ta.occupied(i) implies ta.node_at(i).parent
                        != Some(new_child_id) by {
                        assert(ta.unreferenced(new_child_id));
                    }
                }
                ta.lemma_no_parent_ref_chain(new_child_id, pi, f);
                assert(false);
            }
            assert(ta.core_tree.root != Some(new_child_id));
        }
        self.set_as_parent_and_child(parent_id, &new_child_id);
        proof {
            broadcast use vstd::set_lib::group_set_lib_default;

            let t1 = *self;
            let ta2 = *old(self);
            let xi = new_child_id.index as int;
            let pi = parent_id.index as int;
            assert forall|j: int|
                0 <= j < t1.n() && !set![xi, pi].contains(j) implies t1.core_tree.nodes@[j] == (
            if j < t0.n() {
                t0.core_tree.nodes@[j]
            } else {
                None
            }) by {
                assert(j != xi && j != pi);
                Self::lemma_same_at(tmid, t1, set![pi, xi], j);
                if j < tmid.n() {
                    Self::lemma_same_at(t0, tmid, set![xi], j);
                }
            }
            assert(t0.same_except(t1, set![xi, pi]));
            Self::lemma_same_at(t0, tmid, set![xi], pi);
            assert(tmid.node_at(pi) == t0.node_at(pi));
            assert forall|j: int| #[trigger] t1.occupied(j) implies (t0.occupied(j) || j
                == xi) by {}
            assert forall|j: int| t0.occupied(j) || j == xi implies #[trigger] t1.occupied(j) by {}
            assert(t0.grows_by(t1, new_child_id));
        }
        Ok(new_child_id)
    }

    /// Inserts a new `Node` into the tree, either as the root or under an
    /// existing `Node`, as the `InsertBehavior` directs.  Returns the handle
    /// of the inserted `Node`, or the error saying why the given handle is
    /// invalid; on error nothing is changed.
    pub fn insert(&mut self, node: Node<T>, behavior: InsertBehavior<'_>) -> (r: Result<
        NodeId,
        NodeIdError,
    >)
        requires
            old(self).wf(),
            node.parent is None,
            node.children@.len() == 0,
            behavior matches InsertBehavior::UnderNode(p) ==> old(self).in_bounds(*p),
        ensures
            final(self).wf(),
            behavior matches InsertBehavior::AsRoot ==> (r matches Ok(id) && {
                &&& old(self).grows_by(*final(self), id)
                &&& old(self).allocates(*final(self), id)
                &&& final(self).core_tree.root == Some(id)
                &&& final(self).node_at(id.index as int).data == node.data
                &&& final(self).node_at(id.index as int).parent is None
                &&& match old(self).core_tree.root {
                    Some(old_root) => final(self).children_of(id.index as int) == seq![old_root]
                        && final(self).node_at(old_root.index as int).parent == Some(id),
                    None => final(self).children_of(id.index as int).len() == 0,
                }
            }),
            behavior matches InsertBehavior::UnderNode(p) ==> (old(self).valid(*p) ==> (r
                matches Ok(id) && {
                &&& old(self).grows_by(*final(self), id)
                &&& old(self).allocates(*final(self), id)
                &&& old(self).same_except(*final(self), set![id.index as int, p.index as int])
                &&& final(self).node_at(id.index as int).data == node.data
                &&& final(self).node_at(id.index as int).parent == Some(*p)
                &&& final(self).children_of(id.index as int).len() == 0
                &&& final(self).children_of(p.index as int) == old(self).children_of(
                    p.index as int,
                ).push(id)
                &&& final(self).node_at(p.index as int).data == old(self).node_at(
                    p.index as int,
                ).data
                &&& final(self).node_at(p.index as int).parent == old(self).node_at(
                    p.index as int,
                ).parent
                &&& final(self).core_tree.root == old(self).core_tree.root
            })),
            behavior matches InsertBehavior::UnderNode(p) ==> (!old(self).valid(*p)
                ==> *final(self) == *old(self)),
            behavior matches InsertBehavior::UnderNode(p) ==> (p.tree_id != old(self).core_tree.id
                ==> r == Err::<NodeId, _>(NodeIdError::InvalidNodeIdForTree)),
            behavior matches InsertBehavior::UnderNode(p) ==> (p.tree_id == old(self).core_tree.id
                && !old(self).valid(*p) ==> r == Err::<NodeId, _>(
                NodeIdError::NodeIdNoLongerValid,
            )),
    {
        match behavior {
            InsertBehavior::AsRoot => Ok(self.set_root(node)),
            InsertBehavior::UnderNode(parent_id) => self.insert_with_parent(node, parent_id),
        }
    }
}

} // verus!
