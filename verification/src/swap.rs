//! Swapping two nodes of a `Tree`, subtrees included.
//!
//! Both handles stay valid and keep naming the same nodes; only the
//! structure around them changes.  When one node is an ancestor of the
//! other, the descendant takes over the ancestor's place in the tree and the
//! ancestor becomes the descendant's last child; otherwise the two nodes
//! exchange the positions they hold in their parents' child lists.

use vstd::prelude::*;

use crate::error::NodeIdError;
use crate::node::Node;
use crate::tree::removed_one;
use crate::tree::Tree;
use crate::NodeId;

verus! {

/// `new_s` is `old_s` with the single occurrence of `a` replaced by `b`.
pub open spec fn replaced_one(old_s: Seq<NodeId>, new_s: Seq<NodeId>, a: NodeId, b: NodeId) -> bool {
    &&& new_s.len() == old_s.len()
    &&& forall|k: int|
        0 <= k < old_s.len() ==> new_s[k] == (if old_s[k] == a {
            b
        } else {
            old_s[k]
        })
}

/// `new_s` is `old_s` with the occurrences of `a` and `b` exchanged.
pub open spec fn exchanged(old_s: Seq<NodeId>, new_s: Seq<NodeId>, a: NodeId, b: NodeId) -> bool {
    &&& new_s.len() == old_s.len()
    &&& forall|k: int|
        0 <= k < old_s.len() ==> new_s[k] == (if old_s[k] == a {
            b
        } else if old_s[k] == b {
            a
        } else {
            old_s[k]
        })
}

impl<T> Tree<T> {
    /// Moves the parentless node `orphan` into the place of `of`: it takes
    /// over `of`'s parent link and position (or the root position), and `of`
    /// becomes parentless.
    fn take_position(&mut self, of: &NodeId, orphan: &NodeId)
        requires
            old(self).wf(),
            old(self).valid(*of),
            old(self).valid(*orphan),
            *of != *orphan,
            old(self).node_at(orphan.index as int).parent is None,
            old(self).core_tree.root != Some(*orphan),
            !old(self).is_desc(of.index as int, orphan.index as int),
        ensures
            final(self).wf(),
            final(self).core_tree.id == old(self).core_tree.id,
            final(self).n() == old(self).n(),
            final(self).core_tree.free_ids == old(self).core_tree.free_ids,
            forall|j: int| #[trigger] final(self).occupied(j) <==> old(self).occupied(j),
            final(self).node_at(of.index as int).parent is None,
            final(self).node_at(of.index as int).data == old(self).node_at(of.index as int).data,
            final(self).node_at(of.index as int).children == old(self).node_at(
                of.index as int,
            ).children,
            final(self).node_at(orphan.index as int).parent == old(self).node_at(
                of.index as int,
            ).parent,
            final(self).node_at(orphan.index as int).data == old(self).node_at(
                orphan.index as int,
            ).data,
            final(self).node_at(orphan.index as int).children == old(self).node_at(
                orphan.index as int,
            ).children,
            final(self).core_tree.root == (if old(self).core_tree.root == Some(*of) {
                Some(*orphan)
            } else {
                old(self).core_tree.root
            }),
            match old(self).parent_of(of.index as int) {
                Some(u) => {
                    &&& final(self).node_at(u.index as int).parent == old(self).node_at(
                        u.index as int,
                    ).parent
                    &&& final(self).node_at(u.index as int).data == old(self).node_at(
                        u.index as int,
                    ).data
                    &&& replaced_one(
                        old(self).children_of(u.index as int),
                        final(self).children_of(u.index as int),
                        *of,
                        *orphan,
                    )
                },
                None => true,
            },
            forall|j: int|
                old(self).occupied(j) && j != of.index as int && j != orphan.index as int && (
                match old(self).parent_of(of.index as int) {
                    Some(u) => j != u.index as int,
                    None => true,
                }) ==> #[trigger] final(self).node_at(j) == old(self).node_at(j),
    {
        let ghost t0 = *old(self);
        let ghost oi = of.index as int;
        let ghost ri = orphan.index as int;
        let ghost fuel = choose|f: nat| t0.all_rooted(f);
        proof {
            assert(t0.occupied(oi));
            assert(t0.occupied(ri));
            assert(t0.rooted(oi, fuel));
            t0.lemma_links_at(oi);
            t0.lemma_links_at(ri);
            t0.lemma_n_fits();
            t0.lemma_no_self_parent(oi, fuel);
            assert(oi != ri);
            match t0.parent_of(oi) {
                Some(u) => {
                    assert(t0.valid(u));
                    assert(u.index as int != oi);
                    assert(u.index as int != ri) by {
                        if u.index as int == ri {
                            assert(t0.on_chain(ri, ri, 0));
                            assert(t0.on_chain(oi, ri, 1));
                            assert(t0.is_desc(oi, ri));
                            assert(false);
                        }
                    }
                },
                None => {
                },
            }
        }
        let up_opt = self.core_tree.get_unsafe(of).parent();
        match up_opt {
            Some(up) => {
                proof {
                    assert(t0.valid(up));
                    assert(t0.occupied(up.index as int));
                    t0.lemma_links_at(up.index as int);
                    assert(t0.children_of(up.index as int).contains(*of));
                    assert(t0.children_of(up.index as int).no_duplicates());
                }
                match self.core_tree.get_mut(&up) {
                    Ok(un) => un.replace_child(*of, *orphan),
                    Err(_) => proof {
                        assert(false);
                    },
                }
            },
            None => {
                let is_root = match self.core_tree.root.as_ref() {
                    Some(r) => *r == *of,
                    None => false,
                };
                if is_root {
                    self.core_tree.root = Some(*orphan);
                }
            },
        }
        match self.core_tree.get_mut(orphan) {
            Ok(rn) => rn.set_parent(up_opt),
            Err(_) => proof {
                assert(false);
            },
        }
        match self.core_tree.get_mut(of) {
            Ok(on) => on.set_parent(None),
            Err(_) => proof {
                assert(false);
            },
        }
        proof {
            Self::lemma_take_position_wf(t0, *self, *of, *orphan);
        }
    }

    /// Swaps two `Node`s of the `Tree`, children included.
    ///
    /// Both handles are still valid afterwards and name the same nodes.  If
    /// one node is an ancestor of the other, the descendant takes over the
    /// ancestor's former position and the ancestor becomes the descendant's
    /// last child.  Otherwise the two nodes keep their subtrees and exchange
    /// the positions they hold in their parents' child lists.  Swapping a
    /// slot with itself changes nothing.  On an invalid handle nothing is
    /// changed.
    ///
    /// When the two nodes are unrelated and sit under different parents,
    /// each must actually have a parent: the swap hands each node the
    /// position the other held, and a parentless unrelated node has no
    /// position to hand over.
    pub fn swap_sub_tree(&mut self, first_id: &NodeId, second_id: &NodeId) -> (r: Result<
        (),
        NodeIdError,
    >)
        requires
            old(self).wf(),
            old(self).in_bounds(*first_id),
            old(self).in_bounds(*second_id),
            // when the nodes are unrelated and sit under different parents,
            // each must have a parent position for the other to take over
            old(self).valid(*first_id) && old(self).valid(*second_id) && !old(self).is_desc(
                first_id.index as int,
                second_id.index as int,
            ) && !old(self).is_desc(second_id.index as int, first_id.index as int) && old(self).parent_of(first_id.index as int) != old(self).parent_of(second_id.index as int)
                ==> (old(self).parent_of(first_id.index as int) is Some && old(self).parent_of(
                second_id.index as int,
            ) is Some),
        ensures
            final(self).wf(),
            !(old(self).valid(*first_id) && old(self).valid(*second_id)) ==> *final(self) == *old(self),
            first_id.tree_id != old(self).core_tree.id ==> r == Err::<(), _>(
                NodeIdError::InvalidNodeIdForTree,
            ),
            first_id.tree_id == old(self).core_tree.id && !old(self).valid(*first_id) ==> r
                == Err::<(), _>(NodeIdError::NodeIdNoLongerValid),
            old(self).valid(*first_id) && second_id.tree_id != old(self).core_tree.id ==> r
                == Err::<(), _>(NodeIdError::InvalidNodeIdForTree),
            old(self).valid(*first_id) && second_id.tree_id == old(self).core_tree.id && !old(self).valid(*second_id) ==> r == Err::<(), _>(NodeIdError::NodeIdNoLongerValid),
            old(self).valid(*first_id) && old(self).valid(*second_id) ==> r is Ok,
            old(self).valid(*first_id) && old(self).valid(*second_id) && first_id.index
                == second_id.index ==> *final(self) == *old(self),
            // unrelated nodes under the same parent: their positions in that
            // child list are exchanged and nothing else changes
            old(self).valid(*first_id) && old(self).valid(*second_id) && first_id.index
                != second_id.index && !old(self).is_desc(
                first_id.index as int,
                second_id.index as int,
            ) && !old(self).is_desc(second_id.index as int, first_id.index as int) ==> {
                let fi = first_id.index as int;
                let si = second_id.index as int;
                &&& final(self).core_tree.id == old(self).core_tree.id
                &&& final(self).n() == old(self).n()
                &&& final(self).core_tree.free_ids == old(self).core_tree.free_ids
                &&& final(self).core_tree.root == old(self).core_tree.root
                &&& (forall|j: int|
                    #[trigger] final(self).occupied(j) <==> old(self).occupied(j))
                &&& final(self).node_at(fi).data == old(self).node_at(fi).data
                &&& final(self).node_at(si).data == old(self).node_at(si).data
                &&& final(self).node_at(fi).children == old(self).node_at(fi).children
                &&& final(self).node_at(si).children == old(self).node_at(si).children
                &&& (old(self).parent_of(fi) == old(self).parent_of(si) ==> {
                    &&& final(self).node_at(fi).parent == old(self).node_at(fi).parent
                    &&& final(self).node_at(si).parent == old(self).node_at(si).parent
                    &&& match old(self).parent_of(fi) {
                        Some(c) => exchanged(
                            old(self).children_of(c.index as int),
                            final(self).children_of(c.index as int),
                            *first_id,
                            *second_id,
                        ) && final(self).node_at(c.index as int).parent == old(self).node_at(
                            c.index as int,
                        ).parent && final(self).node_at(c.index as int).data == old(self).node_at(
                            c.index as int,
                        ).data,
                        None => true,
                    }
                    &&& (forall|j: int|
                        old(self).occupied(j) && (match old(self).parent_of(fi) {
                            Some(c) => j != c.index as int,
                            None => true,
                        }) ==> #[trigger] final(self).node_at(j) == old(self).node_at(j))
                })
                &&& (old(self).parent_of(fi) != old(self).parent_of(si) ==> {
                    let pa = old(self).parent_of(fi).unwrap();
                    let pb = old(self).parent_of(si).unwrap();
                    &&& final(self).node_at(fi).parent == Some(pb)
                    &&& final(self).node_at(si).parent == Some(pa)
                    &&& replaced_one(
                        old(self).children_of(pa.index as int),
                        final(self).children_of(pa.index as int),
                        *first_id,
                        *second_id,
                    )
                    &&& replaced_one(
                        old(self).children_of(pb.index as int),
                        final(self).children_of(pb.index as int),
                        *second_id,
                        *first_id,
                    )
                    &&& final(self).node_at(pa.index as int).parent == old(self).node_at(
                        pa.index as int,
                    ).parent
                    &&& final(self).node_at(pb.index as int).parent == old(self).node_at(
                        pb.index as int,
                    ).parent
                    &&& final(self).node_at(pa.index as int).data == old(self).node_at(
                        pa.index as int,
                    ).data
                    &&& final(self).node_at(pb.index as int).data == old(self).node_at(
                        pb.index as int,
                    ).data
                    &&& (forall|j: int|
                        old(self).occupied(j) && j != fi && j != si && j != pa.index as int && j
                            != pb.index as int ==> #[trigger] final(self).node_at(j) == old(self).node_at(j))
                })
            },
            // one node below the other: the lower one takes the upper one's
            // place and the upper one becomes its last child
            old(self).valid(*first_id) && old(self).valid(*second_id) && first_id.index
                != second_id.index && (old(self).is_desc(
                first_id.index as int,
                second_id.index as int,
            ) || old(self).is_desc(second_id.index as int, first_id.index as int)) ==> {
                &&& final(self).core_tree.id == old(self).core_tree.id
                &&& final(self).n() == old(self).n()
                &&& final(self).core_tree.free_ids == old(self).core_tree.free_ids
                &&& (forall|j: int| #[trigger] final(self).occupied(j) <==> old(self).occupied(j))
                &&& final(self).valid(*first_id)
                &&& final(self).valid(*second_id)
                &&& exists|lower: NodeId, upper: NodeId|
                    {
                        let li = lower.index as int;
                        let ui = upper.index as int;
                        &&& #[trigger] old(self).valid(lower)
                        &&& #[trigger] old(self).valid(upper)
                        &&& old(self).is_desc(li, ui)
                        &&& ((lower == *first_id && upper == *second_id) || (lower == *second_id
                            && upper == *first_id))
                        &&& final(self).node_at(ui).parent == Some(lower)
                        &&& final(self).node_at(li).parent == old(self).node_at(ui).parent
                        &&& final(self).node_at(li).data == old(self).node_at(li).data
                        &&& final(self).node_at(ui).data == old(self).node_at(ui).data
                        &&& final(self).children_of(li) == old(self).children_of(li).push(upper)
                        &&& final(self).children_of(li).len() > 0
                        &&& final(self).children_of(li).last() == upper
                        &&& (old(self).parent_of(li) != Some(upper) ==> final(self).children_of(ui)
                            == old(self).children_of(ui))
                        &&& final(self).core_tree.root == (if old(self).core_tree.root == Some(
                            upper,
                        ) {
                            Some(lower)
                        } else {
                            old(self).core_tree.root
                        })
                        &&& match old(self).parent_of(ui) {
                            Some(u2) => replaced_one(
                                old(self).children_of(u2.index as int),
                                final(self).children_of(u2.index as int),
                                upper,
                                lower,
                            ),
                            None => true,
                        }
                        &&& match old(self).parent_of(li) {
                            Some(lp) => {
                                &&& removed_one(
                                    old(self).children_of(lp.index as int),
                                    final(self).children_of(lp.index as int),
                                    lower,
                                )
                                &&& final(self).node_at(lp.index as int).data == old(self).node_at(
                                    lp.index as int,
                                ).data
                            },
                            None => true,
                        }
                        &&& (forall|j: int|
                            old(self).occupied(j) && j != li && j != ui && (match old(
                                self,
                            ).parent_of(li) {
                                Some(lp) => j != lp.index as int,
                                None => true,
                            }) && (match old(self).parent_of(ui) {
                                Some(u2) => j != u2.index as int,
                                None => true,
                            }) ==> #[trigger] final(self).node_at(j) == old(self).node_at(j))
                    }
            },
    {
        let ghost t0 = *old(self);
        let (is_valid, error) = self.core_tree.is_valid_node_id(first_id);
        if !is_valid {
            return Err(match error {
                Some(e) => e,
                None => vstd::pervasive::unreached(),
            });
        }
        let (is_valid, error) = self.core_tree.is_valid_node_id(second_id);
        if !is_valid {
            return Err(match error {
                Some(e) => e,
                None => vstd::pervasive::unreached(),
            });
        }
        if first_id.index == second_id.index {
            return Ok(());
        }
        let ghost fi = first_id.index as int;
        let ghost si = second_id.index as int;
        let ghost fuel = choose|f: nat| t0.all_rooted(f);
        proof {
            assert(t0.occupied(fi));
            assert(t0.occupied(si));
            assert(t0.rooted(fi, fuel));
            assert(t0.rooted(si, fuel));
            t0.lemma_n_fits();
        }
        let lower_upper = match self.find_subtree_root_between_ids(first_id, second_id) {
            Some(_) => Some((*first_id, *second_id)),
            None => match self.find_subtree_root_between_ids(second_id, first_id) {
                Some(_) => Some((*second_id, *first_id)),
                None => None,
            },
        };
        match lower_upper {
            Some((lower_id, upper_id)) => {
                self.swap_with_ancestor(&lower_id, &upper_id);
                Ok(())
            },
            None => {
                proof {
                    assert(!t0.is_desc(fi, si) && !t0.is_desc(si, fi));
                }
                let first_parent = self.core_tree.get_unsafe(first_id).parent();
                let second_parent = self.core_tree.get_unsafe(second_id).parent();
                let same_parent = match (first_parent, second_parent) {
                    (Some(a), Some(b)) => a == b,
                    (None, None) => true,
                    _ => false,
                };
                if same_parent {
                    match first_parent {
                        Some(parent_id) => {
                            self.swap_same_parent(first_id, second_id, &parent_id);
                            proof {
                                let t1 = *self;
                                t0.lemma_no_self_parent(fi, fuel);
                                t0.lemma_no_self_parent(si, fuel);
                                assert(parent_id.index as int != fi && parent_id.index as int
                                    != si);
                                assert(t1.node_at(fi) == t0.node_at(fi));
                                assert(t1.node_at(si) == t0.node_at(si));
                            }
                        },
                        None => {
                            // two parentless nodes have no positions to
                            // exchange
                        },
                    }
                } else {
                    let pa = match first_parent {
                        Some(p) => p,
                        None => vstd::pervasive::unreached(),
                    };
                    let pb = match second_parent {
                        Some(p) => p,
                        None => vstd::pervasive::unreached(),
                    };
                    self.swap_across(first_id, second_id, &pa, &pb);
                }
                Ok(())
            },
        }
    }

    /// Exchanges the positions of two unrelated children of one parent.
    fn swap_same_parent(&mut self, first_id: &NodeId, second_id: &NodeId, parent_id: &NodeId)
        requires
            old(self).wf(),
            old(self).valid(*first_id),
            old(self).valid(*second_id),
            old(self).parent_of(first_id.index as int) == Some(*parent_id),
            old(self).parent_of(second_id.index as int) == Some(*parent_id),
        ensures
            final(self).wf(),
            final(self).core_tree.id == old(self).core_tree.id,
            final(self).n() == old(self).n(),
            final(self).core_tree.free_ids == old(self).core_tree.free_ids,
            final(self).core_tree.root == old(self).core_tree.root,
            forall|j: int| #[trigger] final(self).occupied(j) <==> old(self).occupied(j),
            exchanged(
                old(self).children_of(parent_id.index as int),
                final(self).children_of(parent_id.index as int),
                *first_id,
                *second_id,
            ),
            final(self).node_at(parent_id.index as int).parent == old(self).node_at(
                parent_id.index as int,
            ).parent,
            final(self).node_at(parent_id.index as int).data == old(self).node_at(
                parent_id.index as int,
            ).data,
            forall|j: int|
                old(self).occupied(j) && j != parent_id.index as int ==> #[trigger] final(self).node_at(j) == old(self).node_at(j),
    {
        let ghost t0 = *old(self);
        let ghost pi = parent_id.index as int;
        proof {
            assert(t0.occupied(first_id.index as int));
            assert(t0.occupied(second_id.index as int));
            t0.lemma_links_at(first_id.index as int);
            t0.lemma_links_at(second_id.index as int);
            assert(t0.valid(*parent_id));
            assert(t0.occupied(pi));
            t0.lemma_links_at(pi);
            t0.lemma_n_fits();
            assert(t0.children_of(pi).contains(*first_id));
            assert(t0.children_of(pi).contains(*second_id));
        }
        match self.core_tree.get_mut(parent_id) {
            Ok(p) => p.exchange_children(*first_id, *second_id),
            Err(_) => proof {
                assert(false);
            },
        }
        proof {
            let t1 = *self;
            Self::lemma_wf_free_same_occupancy(t0, t1);
            // the child list was permuted: membership is unchanged
            assert forall|x: NodeId| #[trigger] t1.children_of(pi).contains(x)
                <==> t0.children_of(pi).contains(x) by {
                if t1.children_of(pi).contains(x) {
                    let k = choose|k: int|
                        0 <= k < t1.children_of(pi).len() && t1.children_of(pi)[k] == x;
                    assert(t0.children_of(pi).contains(t0.children_of(pi)[k]));
                }
                if t0.children_of(pi).contains(x) {
                    let k = choose|k: int|
                        0 <= k < t0.children_of(pi).len() && t0.children_of(pi)[k] == x;
                    if t0.children_of(pi)[k] == *first_id {
                        let m = choose|m: int|
                            0 <= m < t0.children_of(pi).len() && t0.children_of(pi)[m]
                                == *second_id;
                        assert(t1.children_of(pi)[m] == *first_id);
                        assert(t1.children_of(pi).contains(x));
                    } else if t0.children_of(pi)[k] == *second_id {
                        let m = choose|m: int|
                            0 <= m < t0.children_of(pi).len() && t0.children_of(pi)[m]
                                == *first_id;
                        assert(t1.children_of(pi)[m] == *second_id);
                        assert(t1.children_of(pi).contains(x));
                    } else {
                        assert(t1.children_of(pi)[k] == x);
                        assert(t1.children_of(pi).contains(x));
                    }
                }
            }
            assert(t1.children_of(pi).no_duplicates()) by {
                assert forall|k1: int, k2: int|
                    0 <= k1 < k2 < t1.children_of(pi).len() implies t1.children_of(pi)[k1]
                        != t1.children_of(pi)[k2] by {
                    assert(t0.children_of(pi)[k1] != t0.children_of(pi)[k2]);
                }
            }
            // links
            assert forall|i: int| #[trigger] t1.occupied(i) implies t1.parent_link_ok(i)
                && t1.child_links_ok(i) by {
                assert(t0.occupied(i));
                t0.lemma_links_at(i);
                match t1.node_at(i).parent {
                    Some(p) => {
                        assert(t1.node_at(i).parent == t0.node_at(i).parent) by {
                            if i != pi {
                                assert(t1.node_at(i) == t0.node_at(i));
                            }
                        }
                        assert(t0.valid(p));
                        assert(t1.occupied(p.index as int));
                        assert(t1.valid(p));
                        if p.index as int == pi {
                            assert(t1.children_of(pi).contains(t1.mk_id(i)));
                        } else {
                            assert(t1.node_at(p.index as int) == t0.node_at(p.index as int));
                            assert(t1.children_of(p.index as int).contains(t1.mk_id(i)));
                        }
                    },
                    None => {
                    },
                }
                if i == pi {
                    assert forall|c: int| 0 <= c < t1.children_of(pi).len() implies t1.valid(
                        #[trigger] t1.children_of(pi)[c],
                    ) && t1.node_at(t1.children_of(pi)[c].index as int).parent == Some(
                        t1.mk_id(pi),
                    ) by {
                        let e = t1.children_of(pi)[c];
                        assert(t0.children_of(pi).contains(e));
                        let k = choose|k: int|
                            0 <= k < t0.children_of(pi).len() && t0.children_of(pi)[k] == e;
                        assert(t0.valid(e));
                        assert(t0.node_at(e.index as int).parent == Some(t0.mk_id(pi)));
                        assert(t1.occupied(e.index as int));
                        assert(e.index as int != pi) by {
                            if e.index as int == pi {
                                let f2 = choose|f2: nat| t0.all_rooted(f2);
                                assert(t0.rooted(pi, f2));
                                t0.lemma_no_self_parent(pi, f2);
                                assert(false);
                            }
                        }
                        assert(t1.node_at(e.index as int) == t0.node_at(e.index as int));
                    }
                } else {
                    assert(t1.node_at(i) == t0.node_at(i));
                    assert forall|c: int| 0 <= c < t1.children_of(i).len() implies t1.valid(
                        #[trigger] t1.children_of(i)[c],
                    ) && t1.node_at(t1.children_of(i)[c].index as int).parent == Some(
                        t1.mk_id(i),
                    ) by {
                        let e = t0.children_of(i)[c];
                        assert(t0.valid(e));
                        assert(t0.node_at(e.index as int).parent == Some(t0.mk_id(i)));
                        assert(t1.occupied(e.index as int));
                        if e.index as int == pi {
                            assert(t1.node_at(pi).parent == t0.node_at(pi).parent);
                        } else {
                            assert(t1.node_at(e.index as int) == t0.node_at(e.index as int));
                        }
                    }
                }
            }
            // root
            match t1.core_tree.root {
                Some(rt) => {
                    assert(t0.valid(rt));
                    assert(t1.occupied(rt.index as int));
                    assert(t1.node_at(rt.index as int).parent is None) by {
                        if rt.index as int == pi {
                            assert(t1.node_at(pi).parent == t0.node_at(pi).parent);
                        } else {
                            assert(t1.node_at(rt.index as int) == t0.node_at(rt.index as int));
                        }
                    }
                },
                None => {
                },
            }
            // acyclicity: no parent link changed
            let fuel = choose|f: nat| t0.all_rooted(f);
            assert forall|i: int| #[trigger] t1.occupied(i) implies t1.rooted(i, fuel) by {
                assert(t0.occupied(i));
                assert(t0.rooted(i, fuel));
                assert forall|j: int| #[trigger] t0.on_chain(i, j, fuel) implies t1.occupied(j)
                    && t1.node_at(j).parent == t0.node_at(j).parent by {
                    Self::lemma_chain_occupied(t0, i, j, fuel);
                    if j == pi {
                        assert(t1.node_at(j).parent == t0.node_at(j).parent);
                    } else {
                        assert(t1.node_at(j) == t0.node_at(j));
                    }
                }
                t0.lemma_chain_frame(t1, i, fuel);
            }
            assert(t1.all_rooted(fuel));
        }
    }

    /// Swaps a node with one of its proper ancestors: the lower node takes
    /// over the upper node's place, and the upper node becomes the lower
    /// node's last child.
    fn swap_with_ancestor(&mut self, lower_id: &NodeId, upper_id: &NodeId)
        requires
            old(self).wf(),
            old(self).valid(*lower_id),
            old(self).valid(*upper_id),
            lower_id.index != upper_id.index,
            old(self).is_desc(lower_id.index as int, upper_id.index as int),
        ensures
            final(self).wf(),
            final(self).core_tree.id == old(self).core_tree.id,
            final(self).n() == old(self).n(),
            final(self).core_tree.free_ids == old(self).core_tree.free_ids,
            forall|j: int| #[trigger] final(self).occupied(j) <==> old(self).occupied(j),
            final(self).node_at(upper_id.index as int).parent == Some(*lower_id),
            final(self).node_at(lower_id.index as int).parent == old(self).node_at(
                upper_id.index as int,
            ).parent,
            final(self).children_of(lower_id.index as int).len() > 0,
            final(self).children_of(lower_id.index as int).last() == *upper_id,
            final(self).core_tree.root == (if old(self).core_tree.root == Some(*upper_id) {
                Some(*lower_id)
            } else {
                old(self).core_tree.root
            }),
            match old(self).parent_of(upper_id.index as int) {
                Some(u2) => replaced_one(
                    old(self).children_of(u2.index as int),
                    final(self).children_of(u2.index as int),
                    *upper_id,
                    *lower_id,
                ),
                None => true,
            },
            final(self).node_at(lower_id.index as int).data == old(self).node_at(
                lower_id.index as int,
            ).data,
            final(self).node_at(upper_id.index as int).data == old(self).node_at(
                upper_id.index as int,
            ).data,
            final(self).children_of(lower_id.index as int) == old(self).children_of(
                lower_id.index as int,
            ).push(*upper_id),
            old(self).parent_of(lower_id.index as int) != Some(*upper_id) ==> final(self).children_of(
                upper_id.index as int,
            ) == old(self).children_of(upper_id.index as int),
            match old(self).parent_of(lower_id.index as int) {
                Some(lp) => {
                    &&& removed_one(
                        old(self).children_of(lp.index as int),
                        final(self).children_of(lp.index as int),
                        *lower_id,
                    )
                    &&& final(self).node_at(lp.index as int).data == old(self).node_at(
                        lp.index as int,
                    ).data
                },
                None => true,
            },
            forall|j: int|
                old(self).occupied(j) && j != lower_id.index as int && j != upper_id.index as int
                    && (match old(self).parent_of(lower_id.index as int) {
                    Some(lp) => j != lp.index as int,
                    None => true,
                }) && (match old(self).parent_of(upper_id.index as int) {
                    Some(u2) => j != u2.index as int,
                    None => true,
                }) ==> #[trigger] final(self).node_at(j) == old(self).node_at(j),
    {
        let ghost t0 = *old(self);
        let ghost li = lower_id.index as int;
        let ghost ui = upper_id.index as int;
        let ghost fuel = choose|f: nat| t0.all_rooted(f);
        proof {
            assert(t0.occupied(li) && t0.occupied(ui));
            assert(t0.rooted(li, fuel) && t0.rooted(ui, fuel));
            t0.lemma_links_at(li);
            t0.lemma_links_at(ui);
            t0.lemma_n_fits();
            assert(t0.on_chain(li, ui, fuel)) by {
                let g = choose|g: nat| t0.on_chain(li, ui, g);
                t0.lemma_on_chain_fuel(li, ui, fuel, g);
            }
            // the lower node, being a proper descendant, has a parent
            match t0.parent_of(li) {
                Some(_) => {
                },
                None => {
                    assert(!t0.on_chain(li, ui, fuel));
                    assert(false);
                },
            }
            // the root is not the lower node
            assert(t0.core_tree.root != Some(*lower_id)) by {
                match t0.core_tree.root {
                    Some(rt) => {
                        if rt == *lower_id {
                            assert(t0.node_at(li).parent is None);
                        }
                    },
                    None => {
                    },
                }
            }
        }
        self.detach_from_parent(lower_id);
        let ghost tm = *self;
        proof {
            // the upper node's chain is untouched by the detach and avoids
            // the lower node
            let lp = t0.parent_of(li).unwrap();
            assert(tm.node_at(ui).parent == t0.node_at(ui).parent) by {
                if ui != lp.index as int {
                    assert(tm.node_at(ui) == t0.node_at(ui));
                }
            }
            assert(tm.valid(*upper_id) && tm.valid(*lower_id));
            assert(tm.node_at(li).parent is None);
            assert(tm.core_tree.root != Some(*lower_id));
            if tm.is_desc(ui, li) {
                let f = choose|f: nat| tm.on_chain(ui, li, f);
                let fm = choose|fm: nat| tm.all_rooted(fm);
                assert(tm.occupied(ui));
                assert(tm.rooted(ui, fm));
                tm.lemma_on_chain_fuel(ui, li, fm, f);
                assert(t0.rooted(ui, fuel));
                assert forall|j: int| #[trigger] t0.on_chain(ui, j, fuel) implies tm.occupied(j)
                    && tm.node_at(j).parent == t0.node_at(j).parent by {
                    Self::lemma_chain_occupied(t0, ui, j, fuel);
                    assert(j != li) by {
                        if j == li {
                            // the lower node above the upper one is a cycle
                            t0.lemma_chain_antisym(li, ui, fuel, fuel, fuel);
                            assert(false);
                        }
                    }
                    if j == lp.index as int {
                        assert(tm.node_at(j).parent == t0.node_at(j).parent);
                    } else {
                        assert(tm.node_at(j) == t0.node_at(j));
                    }
                }
                t0.lemma_chain_frame(tm, ui, fuel);
                tm.lemma_on_chain_fuel(ui, li, fuel, fm);
                assert(t0.on_chain(ui, li, fuel));
                t0.lemma_chain_antisym(li, ui, fuel, fuel, fuel);
                assert(false);
            }
        }
        self.take_position(upper_id, lower_id);
        let ghost tp = *self;
        proof {
            let lp = t0.parent_of(li).unwrap();
            let uc = tm.parent_of(ui);
            assert(tp.valid(*lower_id) && tp.valid(*upper_id));
            assert(tp.node_at(ui).parent is None);
            assert(tp.core_tree.root != Some(*upper_id)) by {
                if tm.core_tree.root == Some(*upper_id) {
                    assert(tp.core_tree.root == Some(*lower_id));
                } else {
                    assert(tm.core_tree.root != Some(*upper_id));
                }
            }
            // the lower node's new chain goes through the upper node's old
            // parent, whose chain avoids both
            if tp.is_desc(li, ui) {
                let f = choose|f: nat| tp.on_chain(li, ui, f);
                match uc {
                    Some(u2) => {
                        let u2i = u2.index as int;
                        assert(tp.node_at(li).parent == Some(u2));
                        assert(li != ui);
                        assert(tp.on_chain(u2i, ui, (f - 1) as nat));
                        // u2's chain is the old one and avoids the upper node
                        assert(tm.parent_of(ui) == t0.parent_of(ui));
                        assert(t0.valid(u2)) by {
                            assert(t0.parent_link_ok(ui));
                        }
                        let u2i0 = u2.index as int;
                        assert(t0.rooted(u2i0, fuel)) by {
                            assert(t0.occupied(u2i0));
                        }
                        assert forall|j: int| #[trigger] t0.on_chain(u2i0, j, fuel) implies
                            tp.occupied(j) && tp.node_at(j).parent == t0.node_at(j).parent by {
                            Self::lemma_chain_occupied(t0, u2i0, j, fuel);
                            t0.lemma_parent_not_desc(ui, u2, fuel, fuel);
                            assert(j != ui);
                            assert(j != li) by {
                                if j == li {
                                    assert(t0.on_chain(ui, ui, 0));
                                    t0.lemma_chain_trans(u2i0, li, ui, fuel, fuel);
                                    t0.lemma_parent_not_desc(ui, u2, fuel + fuel, fuel);
                                    assert(false);
                                }
                            }
                            if j == lp.index as int {
                                assert(tm.node_at(j).parent == t0.node_at(j).parent);
                                assert(tp.node_at(j).parent == tm.node_at(j).parent) by {
                                    if j != u2i0 {
                                        assert(tp.node_at(j) == tm.node_at(j));
                                    }
                                }
                            } else if j == u2i0 {
                                assert(tm.node_at(j) == t0.node_at(j));
                                assert(tp.node_at(j).parent == tm.node_at(j).parent);
                            } else {
                                assert(tm.node_at(j) == t0.node_at(j));
                                assert(tp.node_at(j) == tm.node_at(j));
                            }
                        }
                        t0.lemma_chain_frame(tp, u2i0, fuel);
                        assert(tp.rooted(u2i0, fuel));
                        tp.lemma_on_chain_fuel(u2i0, ui, fuel, (f - 1) as nat);
                        assert(tp.on_chain(u2i0, ui, fuel));
                        assert(t0.on_chain(u2i0, ui, fuel));
                        t0.lemma_parent_not_desc(ui, u2, fuel, fuel);
                        assert(false);
                    },
                    None => {
                        assert(tp.node_at(li).parent is None);
                        assert(li != ui);
                        assert(!tp.on_chain(li, ui, f));
                        assert(false);
                    },
                }
            }
        }
        self.set_as_parent_and_child(lower_id, upper_id);
        proof {
            broadcast use vstd::set_lib::group_set_lib_default;

            let t1 = *self;
            let lp = t0.parent_of(li).unwrap();
            let lpi = lp.index as int;
            assert(t0.valid(lp)) by {
                assert(t0.parent_link_ok(li));
            }
            t0.lemma_no_self_parent(li, fuel);
            assert(lpi != li);
            // the upper node's old parent slot is untouched afterwards
            match t0.parent_of(ui) {
                Some(u2) => {
                    let u2i = u2.index as int;
                    assert(t0.valid(u2)) by {
                        assert(t0.parent_link_ok(ui));
                    }
                    assert(u2i != li) by {
                        if u2i == li {
                            assert(t0.on_chain(ui, ui, 0));
                            assert(t0.on_chain(ui, li, 1));
                            t0.lemma_chain_antisym(li, ui, fuel, 1, fuel);
                            assert(false);
                        }
                    }
                    assert(u2i != ui);
                    assert(u2i != lpi) by {
                        if u2i == lpi {
                            // the lower node's parent would also be the
                            // upper node's parent, yet the lower node sits
                            // strictly below the upper one
                            assert(t0.on_chain(li, ui, fuel));
                            assert(t0.node_at(li).parent == Some(lp));
                            assert(li != ui);
                            assert(t0.on_chain(lpi, ui, (fuel - 1) as nat));
                            t0.lemma_parent_not_desc(ui, u2, (fuel - 1) as nat, fuel);
                            assert(false);
                        }
                    }
                    assert(tm.node_at(u2i) == t0.node_at(u2i));
                    assert(replaced_one(
                        tm.children_of(u2i),
                        tp.children_of(u2i),
                        *upper_id,
                        *lower_id,
                    ));
                    assert(tp.occupied(u2i));
                    Self::lemma_same_at(tp, t1, set![li, ui], u2i);
                    assert(t1.node_at(u2i) == tp.node_at(u2i));
                },
                None => {
                },
            }
            assert(t1.children_of(li) == tp.children_of(li).push(*upper_id));
            assert(tp.children_of(li) == tm.children_of(li));
            assert(tm.children_of(li) == t0.children_of(li)) by {
                if li != lpi {
                    assert(tm.node_at(li).children == t0.node_at(li).children);
                }
            }
            assert(t1.children_of(li).last() == *upper_id);
            assert(t1.node_at(li).parent == tp.node_at(li).parent);
            assert(tp.node_at(li).parent == tm.node_at(ui).parent);
            assert(tm.node_at(ui).parent == t0.node_at(ui).parent) by {
                if ui != lpi {
                    assert(tm.node_at(ui) == t0.node_at(ui));
                }
            }
            // both payloads survive all three steps
            assert(t1.node_at(li).data == t0.node_at(li).data);
            assert(t1.node_at(ui).data == tp.node_at(ui).data);
            assert(tp.node_at(ui).data == tm.node_at(ui).data);
            assert(tm.node_at(ui).data == t0.node_at(ui).data) by {
                if ui != lpi {
                    assert(tm.node_at(ui) == t0.node_at(ui));
                }
            }
            // the upper node's own child list, when the lower node was not
            // directly below it
            if t0.parent_of(li) != Some(*upper_id) {
                assert(lpi != ui);
                assert(tm.node_at(ui).children == t0.node_at(ui).children);
                assert(tp.node_at(ui).children == tm.node_at(ui).children);
                assert(t1.children_of(ui) == tp.children_of(ui));
            }
            // the lower node's old parent loses exactly that child
            assert(removed_one(t0.children_of(lpi), t1.children_of(lpi), *lower_id) && t1.node_at(
                lpi,
            ).data == t0.node_at(lpi).data) by {
                assert(removed_one(t0.children_of(lpi), tm.children_of(lpi), *lower_id));
                assert(tp.children_of(lpi) == tm.children_of(lpi)) by {
                    if lpi == ui {
                        assert(tp.node_at(ui).children == tm.node_at(ui).children);
                    } else {
                        match tm.parent_of(ui) {
                            Some(u2) => {
                                if lpi != u2.index as int {
                                    assert(tp.node_at(lpi) == tm.node_at(lpi));
                                }
                            },
                            None => {
                                assert(tp.node_at(lpi) == tm.node_at(lpi));
                            },
                        }
                    }
                }
                assert(t1.children_of(lpi) == tp.children_of(lpi) && t1.node_at(lpi).data
                    == tp.node_at(lpi).data) by {
                    broadcast use vstd::set_lib::group_set_lib_default;

                    if lpi == ui {
                    } else {
                        assert(tp.occupied(lpi));
                        assert(0 <= lpi < t1.n());
                        assert(!set![li, ui].contains(lpi));
                        Self::lemma_same_at(tp, t1, set![li, ui], lpi);
                        assert(t1.node_at(lpi) == tp.node_at(lpi));
                    }
                }
                assert(tp.node_at(lpi).data == tm.node_at(lpi).data) by {
                    if lpi == ui {
                    } else {
                        match tm.parent_of(ui) {
                            Some(u2) => {
                                if lpi != u2.index as int {
                                    assert(tp.node_at(lpi) == tm.node_at(lpi));
                                }
                            },
                            None => {
                                assert(tp.node_at(lpi) == tm.node_at(lpi));
                            },
                        }
                    }
                }
                assert(tm.node_at(lpi).data == t0.node_at(lpi).data);
            }
            // slots away from both nodes and both old parents are untouched
            assert forall|j: int|
                t0.occupied(j) && j != li && j != ui && (match t0.parent_of(li) {
                    Some(lp2) => j != lp2.index as int,
                    None => true,
                }) && (match t0.parent_of(ui) {
                    Some(u2) => j != u2.index as int,
                    None => true,
                }) implies #[trigger] t1.node_at(j) == t0.node_at(j) by {
                assert(tm.node_at(j) == t0.node_at(j));
                assert(tm.parent_of(ui) == t0.parent_of(ui));
                assert(tp.node_at(j) == tm.node_at(j));
                Self::lemma_same_at(tp, t1, set![li, ui], j);
            }
        }
    }

    /// Exchanges the tree positions of two unrelated nodes with different
    /// parents, each keeping its own subtree.
    fn swap_across(&mut self, first_id: &NodeId, second_id: &NodeId, pa: &NodeId, pb: &NodeId)
        requires
            old(self).wf(),
            old(self).valid(*first_id),
            old(self).valid(*second_id),
            first_id.index != second_id.index,
            old(self).parent_of(first_id.index as int) == Some(*pa),
            old(self).parent_of(second_id.index as int) == Some(*pb),
            *pa != *pb,
            !old(self).is_desc(first_id.index as int, second_id.index as int),
            !old(self).is_desc(second_id.index as int, first_id.index as int),
        ensures
            final(self).wf(),
            final(self).core_tree.id == old(self).core_tree.id,
            final(self).n() == old(self).n(),
            final(self).core_tree.free_ids == old(self).core_tree.free_ids,
            final(self).core_tree.root == old(self).core_tree.root,
            forall|j: int| #[trigger] final(self).occupied(j) <==> old(self).occupied(j),
            final(self).node_at(first_id.index as int).parent == Some(*pb),
            final(self).node_at(second_id.index as int).parent == Some(*pa),
            final(self).node_at(first_id.index as int).data == old(self).node_at(
                first_id.index as int,
            ).data,
            final(self).node_at(second_id.index as int).data == old(self).node_at(
                second_id.index as int,
            ).data,
            final(self).node_at(first_id.index as int).children == old(self).node_at(
                first_id.index as int,
            ).children,
            final(self).node_at(second_id.index as int).children == old(self).node_at(
                second_id.index as int,
            ).children,
            replaced_one(
                old(self).children_of(pa.index as int),
                final(self).children_of(pa.index as int),
                *first_id,
                *second_id,
            ),
            replaced_one(
                old(self).children_of(pb.index as int),
                final(self).children_of(pb.index as int),
                *second_id,
                *first_id,
            ),
            final(self).node_at(pa.index as int).parent == old(self).node_at(
                pa.index as int,
            ).parent,
            final(self).node_at(pb.index as int).parent == old(self).node_at(
                pb.index as int,
            ).parent,
            final(self).node_at(pa.index as int).data == old(self).node_at(pa.index as int).data,
            final(self).node_at(pb.index as int).data == old(self).node_at(pb.index as int).data,
            forall|j: int|
                old(self).occupied(j) && j != first_id.index as int && j != second_id.index as int
                    && j != pa.index as int && j != pb.index as int ==> #[trigger] final(self).node_at(j) == old(self).node_at(j),
    {
        let ghost t0 = *old(self);
        let ghost fi = first_id.index as int;
        let ghost si = second_id.index as int;
        let ghost pai = pa.index as int;
        let ghost pbi = pb.index as int;
        let ghost fuel = choose|f: nat| t0.all_rooted(f);
        proof {
            assert(t0.occupied(fi) && t0.occupied(si));
            assert(t0.rooted(fi, fuel) && t0.rooted(si, fuel));
            t0.lemma_links_at(fi);
            t0.lemma_links_at(si);
            t0.lemma_n_fits();
            assert(t0.valid(*pa) && t0.valid(*pb));
            assert(pai != pbi);
            // the parents are distinct from both nodes
            assert(pai != fi && pbi != si) by {
                t0.lemma_no_self_parent(fi, fuel);
                t0.lemma_no_self_parent(si, fuel);
            }
            assert(pai != si) by {
                if pai == si {
                    assert(t0.on_chain(si, si, 0));
                    assert(t0.on_chain(fi, si, 1));
                    assert(t0.is_desc(fi, si));
                    assert(false);
                }
            }
            assert(pbi != fi) by {
                if pbi == fi {
                    assert(t0.on_chain(fi, fi, 0));
                    assert(t0.on_chain(si, fi, 1));
                    assert(t0.is_desc(si, fi));
                    assert(false);
                }
            }
            assert(t0.children_of(pai).contains(*first_id)) by {
                assert(t0.occupied(pai));
                t0.lemma_links_at(pai);
            }
            assert(t0.children_of(pbi).contains(*second_id)) by {
                assert(t0.occupied(pbi));
                t0.lemma_links_at(pbi);
            }
        }
        match self.core_tree.get_mut(first_id) {
            Ok(n) => n.set_parent(Some(*pb)),
            Err(_) => proof {
                assert(false);
            },
        }
        match self.core_tree.get_mut(second_id) {
            Ok(n) => n.set_parent(Some(*pa)),
            Err(_) => proof {
                assert(false);
            },
        }
        proof {
            assert(self.node_at(pai) == t0.node_at(pai));
            assert(self.occupied(pai) == t0.occupied(pai));
            assert(self.valid(*pa));
            assert(t0.children_of(pai).no_duplicates()) by {
                assert(t0.occupied(pai));
                t0.lemma_links_at(pai);
            }
        }
        match self.core_tree.get_mut(pa) {
            Ok(n) => n.replace_child(*first_id, *second_id),
            Err(_) => proof {
                assert(false);
            },
        }
        proof {
            assert(self.node_at(pbi) == t0.node_at(pbi));
            assert(self.occupied(pbi) == t0.occupied(pbi));
            assert(self.valid(*pb));
            assert(t0.children_of(pbi).no_duplicates()) by {
                assert(t0.occupied(pbi));
                t0.lemma_links_at(pbi);
            }
        }
        match self.core_tree.get_mut(pb) {
            Ok(n) => n.replace_child(*second_id, *first_id),
            Err(_) => proof {
                assert(false);
            },
        }
        proof {
            Self::lemma_cross_swap_wf(t0, *self, *first_id, *second_id, *pa, *pb);
        }
    }

    /// After two unrelated nodes exchanged their positions, the tree is well
    /// formed.
    proof fn lemma_cross_swap_wf(
        t0: Self,
        t1: Self,
        first_id: NodeId,
        second_id: NodeId,
        pa: NodeId,
        pb: NodeId,
    )
        requires
            t0.wf(),
            t0.valid(first_id),
            t0.valid(second_id),
            first_id.index != second_id.index,
            t0.parent_of(first_id.index as int) == Some(pa),
            t0.parent_of(second_id.index as int) == Some(pb),
            pa != pb,
            !t0.is_desc(first_id.index as int, second_id.index as int),
            !t0.is_desc(second_id.index as int, first_id.index as int),
            t1.core_tree.id == t0.core_tree.id,
            t1.n() == t0.n(),
            t1.core_tree.free_ids == t0.core_tree.free_ids,
            t1.core_tree.root == t0.core_tree.root,
            forall|j: int| #[trigger] t1.occupied(j) <==> t0.occupied(j),
            t1.node_at(first_id.index as int).parent == Some(pb),
            t1.node_at(second_id.index as int).parent == Some(pa),
            t1.node_at(first_id.index as int).children == t0.node_at(
                first_id.index as int,
            ).children,
            t1.node_at(second_id.index as int).children == t0.node_at(
                second_id.index as int,
            ).children,
            t1.node_at(pa.index as int).parent == t0.node_at(pa.index as int).parent,
            t1.node_at(pb.index as int).parent == t0.node_at(pb.index as int).parent,
            replaced_one(
                t0.children_of(pa.index as int),
                t1.children_of(pa.index as int),
                first_id,
                second_id,
            ),
            replaced_one(
                t0.children_of(pb.index as int),
                t1.children_of(pb.index as int),
                second_id,
                first_id,
            ),
            forall|j: int|
                t0.occupied(j) && j != first_id.index as int && j != second_id.index as int && j
                    != pa.index as int && j != pb.index as int ==> #[trigger] t1.node_at(j)
                    == t0.node_at(j),
        ensures
            t1.wf(),
    {
        let fi = first_id.index as int;
        let si = second_id.index as int;
        let pai = pa.index as int;
        let pbi = pb.index as int;
        let fuel = choose|f: nat| t0.all_rooted(f);
        Self::lemma_wf_free_same_occupancy(t0, t1);
        assert(t0.occupied(fi) && t0.occupied(si));
        assert(t0.rooted(fi, fuel) && t0.rooted(si, fuel));
        t0.lemma_links_at(fi);
        t0.lemma_links_at(si);
        t0.lemma_n_fits();
        assert(t0.valid(pa) && t0.valid(pb));
        assert(t0.occupied(pai) && t0.occupied(pbi));
        t0.lemma_links_at(pai);
        t0.lemma_links_at(pbi);
        t0.lemma_no_self_parent(fi, fuel);
        t0.lemma_no_self_parent(si, fuel);
        assert(t0.mk_id(fi) == first_id);
        assert(t0.mk_id(si) == second_id);
        assert(pai != fi && pbi != si && pai != pbi);
        assert(pai != si) by {
            if pai == si {
                assert(t0.on_chain(si, si, 0));
                assert(t0.on_chain(fi, si, 1));
                assert(t0.is_desc(fi, si));
                assert(false);
            }
        }
        assert(pbi != fi) by {
            if pbi == fi {
                assert(t0.on_chain(fi, fi, 0));
                assert(t0.on_chain(si, fi, 1));
                assert(t0.is_desc(si, fi));
                assert(false);
            }
        }
        assert(t0.children_of(pai).contains(first_id));
        assert(t0.children_of(pbi).contains(second_id));
        // membership in the two rewritten lists
        assert(!t0.children_of(pai).contains(second_id)) by {
            if t0.children_of(pai).contains(second_id) {
                let m = choose|m: int|
                    0 <= m < t0.children_of(pai).len() && t0.children_of(pai)[m] == second_id;
                assert(t0.node_at(si).parent == Some(t0.mk_id(pai)));
            }
        }
        assert(!t0.children_of(pbi).contains(first_id)) by {
            if t0.children_of(pbi).contains(first_id) {
                let m = choose|m: int|
                    0 <= m < t0.children_of(pbi).len() && t0.children_of(pbi)[m] == first_id;
                assert(t0.node_at(fi).parent == Some(t0.mk_id(pbi)));
            }
        }
        // links
        assert forall|i: int| #[trigger] t1.occupied(i) implies t1.parent_link_ok(i)
            && t1.child_links_ok(i) by {
            assert(t0.occupied(i));
            t0.lemma_links_at(i);
            // parent side
            match t1.node_at(i).parent {
                Some(p) => {
                    let pi2 = p.index as int;
                    if i == fi {
                        assert(p == pb);
                        assert(t1.occupied(pbi));
                        assert(t1.valid(p));
                        let m = choose|m: int|
                            0 <= m < t0.children_of(pbi).len() && t0.children_of(pbi)[m]
                                == second_id;
                        assert(t1.children_of(pbi)[m] == first_id);
                        assert(t1.children_of(pbi).contains(t1.mk_id(i)));
                    } else if i == si {
                        assert(p == pa);
                        assert(t1.occupied(pai));
                        assert(t1.valid(p));
                        let m = choose|m: int|
                            0 <= m < t0.children_of(pai).len() && t0.children_of(pai)[m]
                                == first_id;
                        assert(t1.children_of(pai)[m] == second_id);
                        assert(t1.children_of(pai).contains(t1.mk_id(i)));
                    } else {
                        assert(t1.node_at(i).parent == t0.node_at(i).parent) by {
                            if i != pai && i != pbi {
                                assert(t1.node_at(i) == t0.node_at(i));
                            }
                        }
                        assert(t0.valid(p));
                        assert(t1.occupied(pi2));
                        assert(t1.valid(p));
                        assert(t0.children_of(pi2).contains(t0.mk_id(i)));
                        if pi2 == pai {
                            let m = choose|m: int|
                                0 <= m < t0.children_of(pai).len() && t0.children_of(pai)[m]
                                    == t0.mk_id(i);
                            assert(t0.mk_id(i) != first_id && t0.mk_id(i) != second_id);
                            assert(t1.children_of(pai)[m] == t0.mk_id(i));
                            assert(t1.children_of(pai).contains(t1.mk_id(i)));
                        } else if pi2 == pbi {
                            let m = choose|m: int|
                                0 <= m < t0.children_of(pbi).len() && t0.children_of(pbi)[m]
                                    == t0.mk_id(i);
                            assert(t0.mk_id(i) != first_id && t0.mk_id(i) != second_id);
                            assert(t1.children_of(pbi)[m] == t0.mk_id(i));
                            assert(t1.children_of(pbi).contains(t1.mk_id(i)));
                        } else if pi2 == fi {
                            assert(t1.children_of(fi) == t0.children_of(fi));
                            assert(t1.children_of(pi2).contains(t1.mk_id(i)));
                        } else if pi2 == si {
                            assert(t1.children_of(si) == t0.children_of(si));
                            assert(t1.children_of(pi2).contains(t1.mk_id(i)));
                        } else {
                            assert(t1.node_at(pi2) == t0.node_at(pi2));
                            assert(t1.children_of(pi2).contains(t1.mk_id(i)));
                        }
                    }
                },
                None => {
                },
            }
            // child side
            if i == pai || i == pbi {
                let (kept, outgoing, incoming) = if i == pai {
                    (pa, first_id, second_id)
                } else {
                    (pb, second_id, first_id)
                };
                let ki = kept.index as int;
                assert(t1.children_of(ki).no_duplicates()) by {
                    assert(!t0.children_of(ki).contains(incoming));
                    assert forall|a: int, b: int|
                        0 <= a < b < t1.children_of(ki).len() implies t1.children_of(ki)[a]
                            != t1.children_of(ki)[b] by {
                        assert(t0.children_of(ki)[a] != t0.children_of(ki)[b]);
                    }
                }
                assert forall|c: int| 0 <= c < t1.children_of(ki).len() implies t1.valid(
                    #[trigger] t1.children_of(ki)[c],
                ) && t1.node_at(t1.children_of(ki)[c].index as int).parent == Some(
                    t1.mk_id(ki),
                ) by {
                    let e0 = t0.children_of(ki)[c];
                    let e1 = t1.children_of(ki)[c];
                    assert(t0.valid(e0));
                    if e0 == outgoing {
                        assert(e1 == incoming);
                        assert(t1.occupied(incoming.index as int));
                        assert(t1.valid(incoming));
                        assert(t1.node_at(incoming.index as int).parent == Some(kept));
                        assert(kept == t0.mk_id(ki));
                    } else {
                        assert(e1 == e0);
                        let ei = e0.index as int;
                        assert(t1.occupied(ei));
                        assert(t1.valid(e0));
                        assert(t0.node_at(ei).parent == Some(t0.mk_id(ki)));
                        assert(ei != fi && ei != si) by {
                            if ei == fi {
                                assert(e0 == first_id);
                                assert(t0.mk_id(ki) == pa);
                            }
                            if ei == si {
                                assert(e0 == second_id);
                                assert(t0.mk_id(ki) == pb);
                            }
                        }
                        if ei == pai || ei == pbi {
                            assert(t1.node_at(ei).parent == t0.node_at(ei).parent);
                        } else {
                            assert(t1.node_at(ei) == t0.node_at(ei));
                        }
                    }
                }
            } else {
                assert(t1.node_at(i).children == t0.node_at(i).children) by {
                    if i == fi || i == si {
                    } else {
                        assert(t1.node_at(i) == t0.node_at(i));
                    }
                }
                assert forall|c: int| 0 <= c < t1.children_of(i).len() implies t1.valid(
                    #[trigger] t1.children_of(i)[c],
                ) && t1.node_at(t1.children_of(i)[c].index as int).parent == Some(t1.mk_id(i)) by {
                    let e = t0.children_of(i)[c];
                    assert(t1.children_of(i)[c] == e);
                    assert(t0.valid(e));
                    let ei = e.index as int;
                    assert(t1.occupied(ei));
                    assert(t1.valid(e));
                    assert(t0.node_at(ei).parent == Some(t0.mk_id(i)));
                    assert(ei != fi && ei != si) by {
                        if ei == fi {
                            assert(t0.mk_id(i) == pa);
                            assert(i == pai);
                        }
                        if ei == si {
                            assert(t0.mk_id(i) == pb);
                            assert(i == pbi);
                        }
                    }
                    if ei == pai || ei == pbi {
                        assert(t1.node_at(ei).parent == t0.node_at(ei).parent);
                    } else {
                        assert(t1.node_at(ei) == t0.node_at(ei));
                    }
                }
            }
        }
        // root: unchanged and parentless; neither node can be the root
        match t1.core_tree.root {
            Some(rt) => {
                assert(t0.valid(rt));
                let rti = rt.index as int;
                assert(t1.occupied(rti));
                assert(rti != fi && rti != si) by {
                    if rti == fi || rti == si {
                        assert(t0.node_at(rti).parent is None);
                    }
                }
                assert(t1.node_at(rti).parent is None) by {
                    if rti == pai || rti == pbi {
                        assert(t1.node_at(rti).parent == t0.node_at(rti).parent);
                    } else {
                        assert(t1.node_at(rti) == t0.node_at(rti));
                    }
                }
            },
            None => {
            },
        }
        // acyclicity: the two nodes were redirected to each other's old
        // parents, whose chains avoid both nodes
        let g: nat = fuel;
        assert(t1.rooted(pai, fuel) && t1.rooted(pbi, fuel)) by {
            assert forall|j: int| #[trigger] t0.on_chain(pai, j, fuel) implies t1.occupied(j)
                && t1.node_at(j).parent == t0.node_at(j).parent by {
                Self::lemma_chain_occupied(t0, pai, j, fuel);
                t0.lemma_parent_not_desc(fi, pa, fuel, fuel);
                assert(j != fi);
                assert(j != si) by {
                    if j == si {
                        assert(t0.on_chain(pai, pai, 0));
                        assert(t0.on_chain(fi, pai, 1));
                        t0.lemma_chain_trans(fi, pai, si, 1, fuel);
                        assert(t0.is_desc(fi, si));
                        assert(false);
                    }
                }
                if j == pai || j == pbi {
                    assert(t1.node_at(j).parent == t0.node_at(j).parent);
                } else {
                    assert(t1.node_at(j) == t0.node_at(j));
                }
            }
            t0.lemma_chain_frame(t1, pai, fuel);
            assert forall|j: int| #[trigger] t0.on_chain(pbi, j, fuel) implies t1.occupied(j)
                && t1.node_at(j).parent == t0.node_at(j).parent by {
                Self::lemma_chain_occupied(t0, pbi, j, fuel);
                t0.lemma_parent_not_desc(si, pb, fuel, fuel);
                assert(j != si);
                assert(j != fi) by {
                    if j == fi {
                        assert(t0.on_chain(pbi, pbi, 0));
                        assert(t0.on_chain(si, pbi, 1));
                        t0.lemma_chain_trans(si, pbi, fi, 1, fuel);
                        assert(t0.is_desc(si, fi));
                        assert(false);
                    }
                }
                if j == pai || j == pbi {
                    assert(t1.node_at(j).parent == t0.node_at(j).parent);
                } else {
                    assert(t1.node_at(j) == t0.node_at(j));
                }
            }
            t0.lemma_chain_frame(t1, pbi, fuel);
        }
        assert forall|i: int| #[trigger] t1.occupied(i) implies t1.rooted(i, fuel + g + 1) by {
            assert(t0.occupied(i));
            assert(t0.rooted(i, fuel));
            assert forall|j: int| #[trigger] t1.occupied(j) implies {
                ||| t1.node_at(j).parent is None
                ||| t1.node_at(j).parent == Some(pa)
                ||| t1.node_at(j).parent == Some(pb)
                ||| (t1.node_at(j).parent == t0.node_at(j).parent && t0.occupied(j) && (
                match t0.node_at(j).parent {
                    Some(p) => t1.occupied(p.index as int),
                    None => true,
                }))
            } by {
                assert(t0.occupied(j));
                if j == fi || j == si {
                } else {
                    if j == pai || j == pbi {
                        assert(t1.node_at(j).parent == t0.node_at(j).parent);
                    } else {
                        assert(t1.node_at(j) == t0.node_at(j));
                    }
                    match t0.node_at(j).parent {
                        Some(p) => {
                            t0.lemma_links_at(j);
                            assert(t0.valid(p));
                            assert(t1.occupied(p.index as int));
                        },
                        None => {
                        },
                    }
                }
            }
            Self::lemma_rooted_redirect2(t0, t1, pa, pb, g, i, fuel);
        }
        assert(t1.all_rooted(fuel + g + 1));
    }

    /// After the orphan took the place of `of`, the tree is well formed.
    proof fn lemma_take_position_wf(t0: Self, t1: Self, of: NodeId, orphan: NodeId)
        requires
            t0.wf(),
            t0.valid(of),
            t0.valid(orphan),
            of != orphan,
            t0.node_at(orphan.index as int).parent is None,
            t0.core_tree.root != Some(orphan),
            !t0.is_desc(of.index as int, orphan.index as int),
            t1.core_tree.id == t0.core_tree.id,
            t1.n() == t0.n(),
            t1.core_tree.free_ids == t0.core_tree.free_ids,
            forall|j: int| #[trigger] t1.occupied(j) <==> t0.occupied(j),
            t1.node_at(of.index as int).parent is None,
            t1.node_at(of.index as int).children == t0.node_at(of.index as int).children,
            t1.node_at(orphan.index as int).parent == t0.node_at(of.index as int).parent,
            t1.node_at(orphan.index as int).children == t0.node_at(orphan.index as int).children,
            t1.core_tree.root == (if t0.core_tree.root == Some(of) {
                Some(orphan)
            } else {
                t0.core_tree.root
            }),
            match t0.parent_of(of.index as int) {
                Some(u) => {
                    &&& u.index as int != of.index as int
                    &&& u.index as int != orphan.index as int
                    &&& t1.node_at(u.index as int).parent == t0.node_at(u.index as int).parent
                    &&& replaced_one(
                        t0.children_of(u.index as int),
                        t1.children_of(u.index as int),
                        of,
                        orphan,
                    )
                },
                None => true,
            },
            forall|j: int|
                t0.occupied(j) && j != of.index as int && j != orphan.index as int && (match
                    t0.parent_of(of.index as int) {
                    Some(u) => j != u.index as int,
                    None => true,
                }) ==> #[trigger] t1.node_at(j) == t0.node_at(j),
        ensures
            t1.wf(),
    {
        let oi = of.index as int;
        let ri = orphan.index as int;
        let fuel = choose|f: nat| t0.all_rooted(f);
        Self::lemma_wf_free_same_occupancy(t0, t1);
        assert(t0.occupied(oi));
        assert(t0.occupied(ri));
        assert(t0.rooted(oi, fuel));
        assert(t0.rooted(ri, fuel));
        t0.lemma_links_at(oi);
        t0.lemma_links_at(ri);
        t0.lemma_n_fits();
        t0.lemma_no_self_parent(oi, fuel);
        assert(oi != ri);
        assert(t0.mk_id(oi) == of);
        assert(t0.mk_id(ri) == orphan);
        t0.lemma_parentless_not_child(orphan);
        let uc = t0.parent_of(oi);
        match uc {
            Some(u) => {
                assert(t0.valid(u));
                assert(u.index as int != ri) by {
                    if u.index as int == ri {
                        assert(t0.on_chain(ri, ri, 0));
                        assert(t0.on_chain(oi, ri, 1));
                        assert(t0.is_desc(oi, ri));
                        assert(false);
                    }
                }
            },
            None => {
            },
        }
        // links
        assert forall|i: int| #[trigger] t1.occupied(i) implies t1.parent_link_ok(i)
            && t1.child_links_ok(i) by {
            assert(t0.occupied(i));
            t0.lemma_links_at(i);
            // parent side
            match t1.node_at(i).parent {
                Some(p) => {
                    let pi2 = p.index as int;
                    if i == ri {
                        assert(uc == Some(p));
                        assert(t0.valid(p));
                        assert(t1.occupied(pi2));
                        assert(t1.valid(p));
                        assert(t0.children_of(pi2).contains(of));
                        let m = choose|m: int|
                            0 <= m < t0.children_of(pi2).len() && t0.children_of(pi2)[m] == of;
                        assert(t1.children_of(pi2)[m] == orphan);
                        assert(t1.children_of(pi2).contains(t1.mk_id(i)));
                    } else if i == oi {
                        assert(false);
                    } else {
                        assert(t1.node_at(i).parent == t0.node_at(i).parent) by {
                            match uc {
                                Some(u) => {
                                    if i == u.index as int {
                                    } else {
                                        assert(t1.node_at(i) == t0.node_at(i));
                                    }
                                },
                                None => {
                                    assert(t1.node_at(i) == t0.node_at(i));
                                },
                            }
                        }
                        assert(t0.valid(p));
                        assert(t1.occupied(pi2));
                        assert(t1.valid(p));
                        assert(t0.children_of(pi2).contains(t0.mk_id(i)));
                        if pi2 == oi {
                            assert(t1.children_of(oi) == t0.children_of(oi));
                            assert(t1.children_of(pi2).contains(t1.mk_id(i)));
                        } else if pi2 == ri {
                            assert(t1.children_of(ri) == t0.children_of(ri));
                            assert(t1.children_of(pi2).contains(t1.mk_id(i)));
                        } else {
                            match uc {
                                Some(u) => {
                                    if pi2 == u.index as int {
                                        let m = choose|m: int|
                                            0 <= m < t0.children_of(pi2).len() && t0.children_of(
                                                pi2,
                                            )[m] == t0.mk_id(i);
                                        assert(t0.mk_id(i) != of);
                                        assert(t1.children_of(pi2)[m] == t0.mk_id(i));
                                        assert(t1.children_of(pi2).contains(t1.mk_id(i)));
                                    } else {
                                        assert(t1.node_at(pi2) == t0.node_at(pi2));
                                        assert(t1.children_of(pi2).contains(t1.mk_id(i)));
                                    }
                                },
                                None => {
                                    assert(t1.node_at(pi2) == t0.node_at(pi2));
                                    assert(t1.children_of(pi2).contains(t1.mk_id(i)));
                                },
                            }
                        }
                    }
                },
                None => {
                },
            }
            // child side
            let is_u = match uc {
                Some(u) => i == u.index as int,
                None => false,
            };
            if is_u {
                let u = uc.unwrap();
                let ui = u.index as int;
                assert(t1.children_of(ui).no_duplicates()) by {
                    assert(!t0.children_of(ui).contains(orphan));
                    assert forall|a: int, b: int|
                        0 <= a < b < t1.children_of(ui).len() implies t1.children_of(ui)[a]
                            != t1.children_of(ui)[b] by {
                        assert(t0.children_of(ui)[a] != t0.children_of(ui)[b]);
                    }
                }
                assert forall|c: int| 0 <= c < t1.children_of(ui).len() implies t1.valid(
                    #[trigger] t1.children_of(ui)[c],
                ) && t1.node_at(t1.children_of(ui)[c].index as int).parent == Some(
                    t1.mk_id(ui),
                ) by {
                    let e0 = t0.children_of(ui)[c];
                    let e1 = t1.children_of(ui)[c];
                    assert(t0.valid(e0));
                    if e0 == of {
                        assert(e1 == orphan);
                        assert(t1.occupied(ri));
                        assert(t1.valid(orphan));
                        assert(t1.node_at(ri).parent == Some(u));
                        assert(u == t0.mk_id(ui));
                    } else {
                        assert(e1 == e0);
                        let ei = e0.index as int;
                        assert(t1.occupied(ei));
                        assert(t1.valid(e0));
                        assert(t0.node_at(ei).parent == Some(t0.mk_id(ui)));
                        assert(ei != oi) by {
                            if ei == oi {
                                assert(e0 == of);
                            }
                        }
                        assert(ei != ri);
                        if ei == ui {
                            assert(t0.node_at(ui).parent == Some(t0.mk_id(ui)));
                            assert(t0.rooted(ui, fuel));
                            t0.lemma_no_self_parent(ui, fuel);
                            assert(false);
                        }
                        assert(t1.node_at(ei) == t0.node_at(ei));
                    }
                }
            } else {
                assert(t1.node_at(i).children == t0.node_at(i).children) by {
                    if i == oi || i == ri {
                    } else {
                        assert(t1.node_at(i) == t0.node_at(i));
                    }
                }
                assert forall|c: int| 0 <= c < t1.children_of(i).len() implies t1.valid(
                    #[trigger] t1.children_of(i)[c],
                ) && t1.node_at(t1.children_of(i)[c].index as int).parent == Some(t1.mk_id(i)) by {
                    let e = t0.children_of(i)[c];
                    assert(t1.children_of(i)[c] == e);
                    assert(t0.valid(e));
                    let ei = e.index as int;
                    assert(t1.occupied(ei));
                    assert(t1.valid(e));
                    assert(t0.node_at(ei).parent == Some(t0.mk_id(i)));
                    assert(ei != ri);
                    assert(ei != oi) by {
                        if ei == oi {
                            assert(t0.node_at(oi).parent == Some(t0.mk_id(i)));
                            assert(uc == Some(t0.mk_id(i)));
                            assert(i == t0.mk_id(i).index as int);
                            assert(false);
                        }
                    }
                    match uc {
                        Some(u) => {
                            if ei == u.index as int {
                                assert(t1.node_at(ei).parent == t0.node_at(ei).parent);
                            } else {
                                assert(t1.node_at(ei) == t0.node_at(ei));
                            }
                        },
                        None => {
                            assert(t1.node_at(ei) == t0.node_at(ei));
                        },
                    }
                }
            }
        }
        // root
        match t1.core_tree.root {
            Some(rt) => {
                if t0.core_tree.root == Some(of) {
                    assert(rt == orphan);
                    assert(t1.occupied(ri));
                    assert(t1.node_at(ri).parent == t0.node_at(oi).parent);
                    assert(t0.node_at(oi).parent is None);
                } else {
                    assert(t0.valid(rt));
                    let rti = rt.index as int;
                    assert(t1.occupied(rti));
                    assert(rti != oi) by {
                        if rti == oi {
                            assert(rt == of);
                        }
                    }
                    assert(rti != ri) by {
                        if rti == ri {
                            assert(rt == orphan);
                        }
                    }
                    assert(t1.node_at(rti).parent is None) by {
                        match uc {
                            Some(u) => {
                                if rti == u.index as int {
                                    assert(t1.node_at(rti).parent == t0.node_at(rti).parent);
                                } else {
                                    assert(t1.node_at(rti) == t0.node_at(rti));
                                }
                            },
                            None => {
                                assert(t1.node_at(rti) == t0.node_at(rti));
                            },
                        }
                    }
                }
            },
            None => {
            },
        }
        // acyclicity: the orphan was redirected to `of`'s old parent, `of`
        // was cut loose, everything else kept its parent
        let g: nat = match uc {
            Some(u) => {
                let ui = u.index as int;
                assert(t1.occupied(ui));
                assert(t1.rooted(ui, fuel)) by {
                    assert(t0.rooted(ui, fuel));
                    assert forall|j: int| #[trigger] t0.on_chain(ui, j, fuel) implies t1.occupied(
                        j,
                    ) && t1.node_at(j).parent == t0.node_at(j).parent by {
                        Self::lemma_chain_occupied(t0, ui, j, fuel);
                        t0.lemma_parent_not_desc(oi, u, fuel, fuel);
                        assert(j != oi);
                        assert(j != ri) by {
                            if j == ri {
                                assert(t0.on_chain(ui, ui, 0));
                                assert(t0.on_chain(oi, ui, 1));
                                t0.lemma_chain_trans(oi, ui, ri, 1, fuel);
                                assert(t0.is_desc(oi, ri));
                                assert(false);
                            }
                        }
                        if j == ui {
                            assert(t1.node_at(j).parent == t0.node_at(j).parent);
                        } else {
                            assert(t1.node_at(j) == t0.node_at(j));
                        }
                    }
                    t0.lemma_chain_frame(t1, ui, fuel);
                }
                fuel
            },
            None => 0,
        };
        let target: Option<NodeId> = uc;
        assert forall|i: int| #[trigger] t1.occupied(i) implies t1.rooted(i, fuel + g + 1) by {
            assert(t0.occupied(i));
            assert(t0.rooted(i, fuel));
            assert forall|j: int| #[trigger] t1.occupied(j) implies {
                ||| t1.node_at(j).parent is None
                ||| (target matches Some(tg) && t1.node_at(j).parent == Some(tg))
                ||| (t1.node_at(j).parent == t0.node_at(j).parent && t0.occupied(j) && (
                match t0.node_at(j).parent {
                    Some(p) => t1.occupied(p.index as int),
                    None => true,
                }))
            } by {
                assert(t0.occupied(j));
                if j == oi {
                } else if j == ri {
                } else {
                    match uc {
                        Some(u) => {
                            if j == u.index as int {
                                assert(t1.node_at(j).parent == t0.node_at(j).parent);
                            } else {
                                assert(t1.node_at(j) == t0.node_at(j));
                            }
                        },
                        None => {
                            assert(t1.node_at(j) == t0.node_at(j));
                        },
                    }
                    match t0.node_at(j).parent {
                        Some(p) => {
                            t0.lemma_links_at(j);
                            assert(t0.valid(p));
                            assert(t1.occupied(p.index as int));
                        },
                        None => {
                        },
                    }
                }
            }
            Self::lemma_rooted_redirect(t0, t1, target, g, i, fuel);
        }
        assert(t1.all_rooted(fuel + g + 1));
    }
}

} // verus!
