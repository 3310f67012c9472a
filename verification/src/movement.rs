//! Moving nodes inside a `Tree`.
//!
//! A move validates its handles first and changes nothing on an invalid one.
//! Moving a node below one of its own descendants never creates a cycle: the
//! direct child of the moved node that leads to the destination is promoted
//! into the moved node's old place first.

use vstd::prelude::*;

use crate::behaviors::MoveBehavior;
use crate::error::NodeIdError;
use crate::node::Node;
use crate::tree::removed_one;
use crate::tree::Tree;
use crate::NodeId;

verus! {

impl<T> Tree<T> {
    /// Walks up from `lower_id` and returns the last handle before
    /// `upper_id` on that chain: the direct child of `upper_id` whose subtree
    /// holds `lower_id`.  Returns `None` when `upper_id` is not a proper
    /// ancestor of `lower_id`.
    pub fn find_subtree_root_between_ids(&self, lower_id: &NodeId, upper_id: &NodeId) -> (r:
        Option<NodeId>)
        requires
            self.wf(),
            self.valid(*lower_id),
            self.valid(*upper_id),
        ensures
            r matches Some(s) ==> self.valid(s) && self.parent_of(s.index as int) == Some(
                *upper_id,
            ) && self.is_desc(lower_id.index as int, s.index as int) && self.is_desc(
                lower_id.index as int,
                upper_id.index as int,
            ) && s.index != upper_id.index,
            (r is None) ==> !(lower_id.index != upper_id.index && self.is_desc(
                lower_id.index as int,
                upper_id.index as int,
            )),
    {
        let ghost fuel = choose|fuel: nat| self.all_rooted(fuel);
        let mut current = *lower_id;
        let ghost mut remaining = fuel;
        let ghost mut walked: nat = 0;
        proof {
            assert(self.occupied(lower_id.index as int));
            assert(self.rooted(lower_id.index as int, fuel));
            assert(self.on_chain(lower_id.index as int, current.index as int, 0));
        }
        loop
            invariant
                self.wf(),
                self.all_rooted(fuel),
                self.valid(*lower_id),
                self.valid(*upper_id),
                self.valid(current),
                self.rooted(current.index as int, remaining),
                self.on_chain(lower_id.index as int, current.index as int, walked),
                // if the target is a proper ancestor of the start, it still
                // sits strictly above the current slot
                (lower_id.index != upper_id.index && self.is_desc(
                    lower_id.index as int,
                    upper_id.index as int,
                )) ==> (current.index != upper_id.index && self.is_desc(
                    current.index as int,
                    upper_id.index as int,
                )),
            decreases remaining,
        {
            let parent_opt = self.core_tree.get_unsafe(&current).parent();
            match parent_opt {
                None => {
                    proof {
                        if lower_id.index != upper_id.index && self.is_desc(
                            lower_id.index as int,
                            upper_id.index as int,
                        ) {
                            let g = choose|g: nat|
                                self.on_chain(current.index as int, upper_id.index as int, g);
                            assert(false);
                        }
                    }
                    return None;
                },
                Some(parent) => {
                    proof {
                        assert(self.occupied(current.index as int));
                        self.lemma_links_at(current.index as int);
                        assert(self.valid(parent));
                    }
                    if parent.index == upper_id.index {
                        proof {
                            assert(parent == *upper_id);
                            self.lemma_n_fits();
                            if current.index == upper_id.index {
                                assert(self.parent_of(upper_id.index as int) == Some(*upper_id));
                                assert(self.rooted(upper_id.index as int, fuel)) by {
                                    assert(self.occupied(upper_id.index as int));
                                }
                                self.lemma_no_self_parent(upper_id.index as int, fuel);
                                assert(false);
                            }
                            assert(self.is_desc(
                                lower_id.index as int,
                                current.index as int,
                            )) by {
                                assert(self.on_chain(
                                    lower_id.index as int,
                                    current.index as int,
                                    walked,
                                ));
                            }
                            self.lemma_chain_step(
                                lower_id.index as int,
                                current.index as int,
                                parent,
                                walked,
                            );
                            assert(self.is_desc(
                                lower_id.index as int,
                                upper_id.index as int,
                            )) by {
                                assert(self.on_chain(
                                    lower_id.index as int,
                                    upper_id.index as int,
                                    walked + 1,
                                ));
                            }
                        }
                        return Some(current);
                    }
                    proof {
                        assert(self.rooted(current.index as int, remaining));
                        assert(remaining > 0 && self.rooted(
                            parent.index as int,
                            (remaining - 1) as nat,
                        ));
                        self.lemma_chain_step(
                            lower_id.index as int,
                            current.index as int,
                            parent,
                            walked,
                        );
                        if lower_id.index != upper_id.index && self.is_desc(
                            lower_id.index as int,
                            upper_id.index as int,
                        ) {
                            // the target is above `current`, and is not the
                            // parent we just stepped past, so it stays above
                            let g = choose|g: nat|
                                self.on_chain(current.index as int, upper_id.index as int, g);
                            assert(current.index != upper_id.index);
                            assert(self.on_chain(
                                parent.index as int,
                                upper_id.index as int,
                                (g - 1) as nat,
                            ));
                            if parent.index as int == upper_id.index as int {
                                assert(false);
                            }
                        }
                        remaining = (remaining - 1) as nat;
                        walked = walked + 1;
                    }
                    current = parent;
                },
            }
        }
    }

    /// Detaches the direct child `s_id` of `node_id` and promotes it into
    /// `node_id`'s place: it takes over the old parent link (or the root
    /// position) of `node_id`, which becomes a parentless node.
    fn promote_child(&mut self, node_id: &NodeId, s_id: &NodeId)
        requires
            old(self).wf(),
            old(self).valid(*node_id),
            old(self).valid(*s_id),
            old(self).parent_of(s_id.index as int) == Some(*node_id),
        ensures
            final(self).wf(),
            final(self).core_tree.id == old(self).core_tree.id,
            final(self).n() == old(self).n(),
            final(self).core_tree.free_ids == old(self).core_tree.free_ids,
            forall|j: int| #[trigger] final(self).occupied(j) <==> old(self).occupied(j),
            final(self).node_at(node_id.index as int).parent is None,
            final(self).node_at(node_id.index as int).data == old(self).node_at(
                node_id.index as int,
            ).data,
            removed_one(
                old(self).children_of(node_id.index as int),
                final(self).children_of(node_id.index as int),
                *s_id,
            ),
            final(self).node_at(s_id.index as int).data == old(self).node_at(
                s_id.index as int,
            ).data,
            final(self).node_at(s_id.index as int).children == old(self).node_at(
                s_id.index as int,
            ).children,
            final(self).node_at(s_id.index as int).parent == (if old(self).core_tree.root == Some(
                *node_id,
            ) {
                None::<NodeId>
            } else {
                old(self).parent_of(node_id.index as int)
            }),
            final(self).core_tree.root == (if old(self).core_tree.root == Some(*node_id) {
                Some(*s_id)
            } else {
                old(self).core_tree.root
            }),
            match old(self).parent_of(node_id.index as int) {
                Some(q) => {
                    &&& final(self).node_at(q.index as int).parent == old(self).node_at(
                        q.index as int,
                    ).parent
                    &&& final(self).node_at(q.index as int).data == old(self).node_at(
                        q.index as int,
                    ).data
                    &&& exists|mid: Seq<NodeId>|
                        removed_one(old(self).children_of(q.index as int), mid, *node_id)
                            && final(self).children_of(q.index as int) == mid.push(*s_id)
                },
                None => true,
            },
            forall|j: int|
                old(self).occupied(j) && j != node_id.index as int && j != s_id.index as int && (
                match old(self).parent_of(node_id.index as int) {
                    Some(q) => j != q.index as int,
                    None => true,
                }) ==> #[trigger] final(self).node_at(j) == old(self).node_at(j),
    {
        let ghost t0 = *old(self);
        let ghost ni = node_id.index as int;
        let ghost si = s_id.index as int;
        let ghost fuel = choose|f: nat| t0.all_rooted(f);
        proof {
            assert(t0.occupied(ni));
            assert(t0.occupied(si));
            assert(t0.rooted(ni, fuel));
            assert(t0.rooted(si, fuel));
            t0.lemma_links_at(ni);
            t0.lemma_links_at(si);
            t0.lemma_n_fits();
            t0.lemma_no_self_parent(ni, fuel);
            t0.lemma_no_self_parent(si, fuel);
            assert(si != ni);
            assert(t0.mk_id(ni) == *node_id);
            assert(t0.mk_id(si) == *s_id);
            assert(t0.children_of(ni).contains(*s_id));
            match t0.parent_of(ni) {
                Some(q) => {
                    assert(t0.valid(q));
                    let qi = q.index as int;
                    assert(qi != ni);
                    if qi == si {
                        assert(t0.on_chain(si, si, 0));
                        assert(t0.on_chain(ni, ni, 0));
                        assert(t0.on_chain(ni, si, 1));
                        assert(t0.on_chain(si, ni, 1));
                        t0.lemma_chain_antisym(ni, si, 1, 1, fuel);
                        assert(false);
                    }
                },
                None => {
                },
            }
        }
        // detach s from the node's children
        match self.core_tree.get_mut(node_id) {
            Ok(n) => n.remove_child(*s_id),
            Err(_) => proof {
                assert(false);
            },
        }
        let is_root = match self.core_tree.root.as_ref() {
            Some(r) => *r == *node_id,
            None => false,
        };
        if is_root {
            match self.core_tree.get_mut(s_id) {
                Ok(sn) => sn.set_parent(None),
                Err(_) => proof {
                    assert(false);
                },
            }
            self.core_tree.root = Some(*s_id);
        } else {
            let q_opt = self.core_tree.get_unsafe(node_id).parent();
            match q_opt {
                Some(q) => {
                    match self.core_tree.get_mut(node_id) {
                        Ok(n) => n.set_parent(None),
                        Err(_) => proof {
                            assert(false);
                        },
                    }
                    match self.core_tree.get_mut(&q) {
                        Ok(qn) => qn.remove_child(*node_id),
                        Err(_) => proof {
                            assert(false);
                        },
                    }
                    match self.core_tree.get_mut(&q) {
                        Ok(qn) => qn.add_child(*s_id),
                        Err(_) => proof {
                            assert(false);
                        },
                    }
                    match self.core_tree.get_mut(s_id) {
                        Ok(sn) => sn.set_parent(Some(q)),
                        Err(_) => proof {
                            assert(false);
                        },
                    }
                },
                None => {
                    match self.core_tree.get_mut(s_id) {
                        Ok(sn) => sn.set_parent(None),
                        Err(_) => proof {
                            assert(false);
                        },
                    }
                },
            }
        }
        proof {
            Self::lemma_promote_wf(t0, *self, *node_id, *s_id);
        }
    }

    /// After promoting the child `s` of `node` into `node`'s place, the tree
    /// is well formed again.
    proof fn lemma_promote_wf(t0: Self, t1: Self, node_id: NodeId, s_id: NodeId)
        requires
            t0.wf(),
            t0.valid(node_id),
            t0.valid(s_id),
            t0.parent_of(s_id.index as int) == Some(node_id),
            t1.core_tree.id == t0.core_tree.id,
            t1.n() == t0.n(),
            t1.core_tree.free_ids == t0.core_tree.free_ids,
            forall|j: int| #[trigger] t1.occupied(j) <==> t0.occupied(j),
            t1.node_at(node_id.index as int).parent is None,
            removed_one(
                t0.children_of(node_id.index as int),
                t1.children_of(node_id.index as int),
                s_id,
            ),
            t1.node_at(s_id.index as int).children == t0.node_at(s_id.index as int).children,
            t1.node_at(s_id.index as int).parent == (if t0.core_tree.root == Some(node_id) {
                None::<NodeId>
            } else {
                t0.parent_of(node_id.index as int)
            }),
            t1.core_tree.root == (if t0.core_tree.root == Some(node_id) {
                Some(s_id)
            } else {
                t0.core_tree.root
            }),
            match t0.parent_of(node_id.index as int) {
                Some(q) => {
                    &&& t1.node_at(q.index as int).parent == t0.node_at(q.index as int).parent
                    &&& exists|mid: Seq<NodeId>|
                        removed_one(t0.children_of(q.index as int), mid, node_id)
                            && t1.children_of(q.index as int) == mid.push(s_id)
                },
                None => true,
            },
            forall|j: int|
                t0.occupied(j) && j != node_id.index as int && j != s_id.index as int && (
                match t0.parent_of(node_id.index as int) {
                    Some(q) => j != q.index as int,
                    None => true,
                }) ==> #[trigger] t1.node_at(j) == t0.node_at(j),
        ensures
            t1.wf(),
    {
        let ni = node_id.index as int;
        let si = s_id.index as int;
        let fuel = choose|f: nat| t0.all_rooted(f);
        Self::lemma_wf_free_same_occupancy(t0, t1);
        assert(t0.occupied(ni));
        assert(t0.occupied(si));
        assert(t0.rooted(ni, fuel));
        assert(t0.rooted(si, fuel));
        t0.lemma_links_at(ni);
        t0.lemma_links_at(si);
        t0.lemma_n_fits();
        t0.lemma_no_self_parent(ni, fuel);
        t0.lemma_no_self_parent(si, fuel);
        assert(si != ni);
        assert(t0.mk_id(ni) == node_id);
        assert(t0.mk_id(si) == s_id);
        assert(t0.children_of(ni).contains(s_id));
        let qc = t0.parent_of(ni);
        let was_root = t0.core_tree.root == Some(node_id);
        if was_root {
            assert(qc is None) by {
                match t0.core_tree.root {
                    Some(rt) => {
                        assert(t0.node_at(rt.index as int).parent is None);
                        assert(rt.index as int == ni);
                    },
                    None => {
                    },
                }
            }
        }
        // q, when present, is a slot distinct from both ni and si
        match qc {
            Some(q) => {
                let qi = q.index as int;
                assert(t0.valid(q));
                assert(qi != ni);
                if qi == si {
                    assert(t0.on_chain(si, si, 0));
                    assert(t0.on_chain(ni, ni, 0));
                    assert(t0.on_chain(ni, si, 1));
                    assert(t0.on_chain(si, ni, 1));
                    t0.lemma_chain_antisym(ni, si, 1, 1, fuel);
                    assert(false);
                }
            },
            None => {
            },
        }
        // which slot keeps which node
        let kn = choose|kn: int|
            0 <= kn < t0.children_of(ni).len() && t0.children_of(ni)[kn] == s_id && (forall|
                j: int,
            |
                0 <= j < kn ==> t0.children_of(ni)[j] != s_id) && t1.children_of(ni)
                == t0.children_of(ni).remove(kn);
        crate::removal::lemma_remove_keeps(t0.children_of(ni), kn);
        // membership facts: being a child of ni means having ni as parent
        assert forall|j: int|
            t0.occupied(j) implies (t0.children_of(ni).contains(t0.mk_id(j))
                <==> t0.node_at(j).parent == Some(node_id)) by {
            t0.lemma_links_at(j);
            if t0.children_of(ni).contains(t0.mk_id(j)) {
                let m = choose|m: int|
                    0 <= m < t0.children_of(ni).len() && t0.children_of(ni)[m] == t0.mk_id(j);
                assert(t0.valid(t0.children_of(ni)[m]));
                assert(t0.node_at(t0.children_of(ni)[m].index as int).parent == Some(
                    t0.mk_id(ni),
                ));
                assert(t0.mk_id(j).index as int == j);
            }
        }
        // the new child list of the node: everything but s
        assert(t1.node_at(ni).children@.no_duplicates());
        assert forall|x: NodeId| #[trigger] t1.children_of(ni).contains(x) <==> (x != s_id
            && t0.children_of(ni).contains(x)) by {
            assert(t0.children_of(ni)[kn] == s_id);
        }
        // the new child list of q: everything but the node, then s appended
        match qc {
            Some(q) => {
                let qi = q.index as int;
                assert(t0.valid(q));
                let mid = choose|mid: Seq<NodeId>|
                    removed_one(t0.children_of(qi), mid, node_id) && t1.children_of(qi)
                        == mid.push(s_id);
                let kq = choose|kq: int|
                    0 <= kq < t0.children_of(qi).len() && t0.children_of(qi)[kq] == node_id && (
                    forall|j: int| 0 <= j < kq ==> t0.children_of(qi)[j] != node_id) && mid
                        == t0.children_of(qi).remove(kq);
                assert(t0.occupied(qi));
                t0.lemma_links_at(qi);
                crate::removal::lemma_remove_keeps(t0.children_of(qi), kq);
                assert(!mid.contains(s_id)) by {
                    if mid.contains(s_id) {
                        assert(t0.children_of(qi).contains(s_id));
                        let m = choose|m: int|
                            0 <= m < t0.children_of(qi).len() && t0.children_of(qi)[m] == s_id;
                        assert(t0.node_at(si).parent == Some(t0.mk_id(qi)));
                        assert(t0.mk_id(qi) == node_id || t0.node_at(si).parent != Some(
                            node_id,
                        ));
                        assert(qi != ni);
                        assert(false);
                    }
                }
                assert(t1.children_of(qi).no_duplicates()) by {
                    let newq = t1.children_of(qi);
                    assert(newq == mid.push(s_id));
                    assert forall|a: int, b: int|
                        0 <= a < b < newq.len() implies newq[a] != newq[b] by {
                        if b == newq.len() - 1 {
                            assert(newq[b] == s_id);
                            if newq[a] == s_id {
                                assert(mid[a] == s_id);
                                assert(mid.contains(s_id));
                            }
                        } else {
                            assert(newq[a] == mid[a] && newq[b] == mid[b]);
                        }
                    }
                }
                assert forall|x: NodeId| #[trigger] t1.children_of(qi).contains(x) <==> (x == s_id
                    || (x != node_id && t0.children_of(qi).contains(x))) by {
                    let newq = t1.children_of(qi);
                    if newq.contains(x) {
                        let m = choose|m: int| 0 <= m < newq.len() && newq[m] == x;
                        if m == newq.len() - 1 {
                            assert(x == s_id);
                        } else {
                            assert(mid[m] == x);
                            assert(mid.contains(x));
                        }
                    }
                    if x == s_id {
                        assert(newq[newq.len() - 1] == x);
                        assert(newq.contains(x));
                    } else if x != node_id && t0.children_of(qi).contains(x) {
                        assert(mid.contains(x));
                        let m = choose|m: int| 0 <= m < mid.len() && mid[m] == x;
                        assert(newq[m] == x);
                        assert(newq.contains(x));
                    }
                }
            },
            None => {
            },
        }
        // links at every slot
        assert forall|i: int| #[trigger] t1.occupied(i) implies t1.parent_link_ok(i)
            && t1.child_links_ok(i) by {
            assert(t0.occupied(i));
            t0.lemma_links_at(i);
            Self::lemma_promote_links_at(t0, t1, node_id, s_id, i);
        }
        // the root is sound
        match t1.core_tree.root {
            Some(rt) => {
                if was_root {
                    assert(rt == s_id);
                    assert(t1.occupied(si));
                    assert(t1.node_at(si).parent is None);
                } else {
                    assert(rt == t0.core_tree.root.unwrap());
                    assert(t0.valid(rt));
                    assert(t1.occupied(rt.index as int));
                    let ri = rt.index as int;
                    assert(ri != ni);
                    assert(ri != si) by {
                        if ri == si {
                            assert(t0.node_at(si).parent is None);
                        }
                    }
                    assert(t1.node_at(ri).parent is None) by {
                        match qc {
                            Some(q) => {
                                if ri == q.index as int {
                                    assert(t1.node_at(ri).parent == t0.node_at(ri).parent);
                                } else {
                                    assert(t1.node_at(ri) == t0.node_at(ri));
                                }
                            },
                            None => {
                                assert(t1.node_at(ri) == t0.node_at(ri));
                            },
                        }
                    }
                }
            },
            None => {
            },
        }
        // acyclicity: s was redirected to q (or cut loose), node was cut
        // loose, everything else kept its parent
        let target: Option<NodeId> = if was_root {
            None
        } else {
            qc
        };
        let g: nat = match target {
            Some(q) => {
                let qi = q.index as int;
                assert(t1.occupied(qi));
                assert(t1.rooted(qi, fuel)) by {
                    assert(t0.rooted(qi, fuel));
                    assert forall|j: int| #[trigger] t0.on_chain(qi, j, fuel) implies t1.occupied(
                        j,
                    ) && t1.node_at(j).parent == t0.node_at(j).parent by {
                        Self::lemma_chain_occupied(t0, qi, j, fuel);
                        t0.lemma_parent_not_desc(ni, q, fuel, fuel);
                        assert(j != ni);
                        assert(j != si) by {
                            if j == si {
                                // s above q and below the node is a cycle
                                assert(t0.on_chain(ni, ni, 0));
                                assert(t0.on_chain(si, ni, 1));
                                t0.lemma_chain_trans(qi, si, ni, fuel, 1);
                                assert(t0.on_chain(qi, ni, fuel + 1));
                                t0.lemma_parent_not_desc(ni, q, fuel + 1, fuel);
                                assert(false);
                            }
                        }
                        match qc {
                            Some(q2) => {
                                if j == q2.index as int {
                                    assert(t1.node_at(j).parent == t0.node_at(j).parent);
                                } else {
                                    assert(t1.node_at(j) == t0.node_at(j));
                                }
                            },
                            None => {
                            },
                        }
                    }
                    t0.lemma_chain_frame(t1, qi, fuel);
                }
                fuel
            },
            None => 0,
        };
        assert forall|i: int| #[trigger] t1.occupied(i) implies t1.rooted(i, fuel + g + 1) by {
            assert(t0.occupied(i));
            assert(t0.rooted(i, fuel));
            assert forall|j: int| #[trigger] t1.occupied(j) implies {
                ||| t1.node_at(j).parent is None
                ||| (target matches Some(tg) && t1.node_at(j).parent == Some(tg))
                ||| (t1.node_at(j).parent == t0.node_at(j).parent && t0.occupied(j) && (
                match t0.node_at(j).parent {
                    Some(p) => t1.occupied(p.index as int),
                    None => true,
                }))
            } by {
                assert(t0.occupied(j));
                if j == ni {
                } else if j == si {
                } else {
                    match qc {
                        Some(q2) => {
                            if j == q2.index as int {
                                assert(t1.node_at(j).parent == t0.node_at(j).parent);
                            } else {
                                assert(t1.node_at(j) == t0.node_at(j));
                            }
                        },
                        None => {
                            assert(t1.node_at(j) == t0.node_at(j));
                        },
                    }
                    match t0.node_at(j).parent {
                        Some(p) => {
                            t0.lemma_links_at(j);
                            assert(t0.valid(p));
                            assert(t1.occupied(p.index as int));
                        },
                        None => {
                        },
                    }
                }
            }
            Self::lemma_rooted_redirect(t0, t1, target, g, i, fuel);
        }
        assert(t1.all_rooted(fuel + g + 1));
    }

    /// Moves a `Node` to a new parent, leaving all its children in place.
    ///
    /// If the new parent is a descendant of the moved `Node`, the direct
    /// child of the moved `Node` on the path to the new parent is first
    /// shifted up into the moved `Node`'s old place, so that the tree stays
    /// acyclic; the shifted child always enters its new parent's child list
    /// at the end.  Moving a `Node` below itself changes nothing.  When a
    /// parentless root is moved below a node of a detached subtree, the tree
    /// is left without a root.  On an invalid handle nothing is changed.
    /// What holds after a node has been moved under a new parent, both
    /// handles alive and distinct: the node hangs under the destination as
    /// its last child, its payload survives, and every other slot is pinned
    /// case by case.  When the destination sat inside the node's own
    /// subtree, a child of the node is first promoted into the node's old
    /// place, and the promoted child is the witness.
    pub open spec fn moved_to_parent(pre: Self, post: Self, node_id: NodeId, parent_id: NodeId) -> bool {
        let ni = node_id.index as int;
        let pi = parent_id.index as int;
        &&& post.core_tree.id == pre.core_tree.id
        &&& post.n() == pre.n()
        &&& post.core_tree.free_ids == pre.core_tree.free_ids
        &&& (forall|j: int|
            #[trigger] post.occupied(j) <==> pre.occupied(j))
        &&& post.node_at(ni).parent == Some(parent_id)
        &&& post.node_at(ni).data == pre.node_at(ni).data
        &&& post.children_of(pi).len() > 0
        &&& post.children_of(pi).last() == node_id
        &&& (!pre.is_desc(pi, ni) ==> {
            // a move across or up: children travel with the node
            &&& post.children_of(ni) == pre.children_of(ni)
            &&& post.node_at(pi).parent == pre.node_at(pi).parent
            &&& post.node_at(pi).data == pre.node_at(pi).data
            &&& post.core_tree.root == (if pre.core_tree.root == Some(
                node_id,
            ) {
                None::<NodeId>
            } else {
                pre.core_tree.root
            })
            &&& match pre.parent_of(ni) {
                Some(q) => {
                    if q == parent_id {
                        exists|mid: Seq<NodeId>|
                            removed_one(pre.children_of(pi), mid, node_id)
                                && post.children_of(pi) == mid.push(node_id)
                    } else {
                        &&& removed_one(
                            pre.children_of(q.index as int),
                            post.children_of(q.index as int),
                            node_id,
                        )
                        &&& post.node_at(q.index as int).parent == pre.node_at(q.index as int).parent
                        &&& post.node_at(q.index as int).data == pre.node_at(
                            q.index as int,
                        ).data
                        &&& post.children_of(pi) == pre.children_of(pi).push(
                            node_id,
                        )
                    }
                },
                None => post.children_of(pi) == pre.children_of(pi).push(
                    node_id,
                ),
            }
            &&& (forall|j: int|
                pre.occupied(j) && j != ni && j != pi && (match pre.parent_of(ni) {
                    Some(q) => j != q.index as int,
                    None => true,
                }) ==> #[trigger] post.node_at(j) == pre.node_at(j))
        })
        &&& (pre.is_desc(pi, ni) ==> exists|s: NodeId|
            {
                let si = s.index as int;
                &&& #[trigger] pre.valid(s)
                &&& pre.parent_of(si) == Some(node_id)
                &&& pre.is_desc(pi, si)
                &&& removed_one(
                    pre.children_of(ni),
                    post.node_at(ni).children@,
                    s,
                )
                &&& post.node_at(si).data == pre.node_at(si).data
                &&& post.node_at(si).parent == (if pre.core_tree.root
                    == Some(node_id) {
                    None::<NodeId>
                } else {
                    pre.parent_of(ni)
                })
                &&& post.core_tree.root == (if pre.core_tree.root == Some(
                    node_id,
                ) {
                    Some(s)
                } else {
                    pre.core_tree.root
                })
                &&& (si == pi ==> post.children_of(si) == pre.children_of(
                    si,
                ).push(node_id))
                &&& (si != pi ==> post.children_of(si) == pre.children_of(si)
                    && post.children_of(pi) == pre.children_of(pi).push(
                    node_id,
                ) && post.node_at(pi).data == pre.node_at(pi).data
                    && post.node_at(pi).parent == pre.node_at(pi).parent)
                &&& match pre.parent_of(ni) {
                    Some(q) => {
                        &&& post.node_at(q.index as int).parent == pre.node_at(q.index as int).parent
                        &&& post.node_at(q.index as int).data == pre.node_at(
                            q.index as int,
                        ).data
                        &&& exists|mid: Seq<NodeId>|
                            removed_one(
                                pre.children_of(q.index as int),
                                mid,
                                node_id,
                            ) && post.children_of(q.index as int) == mid.push(s)
                    },
                    None => true,
                }
                &&& (forall|j: int|
                    pre.occupied(j) && j != ni && j != pi && j != si && (match pre.parent_of(ni) {
                        Some(q) => j != q.index as int,
                        None => true,
                    }) ==> #[trigger] post.node_at(j) == pre.node_at(j))
            })
    }

    /// What holds after a non-root node has been moved to the root: it is
    /// parentless, an old root hangs under it as its last child, its old
    /// parent loses it, and every other slot is untouched.
    pub open spec fn moved_to_root(pre: Self, post: Self, node_id: NodeId) -> bool {
        let ni = node_id.index as int;
        &&& post.core_tree.id == pre.core_tree.id
        &&& post.n() == pre.n()
        &&& post.core_tree.free_ids == pre.core_tree.free_ids
        &&& (forall|j: int|
            #[trigger] post.occupied(j) <==> pre.occupied(j))
        &&& post.core_tree.root == Some(node_id)
        &&& post.node_at(ni).parent is None
        &&& post.node_at(ni).data == pre.node_at(ni).data
        &&& match pre.core_tree.root {
            Some(old_root) => {
                &&& post.children_of(ni) == pre.children_of(ni).push(
                    old_root,
                )
                &&& post.node_at(old_root.index as int).parent == Some(node_id)
                &&& post.node_at(old_root.index as int).data == pre.node_at(
                    old_root.index as int,
                ).data
                &&& (pre.parent_of(ni) != Some(old_root) ==> post.children_of(
                    old_root.index as int,
                ) == pre.children_of(old_root.index as int))
            },
            None => post.children_of(ni) == pre.children_of(ni),
        }
        &&& match pre.parent_of(ni) {
            Some(q) => {
                &&& removed_one(
                    pre.children_of(q.index as int),
                    post.children_of(q.index as int),
                    node_id,
                )
                &&& (pre.core_tree.root != Some(q) ==> post.node_at(
                    q.index as int,
                ).parent == pre.node_at(q.index as int).parent)
                &&& post.node_at(q.index as int).data == pre.node_at(
                    q.index as int,
                ).data
            },
            None => true,
        }
        &&& (forall|j: int|
            pre.occupied(j) && j != ni && (match pre.core_tree.root {
                Some(old_root) => j != old_root.index as int,
                None => true,
            }) && (match pre.parent_of(ni) {
                Some(q) => j != q.index as int,
                None => true,
            }) ==> #[trigger] post.node_at(j) == pre.node_at(j))
    }

    pub fn move_node_to_parent(&mut self, node_id: &NodeId, parent_id: &NodeId) -> (r: Result<
        (),
        NodeIdError,
    >)
        requires
            old(self).wf(),
            old(self).in_bounds(*node_id),
            old(self).in_bounds(*parent_id),
        ensures
            final(self).wf(),
            !(old(self).valid(*node_id) && old(self).valid(*parent_id)) ==> *final(self) == *old(self),
            node_id.tree_id != old(self).core_tree.id ==> r == Err::<(), _>(
                NodeIdError::InvalidNodeIdForTree,
            ),
            node_id.tree_id == old(self).core_tree.id && !old(self).valid(*node_id) ==> r
                == Err::<(), _>(NodeIdError::NodeIdNoLongerValid),
            old(self).valid(*node_id) && parent_id.tree_id != old(self).core_tree.id ==> r
                == Err::<(), _>(NodeIdError::InvalidNodeIdForTree),
            old(self).valid(*node_id) && parent_id.tree_id == old(self).core_tree.id && !old(self).valid(*parent_id) ==> r == Err::<(), _>(NodeIdError::NodeIdNoLongerValid),
            old(self).valid(*node_id) && old(self).valid(*parent_id) ==> r is Ok,
            old(self).valid(*node_id) && old(self).valid(*parent_id) && node_id.index
                == parent_id.index ==> *final(self) == *old(self),
            old(self).valid(*node_id) && old(self).valid(*parent_id) && node_id.index
                != parent_id.index ==> Self::moved_to_parent(
                *old(self),
                *final(self),
                *node_id,
                *parent_id,
            ),
    {
        let ghost t0 = *old(self);
        let (is_valid, error) = self.core_tree.is_valid_node_id(node_id);
        if !is_valid {
            return Err(match error {
                Some(e) => e,
                None => vstd::pervasive::unreached(),
            });
        }
        let (is_valid, error) = self.core_tree.is_valid_node_id(parent_id);
        if !is_valid {
            return Err(match error {
                Some(e) => e,
                None => vstd::pervasive::unreached(),
            });
        }
        if node_id.index == parent_id.index {
            // the handles name the same slot: there is nothing to move
            return Ok(());
        }
        let ghost ni = node_id.index as int;
        let ghost pi = parent_id.index as int;
        let ghost fuel = choose|f: nat| t0.all_rooted(f);
        proof {
            assert(t0.occupied(ni));
            assert(t0.occupied(pi));
            assert(t0.rooted(ni, fuel));
            assert(t0.rooted(pi, fuel));
            t0.lemma_n_fits();
        }
        match self.find_subtree_root_between_ids(parent_id, node_id) {
            Some(subtree_root_id) => {
                let ghost si = subtree_root_id.index as int;
                self.promote_child(node_id, &subtree_root_id);
                let ghost tm = *self;
                proof {
                    Self::lemma_after_promote(t0, tm, *node_id, *parent_id, subtree_root_id);
                }
                self.set_as_parent_and_child(parent_id, node_id);
                proof {
                    let t1 = *self;
                    assert(t0.is_desc(pi, ni)) by {
                        let g = choose|g: nat| t0.on_chain(pi, si, g);
                        t0.lemma_chain_step(pi, si, *node_id, g);
                        assert(t0.on_chain(pi, ni, g + 1));
                    }
                    // compose the two phases, slot by slot
                    let qc = t0.parent_of(ni);
                    broadcast use vstd::set_lib::group_set_lib_default;

                    assert(t1.node_at(ni).children@ == tm.node_at(ni).children@);
                    assert(si != ni && pi != ni);
                    if si != pi {
                        assert(tm.occupied(si));
                        Self::lemma_same_at(tm, t1, set![pi, ni], si);
                        assert(t1.node_at(si) == tm.node_at(si));
                    }
                    match qc {
                        Some(q) => {
                            let qi = q.index as int;
                            assert(qi != pi) by {
                                if qi == pi {
                                    let g = choose|g: nat| t0.on_chain(pi, si, g);
                                    t0.lemma_chain_step(pi, si, *node_id, g);
                                    assert(t0.on_chain(pi, ni, g + 1));
                                    assert(t0.on_chain(pi, pi, 0));
                                    assert(t0.on_chain(ni, pi, 1));
                                    t0.lemma_chain_antisym(ni, pi, 1, g + 1, fuel);
                                    assert(false);
                                }
                            }
                            assert(qi != ni && qi != si);
                            assert(tm.occupied(qi)) by {
                                assert(t0.valid(q));
                            }
                            Self::lemma_same_at(tm, t1, set![pi, ni], qi);
                            assert(t1.node_at(qi) == tm.node_at(qi));
                        },
                        None => {
                        },
                    }
                    assert forall|j: int|
                        t0.occupied(j) && j != ni && j != pi && j != si && (match qc {
                            Some(q) => j != q.index as int,
                            None => true,
                        }) implies #[trigger] t1.node_at(j) == t0.node_at(j) by {
                        assert(tm.node_at(j) == t0.node_at(j));
                        assert(tm.occupied(j));
                        Self::lemma_same_at(tm, t1, set![pi, ni], j);
                        assert(t1.node_at(j) == tm.node_at(j));
                    }
                    assert(t1.children_of(pi).last() == *node_id);
                    // the promoted child witnesses the contract
                    let s = subtree_root_id;
                    let si2 = s.index as int;
                    assert(t0.valid(s) && t0.parent_of(si2) == Some(*node_id) && t0.is_desc(
                        pi,
                        si2,
                    ) && removed_one(t0.children_of(ni), t1.node_at(ni).children@, s)
                        && t1.node_at(si2).data == t0.node_at(si2).data && t1.node_at(si2).parent
                        == (if t0.core_tree.root == Some(*node_id) {
                        None::<NodeId>
                    } else {
                        t0.parent_of(ni)
                    }) && t1.core_tree.root == (if t0.core_tree.root == Some(*node_id) {
                        Some(s)
                    } else {
                        t0.core_tree.root
                    }) && (si2 == pi ==> t1.children_of(si2) == t0.children_of(si2).push(
                        *node_id,
                    )) && (si2 != pi ==> t1.children_of(si2) == t0.children_of(si2)
                        && t1.children_of(pi) == t0.children_of(pi).push(*node_id)
                        && t1.node_at(pi).data == t0.node_at(pi).data && t1.node_at(pi).parent
                        == t0.node_at(pi).parent)) by {
                        if si2 != pi {
                            assert(tm.node_at(pi) == t0.node_at(pi));
                        }
                    }
                }
                Ok(())
            },
            None => {
                proof {
                    assert(!(t0.is_desc(pi, ni))) by {
                        if t0.is_desc(pi, ni) {
                            assert(parent_id.index != node_id.index);
                        }
                    }
                }
                self.detach_from_parent(node_id);
                let ghost ta = *self;
                if match self.core_tree.root.as_ref() {
                    Some(r) => r.index == node_id.index,
                    None => false,
                } {
                    self.core_tree.root = None;
                    proof {
                        Self::lemma_links_same_nodes(ta, *self);
                        Self::lemma_acyclic_same_nodes(ta, *self);
                        assert(self.core_tree.wf_free()) by {
                            Self::lemma_wf_free_same_occupancy(ta, *self);
                        }
                        assert(self.wf());
                    }
                }
                let ghost tm = *self;
                proof {
                    assert(tm.wf());
                    assert(tm.valid(*parent_id));
                    assert(tm.valid(*node_id));
                    assert(tm.node_at(ni).parent is None);
                    assert(tm.core_tree.root != Some(*node_id)) by {
                        match tm.core_tree.root {
                            Some(rt) => {
                                assert(rt.index != node_id.index);
                            },
                            None => {
                            },
                        }
                    }
                    // the destination is outside the node's subtree, so its
                    // chain avoids the node before and after the detach
                    if tm.is_desc(pi, ni) {
                        let f = choose|f: nat| tm.on_chain(pi, ni, f);
                        let fm = choose|fm: nat| tm.all_rooted(fm);
                        assert(tm.occupied(pi));
                        assert(tm.rooted(pi, fm));
                        tm.lemma_on_chain_fuel(pi, ni, fm, f);
                        assert(t0.rooted(pi, fuel));
                        assert forall|j: int| #[trigger] t0.on_chain(pi, j, fuel) implies
                            tm.occupied(j) && tm.node_at(j).parent == t0.node_at(j).parent by {
                            Self::lemma_chain_occupied(t0, pi, j, fuel);
                            assert(j != ni) by {
                                if j == ni {
                                    t0.lemma_on_chain_fuel(pi, ni, fuel, fuel);
                                }
                            }
                            assert(tm.node_at(j) == ta.node_at(j));
                            match t0.parent_of(ni) {
                                Some(q) => {
                                    if j == q.index as int {
                                        assert(ta.node_at(j).parent == t0.node_at(j).parent);
                                    } else {
                                        assert(ta.node_at(j) == t0.node_at(j));
                                    }
                                },
                                None => {
                                    assert(ta.node_at(j) == t0.node_at(j));
                                },
                            }
                        }
                        t0.lemma_chain_frame(tm, pi, fuel);
                        tm.lemma_on_chain_fuel(pi, ni, fuel, fm);
                        assert(t0.on_chain(pi, ni, fuel));
                        assert(false);
                    }
                }
                self.set_as_parent_and_child(parent_id, node_id);
                proof {
                    broadcast use vstd::set_lib::group_set_lib_default;

                    let t1 = *self;
                    let qc = t0.parent_of(ni);
                    assert(t0.occupied(ni));
                    t0.lemma_links_at(ni);
                    match qc {
                        Some(q) => {
                            let qi = q.index as int;
                            assert(t0.valid(q));
                            assert(qi != ni) by {
                                t0.lemma_no_self_parent(ni, fuel);
                            }
                            assert(tm.node_at(pi).parent == t0.node_at(pi).parent) by {
                                if pi != qi {
                                    assert(ta.node_at(pi) == t0.node_at(pi));
                                } else {
                                    assert(ta.node_at(pi).parent == t0.node_at(pi).parent);
                                }
                                assert(tm.node_at(pi).parent == ta.node_at(pi).parent);
                            }
                            if q == *parent_id {
                                assert(t1.children_of(pi) == tm.children_of(pi).push(*node_id));
                            } else {
                                assert(tm.occupied(qi));
                                Self::lemma_same_at(tm, t1, set![pi, ni], qi);
                                assert(t1.node_at(qi) == tm.node_at(qi));
                                assert(tm.node_at(qi) == ta.node_at(qi));
                                assert(ta.node_at(pi) == t0.node_at(pi));
                                assert(tm.node_at(pi) == t0.node_at(pi));
                                assert(tm.children_of(pi) == t0.children_of(pi));
                            }
                        },
                        None => {
                            assert(ta.node_at(pi) == t0.node_at(pi));
                            assert(tm.node_at(pi) == t0.node_at(pi));
                            assert(tm.children_of(pi) == t0.children_of(pi));
                        },
                    }
                    assert forall|j: int|
                        t0.occupied(j) && j != ni && j != pi && (match qc {
                            Some(q) => j != q.index as int,
                            None => true,
                        }) implies #[trigger] t1.node_at(j) == t0.node_at(j) by {
                        assert(ta.node_at(j) == t0.node_at(j));
                        assert(tm.node_at(j) == t0.node_at(j));
                        assert(tm.occupied(j));
                        Self::lemma_same_at(tm, t1, set![pi, ni], j);
                        assert(t1.node_at(j) == tm.node_at(j));
                    }
                    assert(t1.children_of(pi).last() == *node_id);
                    assert(t1.children_of(ni) == t0.children_of(ni)) by {
                        assert(tm.children_of(ni) == ta.children_of(ni));
                    }
                    // the destination keeps its own parent link and payload
                    assert(tm.node_at(pi).parent == t0.node_at(pi).parent && tm.node_at(pi).data
                        == t0.node_at(pi).data) by {
                        match qc {
                            Some(q) => {
                                let qi = q.index as int;
                                if pi != qi {
                                    assert(ta.node_at(pi) == t0.node_at(pi));
                                } else {
                                    assert(ta.node_at(pi).parent == t0.node_at(pi).parent);
                                    assert(ta.node_at(pi).data == t0.node_at(pi).data);
                                }
                                assert(tm.node_at(pi).parent == ta.node_at(pi).parent);
                                assert(tm.node_at(pi).data == ta.node_at(pi).data);
                            },
                            None => {
                                assert(ta.node_at(pi) == t0.node_at(pi));
                                assert(tm.node_at(pi) == ta.node_at(pi));
                            },
                        }
                    }
                    assert(t1.node_at(pi).parent == tm.node_at(pi).parent);
                    assert(t1.node_at(pi).data == tm.node_at(pi).data);
                }
                Ok(())
            },
        }
    }

    /// Moves a `Node` to the root of the `Tree`, leaving all its children in
    /// place.  An old root is attached as the last child of the moved
    /// `Node`; moving the root itself changes nothing.  On an invalid handle
    /// nothing is changed.
    pub fn move_node_to_root(&mut self, node_id: &NodeId) -> (r: Result<(), NodeIdError>)
        requires
            old(self).wf(),
            old(self).in_bounds(*node_id),
        ensures
            final(self).wf(),
            !old(self).valid(*node_id) ==> *final(self) == *old(self),
            node_id.tree_id != old(self).core_tree.id ==> r == Err::<(), _>(
                NodeIdError::InvalidNodeIdForTree,
            ),
            node_id.tree_id == old(self).core_tree.id && !old(self).valid(*node_id) ==> r
                == Err::<(), _>(NodeIdError::NodeIdNoLongerValid),
            old(self).valid(*node_id) ==> r is Ok,
            old(self).valid(*node_id) && old(self).core_tree.root == Some(*node_id) ==> *final(self) == *old(self),
            old(self).valid(*node_id) && old(self).core_tree.root != Some(*node_id)
                ==> Self::moved_to_root(*old(self), *final(self), *node_id),
    {
        let ghost t0 = *old(self);
        let (is_valid, error) = self.core_tree.is_valid_node_id(node_id);
        if !is_valid {
            return Err(match error {
                Some(e) => e,
                None => vstd::pervasive::unreached(),
            });
        }
        let is_root = match self.core_tree.root.as_ref() {
            Some(r) => r.index == node_id.index,
            None => false,
        };
        if is_root {
            proof {
                t0.lemma_n_fits();
                match t0.core_tree.root {
                    Some(rt) => {
                        assert(t0.valid(rt));
                        assert(rt == *node_id);
                    },
                    None => {
                    },
                }
            }
            // the node is the root already
            return Ok(());
        }
        let ghost ni = node_id.index as int;
        let old_root = match self.core_tree.root.as_ref() {
            Some(r) => Some(*r),
            None => None,
        };
        self.detach_from_parent(node_id);
        let ghost ta = *self;
        self.core_tree.root = Some(*node_id);
        proof {
            Self::lemma_links_same_nodes(ta, *self);
            Self::lemma_acyclic_same_nodes(ta, *self);
            Self::lemma_wf_free_same_occupancy(ta, *self);
            assert(self.wf()) by {
                assert(self.node_at(ni).parent is None);
            }
        }
        let ghost tm = *self;
        match old_root {
            Some(old_root_id) => {
                proof {
                    assert(t0.core_tree.root == Some(old_root_id));
                    assert(t0.valid(old_root_id));
                    let ri = old_root_id.index as int;
                    assert(ri != ni) by {
                        if old_root_id == *node_id {
                            assert(false);
                        }
                        t0.lemma_n_fits();
                    }
                    assert(tm.valid(old_root_id));
                    assert(tm.valid(*node_id));
                    assert(tm.node_at(ri).parent is None) by {
                        assert(t0.node_at(ri).parent is None);
                        match t0.parent_of(ni) {
                            Some(q) => {
                                if ri == q.index as int {
                                    assert(ta.node_at(ri).parent == t0.node_at(ri).parent);
                                } else {
                                    assert(ta.node_at(ri) == t0.node_at(ri));
                                }
                            },
                            None => {
                                assert(ta.node_at(ri) == t0.node_at(ri));
                            },
                        }
                    }
                    // the moved node is parentless, so nothing is above it
                    if tm.is_desc(ni, ri) {
                        let f = choose|f: nat| tm.on_chain(ni, ri, f);
                        assert(tm.node_at(ni).parent is None);
                        assert(!tm.on_chain(ni, ri, f));
                        assert(false);
                    }
                }
                self.set_as_parent_and_child(node_id, &old_root_id);
                proof {
                    broadcast use vstd::set_lib::group_set_lib_default;

                    let t1 = *self;
                    let ri = old_root_id.index as int;
                    let qc = t0.parent_of(ni);
                    assert(t0.occupied(ni));
                    t0.lemma_links_at(ni);
                    t0.lemma_n_fits();
                    assert(t1.children_of(ni) == tm.children_of(ni).push(old_root_id));
                    assert(tm.children_of(ni) == t0.children_of(ni)) by {
                        assert(ta.children_of(ni) == t0.children_of(ni));
                    }
                    assert(t1.node_at(ni).parent is None) by {
                        assert(tm.node_at(ni).parent is None);
                    }
                    match qc {
                        Some(q) => {
                            let qi = q.index as int;
                            assert(qi != ni);
                            if qi == ri {
                                // the old parent was the old root itself: its
                                // slot is described by the re-wiring
                                assert(t1.node_at(qi).parent == Some(*node_id));
                                assert(t1.node_at(qi).data == tm.node_at(qi).data);
                                assert(t1.children_of(qi) == tm.children_of(qi));
                                assert(tm.node_at(qi).data == ta.node_at(qi).data);
                                assert(tm.children_of(qi) == ta.children_of(qi));
                            } else {
                                assert(tm.occupied(qi)) by {
                                    assert(t0.valid(q));
                                }
                                Self::lemma_same_at(tm, t1, set![ni, ri], qi);
                                assert(t1.node_at(qi) == tm.node_at(qi));
                                assert(tm.node_at(qi) == ta.node_at(qi));
                                // the displaced root keeps its children
                                assert(t1.children_of(ri) == tm.children_of(ri));
                                assert(tm.node_at(ri) == ta.node_at(ri));
                                assert(ta.node_at(ri) == t0.node_at(ri));
                            }
                        },
                        None => {
                            assert(t1.children_of(ri) == tm.children_of(ri));
                            assert(tm.node_at(ri) == ta.node_at(ri));
                            assert(ta.node_at(ri) == t0.node_at(ri));
                        },
                    }
                    assert(t1.node_at(ri).data == t0.node_at(ri).data) by {
                        match qc {
                            Some(q) => {
                                if q.index as int == ri {
                                } else {
                                    assert(ta.node_at(ri) == t0.node_at(ri));
                                }
                            },
                            None => {
                                assert(ta.node_at(ri) == t0.node_at(ri));
                            },
                        }
                        assert(t1.node_at(ri).data == tm.node_at(ri).data);
                    }
                    assert forall|j: int|
                        t0.occupied(j) && j != ni && j != ri && (match qc {
                            Some(q) => j != q.index as int,
                            None => true,
                        }) implies #[trigger] t1.node_at(j) == t0.node_at(j) by {
                        assert(ta.node_at(j) == t0.node_at(j));
                        assert(tm.occupied(j));
                        Self::lemma_same_at(tm, t1, set![ni, ri], j);
                        assert(t1.node_at(j) == tm.node_at(j));
                    }
                    assert(qc != Some(old_root_id) ==> t1.children_of(ri) == t0.children_of(
                        ri,
                    )) by {
                        match qc {
                            Some(q) => {
                                if q.index as int == ri {
                                    assert(t0.valid(q));
                                    assert(t0.valid(old_root_id));
                                    assert(q == old_root_id);
                                }
                            },
                            None => {
                            },
                        }
                    }
                }
            },
            None => {
                proof {
                    let t1 = *self;
                    assert(t1.children_of(ni) == t0.children_of(ni)) by {
                        assert(ta.children_of(ni) == t0.children_of(ni));
                    }
                    assert(t1.node_at(ni).data == t0.node_at(ni).data) by {
                        assert(ta.node_at(ni).data == t0.node_at(ni).data);
                    }
                    assert(t0.occupied(ni));
                    t0.lemma_links_at(ni);
                    match t0.parent_of(ni) {
                        Some(q) => {
                            assert(t0.valid(q));
                            assert(t1.node_at(q.index as int) == ta.node_at(q.index as int));
                        },
                        None => {
                        },
                    }
                    assert forall|j: int|
                        t0.occupied(j) && j != ni && (match t0.parent_of(ni) {
                            Some(q) => j != q.index as int,
                            None => true,
                        }) implies #[trigger] t1.node_at(j) == t0.node_at(j) by {
                        assert(ta.node_at(j) == t0.node_at(j));
                        assert(t1.node_at(j) == ta.node_at(j));
                    }
                }
            },
        }
        Ok(())
    }

    /// Moves a `Node` in the `Tree` to a new location, as the `MoveBehavior`
    /// directs.  On an invalid handle nothing is changed.
    pub fn move_node(&mut self, node_id: &NodeId, behavior: MoveBehavior<'_>) -> (r: Result<
        (),
        NodeIdError,
    >)
        requires
            old(self).wf(),
            old(self).in_bounds(*node_id),
            behavior matches MoveBehavior::ToParent(p) ==> old(self).in_bounds(*p),
        ensures
            final(self).wf(),
            node_id.tree_id != old(self).core_tree.id ==> r == Err::<(), _>(
                NodeIdError::InvalidNodeIdForTree,
            ),
            node_id.tree_id == old(self).core_tree.id && !old(self).valid(*node_id) ==> r
                == Err::<(), _>(NodeIdError::NodeIdNoLongerValid),
            behavior matches MoveBehavior::ToRoot ==> (!old(self).valid(*node_id) ==> *final(self)
                == *old(self)),
            behavior matches MoveBehavior::ToRoot ==> (old(self).valid(*node_id) ==> (r is Ok
                && final(self).core_tree.root is Some && final(self).core_tree.root.unwrap().index
                == node_id.index)),
            behavior matches MoveBehavior::ToRoot ==> (old(self).valid(*node_id) && old(
                self,
            ).core_tree.root == Some(*node_id) ==> *final(self) == *old(self)),
            behavior matches MoveBehavior::ToRoot ==> (old(self).valid(*node_id) && old(
                self,
            ).core_tree.root != Some(*node_id) ==> Self::moved_to_root(
                *old(self),
                *final(self),
                *node_id,
            )),
            behavior matches MoveBehavior::ToParent(p) ==> (!(old(self).valid(*node_id)
                && old(self).valid(*p)) ==> *final(self) == *old(self)),
            behavior matches MoveBehavior::ToParent(p) ==> (old(self).valid(*node_id)
                && old(self).valid(*p) ==> (r is Ok && (node_id.index != p.index ==> final(self).node_at(node_id.index as int).parent == Some(*p)))),
            behavior matches MoveBehavior::ToParent(p) ==> (old(self).valid(*node_id)
                && old(self).valid(*p) && node_id.index == p.index ==> *final(self) == *old(
                self,
            )),
            behavior matches MoveBehavior::ToParent(p) ==> (old(self).valid(*node_id)
                && old(self).valid(*p) && node_id.index != p.index ==> Self::moved_to_parent(
                *old(self),
                *final(self),
                *node_id,
                *p,
            )),
    {
        match behavior {
            MoveBehavior::ToRoot => {
                let r = self.move_node_to_root(node_id);
                proof {
                    if old(self).valid(*node_id) && old(self).core_tree.root == Some(*node_id) {
                        assert(final(self).core_tree.root == Some(*node_id));
                    }
                }
                r
            },
            MoveBehavior::ToParent(parent_id) => self.move_node_to_parent(node_id, parent_id),
        }
    }

    /// What holds between the tree before a move and the tree right after
    /// the promotion phase: the destination is now outside the moved node's
    /// subtree, and the moved node is a parentless node.
    proof fn lemma_after_promote(t0: Self, tm: Self, node_id: NodeId, parent_id: NodeId, s: NodeId)
        requires
            t0.wf(),
            tm.wf(),
            t0.valid(node_id),
            t0.valid(parent_id),
            t0.valid(s),
            node_id.index != parent_id.index,
            node_id.tree_id == t0.core_tree.id,
            parent_id.tree_id == t0.core_tree.id,
            t0.parent_of(s.index as int) == Some(node_id),
            t0.is_desc(parent_id.index as int, s.index as int),
            tm.core_tree.id == t0.core_tree.id,
            tm.n() == t0.n(),
            forall|j: int| #[trigger] tm.occupied(j) <==> t0.occupied(j),
            tm.node_at(node_id.index as int).parent is None,
            tm.node_at(s.index as int).children == t0.node_at(s.index as int).children,
            tm.node_at(s.index as int).parent == (if t0.core_tree.root == Some(node_id) {
                None::<NodeId>
            } else {
                t0.parent_of(node_id.index as int)
            }),
            tm.core_tree.root == (if t0.core_tree.root == Some(node_id) {
                Some(s)
            } else {
                t0.core_tree.root
            }),
            match t0.parent_of(node_id.index as int) {
                Some(q) => tm.node_at(q.index as int).parent == t0.node_at(q.index as int).parent,
                None => true,
            },
            forall|j: int|
                t0.occupied(j) && j != node_id.index as int && j != s.index as int && (match
                    t0.parent_of(node_id.index as int) {
                    Some(q) => j != q.index as int,
                    None => true,
                }) ==> #[trigger] tm.node_at(j) == t0.node_at(j),
        ensures
            tm.valid(parent_id),
            tm.valid(node_id),
            !tm.is_desc(parent_id.index as int, node_id.index as int),
            tm.core_tree.root != Some(node_id),
    {
        let ni = node_id.index as int;
        let si = s.index as int;
        let pi = parent_id.index as int;
        let fuel = choose|f: nat| t0.all_rooted(f);
        let fm = choose|f: nat| tm.all_rooted(f);
        assert(t0.occupied(ni) && t0.occupied(si) && t0.occupied(pi));
        assert(tm.occupied(ni) && tm.occupied(si) && tm.occupied(pi));
        assert(t0.rooted(ni, fuel) && t0.rooted(si, fuel) && t0.rooted(pi, fuel));
        assert(tm.rooted(ni, fm) && tm.rooted(si, fm) && tm.rooted(pi, fm));
        t0.lemma_links_at(ni);
        t0.lemma_n_fits();
        t0.lemma_no_self_parent(ni, fuel);
        assert(t0.mk_id(ni) == node_id);
        assert(si != ni);
        // the root is no longer the moved node
        assert(tm.core_tree.root != Some(node_id)) by {
            if t0.core_tree.root == Some(node_id) {
                assert(tm.core_tree.root == Some(s));
            }
        }
        let qc = t0.parent_of(ni);
        // q, if any, is distinct from ni and si
        match qc {
            Some(q) => {
                assert(t0.valid(q));
                let qi = q.index as int;
                assert(qi != ni);
                if qi == si {
                    assert(t0.on_chain(si, si, 0));
                    assert(t0.on_chain(ni, ni, 0));
                    assert(t0.on_chain(ni, si, 1));
                    assert(t0.on_chain(si, ni, 1));
                    t0.lemma_chain_antisym(ni, si, 1, 1, fuel);
                    assert(false);
                }
            },
            None => {
            },
        }
        // the old chain from the destination to s survives the promotion
        assert(t0.on_chain(pi, si, fuel)) by {
            let g = choose|g: nat| t0.on_chain(pi, si, g);
            t0.lemma_on_chain_fuel(pi, si, fuel, g);
        }
        assert(tm.on_chain(pi, si, fuel)) by {
            assert forall|j: int|
                #[trigger] t0.on_chain(pi, j, fuel) && t0.on_chain(j, si, fuel) && j != si implies
                tm.occupied(j) && tm.node_at(j).parent == t0.node_at(j).parent by {
                Self::lemma_chain_occupied(t0, pi, j, fuel);
                assert(j != ni) by {
                    if j == ni {
                        // s would sit above the node and below it
                        assert(t0.on_chain(ni, ni, 0));
                        assert(t0.on_chain(si, ni, 1));
                        t0.lemma_chain_antisym(ni, si, fuel, 1, fuel);
                        assert(false);
                    }
                }
                match qc {
                    Some(q) => {
                        if j == q.index as int {
                            assert(tm.node_at(j).parent == t0.node_at(j).parent);
                        } else {
                            assert(tm.node_at(j) == t0.node_at(j));
                        }
                    },
                    None => {
                        assert(tm.node_at(j) == t0.node_at(j));
                    },
                }
            }
            t0.lemma_chain_frame_prefix(tm, pi, si, fuel);
        }
        // and from there, the destination cannot reach the moved node
        if tm.is_desc(pi, ni) {
            let f = choose|f: nat| tm.on_chain(pi, ni, f);
            tm.lemma_on_chain_fuel(pi, ni, fm, f);
            tm.lemma_on_chain_fuel(pi, si, fm, fuel);
            tm.lemma_chain_linear(pi, ni, si, fm, fm);
            if tm.on_chain(ni, si, fm) {
                assert(ni != si);
                assert(false);
            } else {
                assert(tm.on_chain(si, ni, fm));
                if t0.core_tree.root == Some(node_id) {
                    assert(tm.node_at(si).parent is None);
                    assert(si != ni);
                    assert(false);
                } else {
                    match qc {
                        Some(q) => {
                            let qi = q.index as int;
                            assert(tm.node_at(si).parent == Some(q));
                            assert(tm.on_chain(qi, ni, (fm - 1) as nat));
                            // q's chain is untouched and avoids the node
                            assert(t0.rooted(qi, fuel));
                            assert forall|j: int| #[trigger] t0.on_chain(qi, j, fuel) implies
                                tm.occupied(j) && tm.node_at(j).parent == t0.node_at(
                                j,
                            ).parent by {
                                Self::lemma_chain_occupied(t0, qi, j, fuel);
                                t0.lemma_parent_not_desc(ni, q, fuel, fuel);
                                assert(j != ni);
                                assert(j != si) by {
                                    if j == si {
                                        assert(t0.on_chain(ni, ni, 0));
                                        assert(t0.on_chain(si, ni, 1));
                                        t0.lemma_chain_trans(qi, si, ni, fuel, 1);
                                        t0.lemma_parent_not_desc(ni, q, fuel + 1, fuel);
                                        assert(false);
                                    }
                                }
                                if j == qi {
                                    assert(tm.node_at(j).parent == t0.node_at(j).parent);
                                } else {
                                    assert(tm.node_at(j) == t0.node_at(j));
                                }
                            }
                            t0.lemma_chain_frame(tm, qi, fuel);
                            assert(tm.rooted(qi, fuel));
                            tm.lemma_on_chain_fuel(qi, ni, fuel, (fm - 1) as nat);
                            assert(tm.on_chain(qi, ni, fuel));
                            assert(t0.on_chain(qi, ni, fuel));
                            t0.lemma_parent_not_desc(ni, q, fuel, fuel);
                            assert(false);
                        },
                        None => {
                            assert(tm.node_at(si).parent is None);
                            assert(si != ni);
                            assert(false);
                        },
                    }
                }
            }
        }
    }

    /// Takes `node_id` out of its parent's child list and clears its parent
    /// link, making it a parentless node.  Does nothing for a node that
    /// already has no parent.
    pub(crate) fn detach_from_parent(&mut self, node_id: &NodeId)
        requires
            old(self).wf(),
            old(self).valid(*node_id),
        ensures
            final(self).wf(),
            final(self).core_tree.id == old(self).core_tree.id,
            final(self).n() == old(self).n(),
            final(self).core_tree.free_ids == old(self).core_tree.free_ids,
            final(self).core_tree.root == old(self).core_tree.root,
            forall|j: int| #[trigger] final(self).occupied(j) <==> old(self).occupied(j),
            final(self).node_at(node_id.index as int).parent is None,
            final(self).node_at(node_id.index as int).data == old(self).node_at(
                node_id.index as int,
            ).data,
            final(self).node_at(node_id.index as int).children == old(self).node_at(
                node_id.index as int,
            ).children,
            match old(self).parent_of(node_id.index as int) {
                Some(q) => {
                    &&& final(self).node_at(q.index as int).parent == old(self).node_at(
                        q.index as int,
                    ).parent
                    &&& final(self).node_at(q.index as int).data == old(self).node_at(
                        q.index as int,
                    ).data
                    &&& removed_one(
                        old(self).children_of(q.index as int),
                        final(self).children_of(q.index as int),
                        *node_id,
                    )
                },
                None => true,
            },
            forall|j: int|
                old(self).occupied(j) && j != node_id.index as int && (match old(self).parent_of(
                    node_id.index as int,
                ) {
                    Some(q) => j != q.index as int,
                    None => true,
                }) ==> #[trigger] final(self).node_at(j) == old(self).node_at(j),
    {
        let ghost t0 = *old(self);
        let ghost ni = node_id.index as int;
        let ghost fuel = choose|f: nat| t0.all_rooted(f);
        proof {
            assert(t0.occupied(ni));
            assert(t0.rooted(ni, fuel));
            t0.lemma_links_at(ni);
            t0.lemma_n_fits();
            t0.lemma_no_self_parent(ni, fuel);
            assert(t0.mk_id(ni) == *node_id);
        }
        let old_parent = self.core_tree.get_unsafe(node_id).parent();
        match old_parent {
            Some(q) => {
                proof {
                    assert(t0.valid(q));
                    assert(q.index as int != ni);
                }
                match self.core_tree.get_mut(&q) {
                    Ok(qn) => qn.remove_child(*node_id),
                    Err(_) => proof {
                        assert(false);
                    },
                }
                match self.core_tree.get_mut(node_id) {
                    Ok(n) => n.set_parent(None),
                    Err(_) => proof {
                        assert(false);
                    },
                }
                proof {
                    Self::lemma_detach_wf(t0, *self, *node_id, q);
                }
            },
            None => {
            },
        }
    }

    /// After detaching one node from its parent, the tree is well formed.
    proof fn lemma_detach_wf(t0: Self, t1: Self, node_id: NodeId, q: NodeId)
        requires
            t0.wf(),
            t0.valid(node_id),
            t0.parent_of(node_id.index as int) == Some(q),
            t1.core_tree.id == t0.core_tree.id,
            t1.n() == t0.n(),
            t1.core_tree.free_ids == t0.core_tree.free_ids,
            t1.core_tree.root == t0.core_tree.root,
            forall|j: int| #[trigger] t1.occupied(j) <==> t0.occupied(j),
            t1.node_at(node_id.index as int).parent is None,
            t1.node_at(node_id.index as int).children == t0.node_at(
                node_id.index as int,
            ).children,
            t1.node_at(q.index as int).parent == t0.node_at(q.index as int).parent,
            removed_one(
                t0.children_of(q.index as int),
                t1.children_of(q.index as int),
                node_id,
            ),
            forall|j: int|
                t0.occupied(j) && j != node_id.index as int && j != q.index as int ==> #[trigger]
                    t1.node_at(j) == t0.node_at(j),
        ensures
            t1.wf(),
    {
        let ni = node_id.index as int;
        let qi = q.index as int;
        let fuel = choose|f: nat| t0.all_rooted(f);
        Self::lemma_wf_free_same_occupancy(t0, t1);
        assert(t0.occupied(ni));
        assert(t0.rooted(ni, fuel));
        t0.lemma_links_at(ni);
        t0.lemma_n_fits();
        t0.lemma_no_self_parent(ni, fuel);
        assert(t0.valid(q));
        assert(qi != ni);
        assert(t0.occupied(qi));
        t0.lemma_links_at(qi);
        assert(t0.mk_id(ni) == node_id);
        let kq = choose|kq: int|
            0 <= kq < t0.children_of(qi).len() && t0.children_of(qi)[kq] == node_id && (forall|
                j: int,
            |
                0 <= j < kq ==> t0.children_of(qi)[j] != node_id) && t1.children_of(qi)
                == t0.children_of(qi).remove(kq);
        crate::removal::lemma_remove_keeps(t0.children_of(qi), kq);
        // membership facts around the node
        assert forall|j: int|
            t0.occupied(j) implies (t0.children_of(ni).contains(t0.mk_id(j))
                <==> t0.node_at(j).parent == Some(node_id)) by {
            t0.lemma_links_at(j);
            if t0.children_of(ni).contains(t0.mk_id(j)) {
                let m = choose|m: int|
                    0 <= m < t0.children_of(ni).len() && t0.children_of(ni)[m] == t0.mk_id(j);
                assert(t0.valid(t0.children_of(ni)[m]));
                assert(t0.node_at(t0.children_of(ni)[m].index as int).parent == Some(
                    t0.mk_id(ni),
                ));
                assert(t0.mk_id(j).index as int == j);
            }
        }
        // links
        assert forall|i: int| #[trigger] t1.occupied(i) implies t1.parent_link_ok(i)
            && t1.child_links_ok(i) by {
            assert(t0.occupied(i));
            t0.lemma_links_at(i);
            // parent link
            match t1.node_at(i).parent {
                Some(p) => {
                    let pi2 = p.index as int;
                    assert(t1.node_at(i).parent == t0.node_at(i).parent) by {
                        if i == qi {
                        } else {
                            assert(i != ni);
                            assert(t1.node_at(i) == t0.node_at(i));
                        }
                    }
                    assert(t0.valid(p));
                    assert(t1.occupied(pi2));
                    assert(t1.valid(p));
                    assert(t0.children_of(pi2).contains(t0.mk_id(i)));
                    if pi2 == qi {
                        assert(t1.children_of(qi).contains(t1.mk_id(i))) by {
                            assert(t0.mk_id(i) != node_id) by {
                                assert(i != ni);
                            }
                        }
                    } else if pi2 == ni {
                        assert(t1.children_of(ni) == t0.children_of(ni));
                        assert(t1.children_of(ni).contains(t1.mk_id(i)));
                    } else {
                        assert(t1.node_at(pi2) == t0.node_at(pi2));
                        assert(t1.children_of(pi2).contains(t1.mk_id(i)));
                    }
                },
                None => {
                },
            }
            // child links
            let clist = t1.children_of(i);
            assert(clist.no_duplicates()) by {
                if i == qi {
                } else if i == ni {
                } else {
                    assert(t1.node_at(i) == t0.node_at(i));
                }
            }
            assert forall|c: int| 0 <= c < clist.len() implies t1.valid(#[trigger] clist[c])
                && t1.node_at(clist[c].index as int).parent == Some(t1.mk_id(i)) by {
                let e = clist[c];
                assert(t0.children_of(i).contains(e) && e != node_id) by {
                    if i == qi {
                        assert(clist.contains(e));
                    } else if i == ni {
                        assert(clist == t0.children_of(ni));
                        assert(t0.children_of(ni).contains(e));
                        if e == node_id {
                            assert(t0.node_at(ni).parent == Some(node_id));
                            assert(false);
                        }
                    } else {
                        assert(t1.node_at(i) == t0.node_at(i));
                        assert(t0.children_of(i).contains(e));
                        if e == node_id {
                            assert(t0.node_at(ni).parent == Some(t0.mk_id(i)));
                            assert(t0.mk_id(i) == q);
                            assert(i == qi);
                            assert(false);
                        }
                    }
                }
                assert(t0.valid(e));
                let ei = e.index as int;
                assert(ei != ni);
                assert(t1.occupied(ei));
                assert(t1.valid(e));
                assert(t0.node_at(ei).parent == Some(t0.mk_id(i)));
                if ei == qi {
                    assert(t1.node_at(ei).parent == t0.node_at(ei).parent);
                } else {
                    assert(t1.node_at(ei) == t0.node_at(ei));
                }
            }
        }
        // root
        match t1.core_tree.root {
            Some(rt) => {
                assert(t0.valid(rt));
                let ri = rt.index as int;
                assert(t1.occupied(ri));
                assert(ri != ni) by {
                    if ri == ni {
                        assert(t0.node_at(ni).parent is None);
                    }
                }
                assert(t1.node_at(ri).parent is None) by {
                    if ri == qi {
                    } else {
                        assert(t1.node_at(ri) == t0.node_at(ri));
                    }
                }
            },
            None => {
            },
        }
        // acyclicity: the node was cut loose, everything else kept its parent
        assert forall|i: int| #[trigger] t1.occupied(i) implies t1.rooted(i, fuel + 1) by {
            assert(t0.occupied(i));
            assert(t0.rooted(i, fuel));
            assert forall|j: int| #[trigger] t1.occupied(j) implies {
                ||| t1.node_at(j).parent is None
                ||| (None::<NodeId> matches Some(tg) && t1.node_at(j).parent == Some(tg))
                ||| (t1.node_at(j).parent == t0.node_at(j).parent && t0.occupied(j) && (
                match t0.node_at(j).parent {
                    Some(p) => t1.occupied(p.index as int),
                    None => true,
                }))
            } by {
                assert(t0.occupied(j));
                if j == ni {
                } else {
                    if j == qi {
                        assert(t1.node_at(j).parent == t0.node_at(j).parent);
                    } else {
                        assert(t1.node_at(j) == t0.node_at(j));
                    }
                    match t0.node_at(j).parent {
                        Some(p) => {
                            t0.lemma_links_at(j);
                            assert(t0.valid(p));
                            assert(t1.occupied(p.index as int));
                        },
                        None => {
                        },
                    }
                }
            }
            Self::lemma_rooted_redirect(t0, t1, None, 0, i, fuel);
        }
        assert(t1.all_rooted(fuel + 1));
    }

    /// Per-slot link symmetry after a promotion.
    proof fn lemma_promote_links_at(t0: Self, t1: Self, node_id: NodeId, s_id: NodeId, i: int)
        requires
            t0.wf(),
            t0.valid(node_id),
            t0.valid(s_id),
            t0.parent_of(s_id.index as int) == Some(node_id),
            t1.core_tree.id == t0.core_tree.id,
            t1.n() == t0.n(),
            forall|j: int| #[trigger] t1.occupied(j) <==> t0.occupied(j),
            t1.node_at(node_id.index as int).parent is None,
            t1.node_at(node_id.index as int).children@.no_duplicates(),
            forall|x: NodeId|
                #[trigger] t1.children_of(node_id.index as int).contains(x) <==> (x != s_id
                    && t0.children_of(node_id.index as int).contains(x)),
            t1.node_at(s_id.index as int).children == t0.node_at(s_id.index as int).children,
            t1.node_at(s_id.index as int).parent == (if t0.core_tree.root == Some(node_id) {
                None::<NodeId>
            } else {
                t0.parent_of(node_id.index as int)
            }),
            match t0.parent_of(node_id.index as int) {
                Some(q) => {
                    &&& q.index as int != node_id.index as int
                    &&& q.index as int != s_id.index as int
                    &&& t1.node_at(q.index as int).parent == t0.node_at(q.index as int).parent
                    &&& t1.children_of(q.index as int).no_duplicates()
                    &&& (forall|x: NodeId|
                        #[trigger] t1.children_of(q.index as int).contains(x) <==> (x == s_id || (
                        x != node_id && t0.children_of(q.index as int).contains(x))))
                },
                None => true,
            },
            forall|j: int|
                t0.occupied(j) && j != node_id.index as int && j != s_id.index as int && (
                match t0.parent_of(node_id.index as int) {
                    Some(q) => j != q.index as int,
                    None => true,
                }) ==> #[trigger] t1.node_at(j) == t0.node_at(j),
            t1.occupied(i),
        ensures
            t1.parent_link_ok(i),
            t1.child_links_ok(i),
    {
        let ni = node_id.index as int;
        let si = s_id.index as int;
        let fuel = choose|f: nat| t0.all_rooted(f);
        assert(t0.occupied(i));
        t0.lemma_links_at(i);
        assert(t0.occupied(ni));
        assert(t0.occupied(si));
        assert(t0.rooted(ni, fuel));
        t0.lemma_links_at(ni);
        t0.lemma_links_at(si);
        t0.lemma_n_fits();
        t0.lemma_no_self_parent(ni, fuel);
        assert(si != ni);
        assert(t0.mk_id(ni) == node_id);
        assert(t0.mk_id(si) == s_id);
        let qc = t0.parent_of(ni);
        // children of ni are exactly the slots with parent ni, and similarly
        // nobody outside the child list of a slot points at it
        assert forall|j: int|
            t0.occupied(j) implies (t0.children_of(ni).contains(t0.mk_id(j))
                <==> t0.node_at(j).parent == Some(node_id)) by {
            t0.lemma_links_at(j);
            if t0.children_of(ni).contains(t0.mk_id(j)) {
                let m = choose|m: int|
                    0 <= m < t0.children_of(ni).len() && t0.children_of(ni)[m] == t0.mk_id(j);
                assert(t0.valid(t0.children_of(ni)[m]));
                assert(t0.node_at(t0.children_of(ni)[m].index as int).parent == Some(
                    t0.mk_id(ni),
                ));
                assert(t0.mk_id(j).index as int == j);
            }
        }
        // how slot i's fields look in t1, by case
        let n1 = t1.node_at(i);
        // parent link of i is matched by the new child lists
        match n1.parent {
            Some(p) => {
                let pi2 = p.index as int;
                if i == si {
                    // s now answers to q, whose list holds s
                    assert(qc == Some(p));
                    assert(t0.valid(p));
                    assert(t1.occupied(pi2));
                    assert(t1.valid(p));
                    assert(t1.children_of(pi2).contains(t1.mk_id(i))) by {
                        assert(t1.children_of(pi2).contains(s_id));
                    }
                } else if i == ni {
                    assert(false);
                } else {
                    assert(t1.node_at(i).parent == t0.node_at(i).parent) by {
                        match qc {
                            Some(q) => {
                                if i == q.index as int {
                                } else {
                                    assert(t1.node_at(i) == t0.node_at(i));
                                }
                            },
                            None => {
                                assert(t1.node_at(i) == t0.node_at(i));
                            },
                        }
                    }
                    assert(t0.valid(p));
                    assert(t1.occupied(pi2));
                    assert(t1.valid(p));
                    assert(t0.children_of(pi2).contains(t0.mk_id(i)));
                    if pi2 == ni {
                        // i was and stays a child of node (it is not s)
                        assert(t1.children_of(ni).contains(t1.mk_id(i))) by {
                            assert(t0.mk_id(i) != s_id);
                        }
                    } else if pi2 == si {
                        assert(t1.children_of(si) == t0.children_of(si));
                    } else {
                        match qc {
                            Some(q) => {
                                if pi2 == q.index as int {
                                    assert(t1.children_of(pi2).contains(t1.mk_id(i))) by {
                                        assert(t0.mk_id(i) != node_id);
                                    }
                                } else {
                                    assert(t1.node_at(pi2) == t0.node_at(pi2));
                                }
                            },
                            None => {
                                assert(t1.node_at(pi2) == t0.node_at(pi2));
                            },
                        }
                    }
                }
            },
            None => {
            },
        }
        // children of i point back at i
        let old_parent_of = |e: NodeId| t0.node_at(e.index as int).parent;
        if i == ni {
            assert forall|c: int| 0 <= c < t1.children_of(ni).len() implies t1.valid(
                #[trigger] t1.children_of(ni)[c],
            ) && t1.node_at(t1.children_of(ni)[c].index as int).parent == Some(t1.mk_id(ni)) by {
                let e = t1.children_of(ni)[c];
                assert(t1.children_of(ni).contains(e));
                assert(e != s_id && t0.children_of(ni).contains(e));
                assert(t0.valid(e));
                let ei = e.index as int;
                assert(t1.occupied(ei));
                assert(t0.node_at(ei).parent == Some(node_id));
                assert(ei != si);
                assert(ei != ni);
                match qc {
                    Some(q) => {
                        assert(ei != q.index as int) by {
                            if ei == q.index as int {
                                assert(t0.node_at(q.index as int).parent == Some(node_id));
                                assert(t0.on_chain(ni, ni, 0));
                                assert(t0.on_chain(q.index as int, q.index as int, 0));
                                assert(t0.on_chain(ni, q.index as int, 1));
                                assert(t0.on_chain(q.index as int, ni, 1));
                                t0.lemma_chain_antisym(ni, q.index as int, 1, 1, fuel);
                                assert(false);
                            }
                        }
                    },
                    None => {
                    },
                }
                assert(t1.node_at(ei) == t0.node_at(ei));
            }
        } else if i == si {
            assert(t1.children_of(si) == t0.children_of(si));
            assert forall|c: int| 0 <= c < t1.children_of(si).len() implies t1.valid(
                #[trigger] t1.children_of(si)[c],
            ) && t1.node_at(t1.children_of(si)[c].index as int).parent == Some(t1.mk_id(si)) by {
                let e = t0.children_of(si)[c];
                assert(t0.valid(e));
                let ei = e.index as int;
                assert(t1.occupied(ei));
                assert(t0.node_at(ei).parent == Some(s_id));
                assert(ei != ni) by {
                    if ei == ni {
                        assert(t0.node_at(ni).parent == Some(s_id));
                        assert(t0.on_chain(ni, ni, 0));
                        assert(t0.on_chain(si, si, 0));
                        assert(t0.on_chain(si, ni, 1));
                        assert(t0.on_chain(ni, si, 1));
                        t0.lemma_chain_antisym(ni, si, 1, 1, fuel);
                        assert(false);
                    }
                }
                assert(ei != si);
                match qc {
                    Some(q) => {
                        assert(ei != q.index as int) by {
                            if ei == q.index as int {
                                // q would be both above ni and below si
                                assert(t0.node_at(q.index as int).parent == Some(s_id));
                                assert(t0.on_chain(si, si, 0));
                                assert(t0.on_chain(q.index as int, si, 1));
                                t0.lemma_chain_step(q.index as int, si, node_id, 1);
                                assert(t0.on_chain(q.index as int, ni, 2));
                                assert(t0.valid(q));
                                assert(t0.on_chain(q.index as int, q.index as int, 0));
                                assert(t0.on_chain(ni, q.index as int, 1));
                                t0.lemma_chain_antisym(ni, q.index as int, 1, 2, fuel);
                                assert(false);
                            }
                        }
                    },
                    None => {
                    },
                }
                assert(t1.node_at(ei) == t0.node_at(ei));
            }
        } else {
            let is_q = match qc {
                Some(q) => i == q.index as int,
                None => false,
            };
            if is_q {
                let q = qc.unwrap();
                let qi = q.index as int;
                assert forall|c: int| 0 <= c < t1.children_of(qi).len() implies t1.valid(
                    #[trigger] t1.children_of(qi)[c],
                ) && t1.node_at(t1.children_of(qi)[c].index as int).parent == Some(
                    t1.mk_id(qi),
                ) by {
                    let e = t1.children_of(qi)[c];
                    assert(t1.children_of(qi).contains(e));
                    let ei = e.index as int;
                    if e == s_id {
                        assert(t1.occupied(si));
                        assert(t1.node_at(si).parent == Some(q)) by {
                            assert(t0.core_tree.root != Some(node_id)) by {
                                if t0.core_tree.root == Some(node_id) {
                                    assert(t0.node_at(ni).parent is None);
                                }
                            }
                        }
                        assert(q == t0.mk_id(qi));
                    } else {
                        assert(e != node_id && t0.children_of(qi).contains(e));
                        assert(t0.valid(e));
                        assert(t1.occupied(ei));
                        assert(t0.node_at(ei).parent == Some(t0.mk_id(qi)));
                        assert(ei != ni);
                        assert(ei != si) by {
                            if ei == si {
                                assert(t0.node_at(si).parent == Some(t0.mk_id(qi)));
                            }
                        }
                        assert(ei != qi) by {
                            if ei == qi {
                                assert(t0.node_at(qi).parent == Some(t0.mk_id(qi)));
                                assert(t0.rooted(qi, fuel));
                                t0.lemma_no_self_parent(qi, fuel);
                                assert(false);
                            }
                        }
                        assert(t1.node_at(ei) == t0.node_at(ei));
                    }
                }
            } else {
                assert(t1.node_at(i) == t0.node_at(i));
                assert forall|c: int| 0 <= c < t1.children_of(i).len() implies t1.valid(
                    #[trigger] t1.children_of(i)[c],
                ) && t1.node_at(t1.children_of(i)[c].index as int).parent == Some(t1.mk_id(i)) by {
                    let e = t0.children_of(i)[c];
                    assert(t0.valid(e));
                    let ei = e.index as int;
                    assert(t1.occupied(ei));
                    assert(t0.node_at(ei).parent == Some(t0.mk_id(i)));
                    assert(ei != ni) by {
                        if ei == ni {
                            assert(t0.node_at(ni).parent == Some(t0.mk_id(i)));
                            assert(qc == Some(t0.mk_id(i)));
                            assert(i == t0.mk_id(i).index as int);
                            assert(false);
                        }
                    }
                    assert(ei != si) by {
                        if ei == si {
                            assert(t0.node_at(si).parent == Some(t0.mk_id(i)));
                            assert(t0.mk_id(i) == node_id);
                            assert(i == ni);
                            assert(false);
                        }
                    }
                    match qc {
                        Some(q) => {
                            if ei == q.index as int {
                                assert(t1.node_at(ei).parent == t0.node_at(ei).parent);
                            } else {
                                assert(t1.node_at(ei) == t0.node_at(ei));
                            }
                        },
                        None => {
                            assert(t1.node_at(ei) == t0.node_at(ei));
                        },
                    }
                }
            }
        }
    }
}

} // verus!
