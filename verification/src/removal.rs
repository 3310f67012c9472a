//! Removal of nodes from a `Tree`.
//!
//! Each removal policy validates the handle first and changes nothing on an
//! invalid one.  The returned `Node` has its parent and child links cleared,
//! so the caller cannot retain extra live handles through it.

use vstd::prelude::*;

use crate::error::NodeIdError;
use crate::node::Node;
use crate::tree::removed_one;
use crate::tree::Tree;
use crate::NodeId;

verus! {

/// Taking one position out of a duplicate-free sequence keeps it
/// duplicate-free, keeps every other element, and adds nothing.
pub(crate) proof fn lemma_remove_keeps(s: Seq<NodeId>, k: int)
    requires
        0 <= k < s.len(),
        s.no_duplicates(),
    ensures
        s.remove(k).no_duplicates(),
        forall|x: NodeId| #[trigger] s.remove(k).contains(x) ==> s.contains(x),
        forall|x: NodeId| s.contains(x) && x != s[k] ==> #[trigger] s.remove(k).contains(x),
        !s.remove(k).contains(s[k]),
{
    let r = s.remove(k);
    assert forall|x: NodeId| #[trigger] r.contains(x) implies s.contains(x) by {
        let m = choose|m: int| 0 <= m < r.len() && r[m] == x;
        if m < k {
            assert(s[m] == x);
        } else {
            assert(s[m + 1] == x);
        }
    }
    assert forall|x: NodeId| s.contains(x) && x != s[k] implies #[trigger] r.contains(x) by {
        let m = choose|m: int| 0 <= m < s.len() && s[m] == x;
        if m < k {
            assert(r[m] == x);
        } else {
            assert(m > k);
            assert(r[m - 1] == x);
        }
    }
    if r.contains(s[k]) {
        let m = choose|m: int| 0 <= m < r.len() && r[m] == s[k];
        if m < k {
            assert(s[m] == s[k]);
        } else {
            assert(s[m + 1] == s[k]);
        }
        assert(false);
    }
}

impl<T> Tree<T> {
    /// Clears the parent link of every direct child of `node_id`.
    fn clear_parent_of_children(&mut self, node_id: &NodeId)
        requires
            old(self).wf(),
            old(self).valid(*node_id),
        ensures
            final(self).core_tree.id == old(self).core_tree.id,
            final(self).core_tree.root == old(self).core_tree.root,
            final(self).core_tree.free_ids == old(self).core_tree.free_ids,
            final(self).n() == old(self).n(),
            final(self).core_tree.wf_free(),
            forall|j: int| #[trigger] final(self).occupied(j) <==> old(self).occupied(j),
            Self::children_reparented(
                *old(self),
                *final(self),
                node_id.index as int,
                None,
            ),
            forall|j: int|
                old(self).occupied(j) && !old(self).children_of(node_id.index as int).contains(
                    old(self).mk_id(j),
                ) ==> #[trigger] final(self).node_at(j) == old(self).node_at(j),
            final(self).node_at(node_id.index as int) == old(self).node_at(node_id.index as int),
            match old(self).parent_of(node_id.index as int) {
                Some(p) => final(self).node_at(p.index as int) == old(self).node_at(
                    p.index as int,
                ),
                None => true,
            },
    {
        let ghost t0 = *old(self);
        let ghost hi = node_id.index as int;
        let ghost ch = t0.children_of(hi);
        proof {
            assert(t0.occupied(hi));
            t0.lemma_links_at(hi);
        }
        let num_children = self.core_tree.get_unsafe(node_id).children().len();
        let mut k: usize = 0;
        while k < num_children
            invariant
                t0.wf(),
                t0.valid(*node_id),
                hi == node_id.index as int,
                ch == t0.children_of(hi),
                num_children == ch.len(),
                0 <= k <= num_children,
                self.core_tree.id == t0.core_tree.id,
                self.core_tree.root == t0.core_tree.root,
                self.core_tree.free_ids == t0.core_tree.free_ids,
                self.n() == t0.n(),
                forall|j: int| #[trigger] self.occupied(j) <==> t0.occupied(j),
                forall|j: int|
                    t0.occupied(j) && !ch.contains(t0.mk_id(j)) ==> #[trigger] self.node_at(j)
                        == t0.node_at(j),
                forall|m: int|
                    0 <= m < ch.len() ==> {
                        let ci = (#[trigger] ch[m]).index as int;
                        &&& self.node_at(ci).data == t0.node_at(ci).data
                        &&& self.node_at(ci).children == t0.node_at(ci).children
                        &&& self.node_at(ci).parent == (if m < k {
                            None
                        } else {
                            t0.node_at(ci).parent
                        })
                    },
            decreases num_children - k,
        {
            proof {
                assert(self.valid(*node_id)) by {
                    assert(self.occupied(hi) == t0.occupied(hi));
                }
                assert(t0.occupied(hi));
                t0.lemma_links_at(hi);
                assert(self.node_at(hi) == t0.node_at(hi)) by {
                    if ch.contains(t0.mk_id(hi)) {
                        assert(t0.node_at(hi).parent == Some(t0.mk_id(hi)));
                        let fuel = choose|fuel: nat| t0.all_rooted(fuel);
                        assert(t0.rooted(hi, fuel));
                        t0.lemma_no_self_parent(hi, fuel);
                        assert(false);
                    }
                }
                assert(t0.valid(ch[k as int]));
            }
            let child_id = self.core_tree.get_unsafe(node_id).children()[k];
            let ghost sb = *self;
            proof {
                assert(child_id == ch[k as int]);
                assert(self.occupied(child_id.index as int));
                assert(self.valid(child_id));
            }
            match self.core_tree.get_mut(&child_id) {
                Ok(child) => child.set_parent(None),
                Err(_) => proof {
                    assert(false);
                },
            }
            proof {
                t0.lemma_n_fits();
                let ci0 = child_id.index as int;
                assert forall|j: int| #[trigger] self.occupied(j) <==> t0.occupied(j) by {
                    assert(sb.occupied(j) <==> t0.occupied(j));
                }
                assert forall|j: int|
                    t0.occupied(j) && !ch.contains(t0.mk_id(j)) implies #[trigger] self.node_at(j)
                        == t0.node_at(j) by {
                    assert(sb.node_at(j) == t0.node_at(j));
                    if j == ci0 {
                        assert(t0.mk_id(j) == ch[k as int]);
                        assert(ch.contains(t0.mk_id(j)));
                        assert(false);
                    }
                }
                assert forall|m: int| 0 <= m < ch.len() implies {
                    let ci = (#[trigger] ch[m]).index as int;
                    &&& self.node_at(ci).data == t0.node_at(ci).data
                    &&& self.node_at(ci).children == t0.node_at(ci).children
                    &&& self.node_at(ci).parent == (if m < k + 1 {
                        None
                    } else {
                        t0.node_at(ci).parent
                    })
                } by {
                    assert(ch[m] == t0.mk_id(ch[m].index as int)) by {
                        assert(t0.valid(ch[m]));
                    }
                    if ch[m].index == ch[k as int].index && m != k {
                        assert(ch[k as int] == t0.mk_id(ch[k as int].index as int));
                        assert(ch[m] == ch[k as int]);
                        assert(ch.no_duplicates());
                        assert(false);
                    }
                    if m != k {
                        assert(self.node_at(ch[m].index as int) == sb.node_at(
                            ch[m].index as int,
                        ));
                    }
                }
            }
            k += 1;
        }
        proof {
            let fuel = choose|fuel: nat| t0.all_rooted(fuel);
            assert(t0.occupied(hi));
            assert(t0.rooted(hi, fuel));
            t0.lemma_links_at(hi);
            t0.lemma_no_self_parent(hi, fuel);
            assert(!ch.contains(t0.mk_id(hi))) by {
                if ch.contains(t0.mk_id(hi)) {
                    assert(t0.node_at(hi).parent == Some(t0.mk_id(hi)));
                    assert(false);
                }
            }
            Self::lemma_wf_free_same_occupancy(t0, *self);
            assert(self.node_at(hi) == t0.node_at(hi));
            match t0.parent_of(hi) {
                Some(p) => {
                    assert(t0.valid(p));
                    assert(!ch.contains(t0.mk_id(p.index as int))) by {
                        if ch.contains(t0.mk_id(p.index as int)) {
                            assert(t0.node_at(p.index as int).parent == Some(t0.mk_id(hi)));
                            assert(t0.mk_id(hi) == *node_id);
                            assert(t0.on_chain(p.index as int, p.index as int, 0));
                            assert(t0.on_chain(hi, hi, 0));
                            assert(t0.on_chain(hi, p.index as int, 1));
                            assert(t0.on_chain(p.index as int, hi, 1));
                            t0.lemma_chain_antisym(hi, p.index as int, 1, 1, fuel);
                            assert(false);
                        }
                    }
                    assert(self.node_at(p.index as int) == t0.node_at(p.index as int));
                },
                None => {
                },
            }
        }
    }

    /// The state handed to `extract_node` names a valid node whose parent, if
    /// any, is a distinct valid slot.
    proof fn lemma_pre_extract(t0: Self, ta: Self, node_id: NodeId)
        requires
            t0.wf(),
            t0.valid(node_id),
            ta.core_tree.id == t0.core_tree.id,
            ta.n() == t0.n(),
            forall|j: int| #[trigger] ta.occupied(j) <==> t0.occupied(j),
            ta.node_at(node_id.index as int).parent == t0.node_at(node_id.index as int).parent,
        ensures
            ta.valid(node_id),
            ta.parent_of(node_id.index as int) == t0.parent_of(node_id.index as int),
            t0.parent_of(node_id.index as int) matches Some(p) ==> ta.valid(p) && p.index
                != node_id.index,
    {
        let hi = node_id.index as int;
        assert(ta.occupied(hi));
        assert(t0.occupied(hi));
        t0.lemma_links_at(hi);
        let fuel = choose|fuel: nat| t0.all_rooted(fuel);
        assert(t0.rooted(hi, fuel));
        t0.lemma_no_self_parent(hi, fuel);
        match t0.parent_of(hi) {
            Some(p) => {
                assert(t0.valid(p));
                assert(ta.occupied(p.index as int));
                assert(p.index as int != hi);
            },
            None => {
            },
        }
    }

    /// The parent's child list still names the node in the intermediate
    /// state that only rewired the children of the node.
    proof fn lemma_extract_site(t0: Self, ta: Self, node_id: NodeId)
        requires
            t0.wf(),
            t0.valid(node_id),
            ta.n() == t0.n(),
            ta.core_tree.id == t0.core_tree.id,
            forall|j: int| #[trigger] ta.occupied(j) <==> t0.occupied(j),
            ta.node_at(node_id.index as int) == t0.node_at(node_id.index as int),
            match t0.parent_of(node_id.index as int) {
                Some(p) => ta.node_at(p.index as int) == t0.node_at(p.index as int),
                None => true,
            },
        ensures
            match ta.parent_of(node_id.index as int) {
                Some(p) => ta.valid(p) && p.index != node_id.index && ta.children_of(
                    p.index as int,
                ).contains(node_id),
                None => true,
            },
    {
        let hi = node_id.index as int;
        assert(t0.occupied(hi));
        t0.lemma_links_at(hi);
        t0.lemma_n_fits();
        let fuel = choose|f: nat| t0.all_rooted(f);
        assert(t0.rooted(hi, fuel));
        t0.lemma_no_self_parent(hi, fuel);
        assert(t0.mk_id(hi) == node_id);
        match t0.parent_of(hi) {
            Some(p) => {
                assert(t0.valid(p));
                assert(ta.occupied(p.index as int));
                assert(t0.children_of(p.index as int).contains(node_id));
            },
            None => {
            },
        }
    }

    /// Composes the facts about the intermediate state and the extraction
    /// into facts about the whole removal.
    proof fn lemma_post_extract(
        t0: Self,
        ta: Self,
        t1: Self,
        node_id: NodeId,
        new_parent: Option<NodeId>,
    )
        requires
            t0.wf(),
            t0.valid(node_id),
            match new_parent {
                Some(np) => t0.parent_of(node_id.index as int) == Some(np),
                None => true,
            },
            // the intermediate state: links rewritten, nothing else changed
            ta.core_tree.id == t0.core_tree.id,
            ta.core_tree.root == t0.core_tree.root,
            ta.n() == t0.n(),
            forall|j: int| #[trigger] ta.occupied(j) <==> t0.occupied(j),
            Self::children_reparented(t0, ta, node_id.index as int, new_parent),
            ta.node_at(node_id.index as int) == t0.node_at(node_id.index as int),
            match t0.parent_of(node_id.index as int) {
                Some(p) => {
                    &&& ta.node_at(p.index as int).parent == t0.node_at(p.index as int).parent
                    &&& ta.node_at(p.index as int).data == t0.node_at(p.index as int).data
                    &&& ta.children_of(p.index as int) == (match new_parent {
                        Some(_) => t0.children_of(p.index as int) + t0.children_of(
                            node_id.index as int,
                        ),
                        None => t0.children_of(p.index as int),
                    })
                },
                None => true,
            },
            forall|j: int|
                t0.occupied(j) && (match t0.parent_of(node_id.index as int) {
                    Some(p) => j != p.index as int,
                    None => true,
                }) && !t0.children_of(node_id.index as int).contains(t0.mk_id(j)) ==> #[trigger]
                    ta.node_at(j) == t0.node_at(j),
            // the extraction
            t1.core_tree.id == ta.core_tree.id,
            t1.n() == ta.n(),
            forall|j: int|
                #[trigger] t1.occupied(j) <==> (ta.occupied(j) && j != node_id.index as int),
            t1.core_tree.root == (if ta.core_tree.root == Some(node_id) {
                None::<NodeId>
            } else {
                ta.core_tree.root
            }),
            match ta.parent_of(node_id.index as int) {
                Some(p) => removed_one(
                    ta.children_of(p.index as int),
                    t1.children_of(p.index as int),
                    node_id,
                ) && t1.node_at(p.index as int).parent == ta.node_at(p.index as int).parent
                    && t1.node_at(p.index as int).data == ta.node_at(p.index as int).data,
                None => true,
            },
            forall|j: int|
                ta.occupied(j) && j != node_id.index as int && (match ta.parent_of(
                    node_id.index as int,
                ) {
                    Some(p) => j != p.index as int,
                    None => true,
                }) ==> #[trigger] t1.node_at(j) == ta.node_at(j),
        ensures
            t1.core_tree.id == t0.core_tree.id,
            t1.n() == t0.n(),
            forall|j: int|
                #[trigger] t1.occupied(j) <==> (t0.occupied(j) && j != node_id.index as int),
            t1.core_tree.root == (if t0.core_tree.root == Some(node_id) {
                None::<NodeId>
            } else {
                t0.core_tree.root
            }),
            Self::children_reparented(t0, t1, node_id.index as int, new_parent),
            match t0.parent_of(node_id.index as int) {
                Some(p) => {
                    &&& t1.node_at(p.index as int).parent == t0.node_at(p.index as int).parent
                    &&& t1.node_at(p.index as int).data == t0.node_at(p.index as int).data
                    &&& removed_one(
                        (match new_parent {
                            Some(_) => t0.children_of(p.index as int) + t0.children_of(
                                node_id.index as int,
                            ),
                            None => t0.children_of(p.index as int),
                        }),
                        t1.children_of(p.index as int),
                        node_id,
                    )
                },
                None => true,
            },
            forall|j: int|
                t0.occupied(j) && j != node_id.index as int && (match t0.parent_of(
                    node_id.index as int,
                ) {
                    Some(p) => j != p.index as int,
                    None => true,
                }) && !t0.children_of(node_id.index as int).contains(t0.mk_id(j)) ==> #[trigger]
                    t1.node_at(j) == t0.node_at(j),
    {
        let hi = node_id.index as int;
        let ch = t0.children_of(hi);
        let fuel = choose|fuel: nat| t0.all_rooted(fuel);
        assert(t0.occupied(hi));
        assert(t0.rooted(hi, fuel));
        t0.lemma_links_at(hi);
        t0.lemma_no_self_parent(hi, fuel);
        assert(ta.parent_of(hi) == t0.parent_of(hi));
        // the children of hi are distinct slots from hi and its parent
        assert(!ch.contains(t0.mk_id(hi))) by {
            if ch.contains(t0.mk_id(hi)) {
                assert(t0.node_at(hi).parent == Some(t0.mk_id(hi)));
                assert(false);
            }
        }
        match t0.parent_of(hi) {
            Some(p) => {
                let pi = p.index as int;
                assert(t0.valid(p));
                assert(pi != hi);
                assert(!ch.contains(t0.mk_id(pi))) by {
                    if ch.contains(t0.mk_id(pi)) {
                        assert(t0.node_at(pi).parent == Some(t0.mk_id(hi)));
                        assert(t0.mk_id(hi) == node_id);
                        assert(t0.on_chain(pi, pi, 0));
                        assert(t0.on_chain(hi, hi, 0));
                        assert(t0.on_chain(hi, pi, 1));
                        assert(t0.on_chain(pi, hi, 1));
                        t0.lemma_chain_antisym(hi, pi, 1, 1, fuel);
                        assert(false);
                    }
                }
            },
            None => {
            },
        }
        // the reparented children survive the extraction untouched
        assert forall|m: int| 0 <= m < ch.len() implies {
            let ci = (#[trigger] ch[m]).index as int;
            &&& t1.node_at(ci).parent == new_parent
            &&& t1.node_at(ci).data == t0.node_at(ci).data
            &&& t1.node_at(ci).children == t0.node_at(ci).children
        } by {
            let ci = ch[m].index as int;
            assert(t0.valid(ch[m]));
            assert(ch[m] == t0.mk_id(ci));
            assert(ci != hi);
            match t0.parent_of(hi) {
                Some(p) => {
                    assert(ci != p.index as int);
                },
                None => {
                },
            }
            assert(ta.occupied(ci));
            assert(t1.node_at(ci) == ta.node_at(ci));
        }
    }

    /// Rewrites the parent link of every direct child of `node_id` to
    /// `parent_id` and appends those children to `parent_id`'s child list.
    fn reparent_children(&mut self, node_id: &NodeId, parent_id: &NodeId)
        requires
            old(self).wf(),
            old(self).valid(*node_id),
            old(self).parent_of(node_id.index as int) == Some(*parent_id),
        ensures
            final(self).core_tree.id == old(self).core_tree.id,
            final(self).core_tree.root == old(self).core_tree.root,
            final(self).core_tree.free_ids == old(self).core_tree.free_ids,
            final(self).n() == old(self).n(),
            final(self).core_tree.wf_free(),
            forall|j: int| #[trigger] final(self).occupied(j) <==> old(self).occupied(j),
            Self::children_reparented(
                *old(self),
                *final(self),
                node_id.index as int,
                Some(*parent_id),
            ),
            final(self).children_of(parent_id.index as int) == old(self).children_of(
                parent_id.index as int,
            ) + old(self).children_of(node_id.index as int),
            final(self).node_at(parent_id.index as int).parent == old(self).node_at(
                parent_id.index as int,
            ).parent,
            final(self).node_at(parent_id.index as int).data == old(self).node_at(
                parent_id.index as int,
            ).data,
            final(self).node_at(node_id.index as int) == old(self).node_at(node_id.index as int),
            forall|j: int|
                old(self).occupied(j) && j != parent_id.index as int && !old(self).children_of(
                    node_id.index as int,
                ).contains(old(self).mk_id(j)) ==> #[trigger] final(self).node_at(j) == old(
                    self,
                ).node_at(j),
    {
        let ghost t0 = *old(self);
        let ghost hi = node_id.index as int;
        let ghost pi = parent_id.index as int;
        let ghost ch = t0.children_of(hi);
        let ghost fuel0 = choose|fuel: nat| t0.all_rooted(fuel);
        proof {
            assert(t0.occupied(hi));
            assert(t0.rooted(hi, fuel0));
            t0.lemma_links_at(hi);
            assert(t0.valid(*parent_id));
            // the node is not its own parent
            t0.lemma_no_self_parent(hi, fuel0);
            assert(pi != hi);
            // the node is not its own child
            if ch.contains(t0.mk_id(hi)) {
                assert(t0.node_at(hi).parent == Some(t0.mk_id(hi)));
                assert(false);
            }
            // the parent is not a child of the node
            if ch.contains(t0.mk_id(pi)) {
                assert(t0.node_at(pi).parent == Some(t0.mk_id(hi)));
                assert(t0.on_chain(pi, pi, 0));
                assert(t0.on_chain(hi, hi, 0));
                assert(t0.on_chain(hi, pi, 1));
                assert(t0.on_chain(pi, hi, 1));
                t0.lemma_chain_antisym(hi, pi, 1, 1, fuel0);
                assert(false);
            }
        }
        let num_children = self.core_tree.get_unsafe(node_id).children().len();
        let mut k: usize = 0;
        while k < num_children
            invariant
                t0.wf(),
                t0.valid(*node_id),
                t0.valid(*parent_id),
                hi == node_id.index as int,
                pi == parent_id.index as int,
                pi != hi,
                ch == t0.children_of(hi),
                !ch.contains(t0.mk_id(hi)),
                !ch.contains(t0.mk_id(pi)),
                num_children == ch.len(),
                0 <= k <= num_children,
                self.core_tree.id == t0.core_tree.id,
                self.core_tree.root == t0.core_tree.root,
                self.core_tree.free_ids == t0.core_tree.free_ids,
                self.n() == t0.n(),
                forall|j: int| #[trigger] self.occupied(j) <==> t0.occupied(j),
                self.node_at(hi) == t0.node_at(hi),
                self.node_at(pi).parent == t0.node_at(pi).parent,
                self.node_at(pi).data == t0.node_at(pi).data,
                self.children_of(pi) == t0.children_of(pi) + ch.take(k as int),
                forall|j: int|
                    t0.occupied(j) && j != pi && !ch.contains(t0.mk_id(j)) ==> #[trigger]
                        self.node_at(j) == t0.node_at(j),
                forall|m: int|
                    0 <= m < ch.len() ==> {
                        let ci = (#[trigger] ch[m]).index as int;
                        &&& self.node_at(ci).data == t0.node_at(ci).data
                        &&& self.node_at(ci).children == t0.node_at(ci).children
                        &&& self.node_at(ci).parent == (if m < k {
                            Some(*parent_id)
                        } else {
                            t0.node_at(ci).parent
                        })
                    },
            decreases num_children - k,
        {
            proof {
                assert(self.occupied(hi) == t0.occupied(hi));
                assert(self.valid(*node_id));
                assert(self.occupied(pi) == t0.occupied(pi));
                assert(self.valid(*parent_id));
                assert(t0.valid(ch[k as int]));
            }
            let child_id = self.core_tree.get_unsafe(node_id).children()[k];
            let ghost sb = *self;
            proof {
                assert(child_id == ch[k as int]);
                assert(self.occupied(child_id.index as int));
                assert(self.valid(child_id));
            }
            match self.core_tree.get_mut(parent_id) {
                Ok(parent) => parent.add_child(child_id),
                Err(_) => proof {
                    assert(false);
                },
            }
            let ghost sc = *self;
            match self.core_tree.get_mut(&child_id) {
                Ok(child) => child.set_parent(Some(*parent_id)),
                Err(_) => proof {
                    assert(false);
                },
            }
            proof {
                t0.lemma_n_fits();
                let ci0 = child_id.index as int;
                assert(ci0 != pi);
                assert(ci0 != hi) by {
                    if ci0 == hi {
                        assert(t0.valid(ch[k as int]));
                        assert(ch[k as int] == t0.mk_id(hi));
                        assert(ch.contains(t0.mk_id(hi)));
                        assert(false);
                    }
                }
                assert forall|j: int| #[trigger] self.occupied(j) <==> t0.occupied(j) by {
                    assert(sb.occupied(j) <==> t0.occupied(j));
                    assert(sc.occupied(j) <==> sb.occupied(j));
                }
                assert(self.node_at(hi) == t0.node_at(hi));
                assert(self.node_at(pi).parent == t0.node_at(pi).parent);
                assert(self.node_at(pi).data == t0.node_at(pi).data);
                assert(self.children_of(pi) =~= t0.children_of(pi) + ch.take(k as int + 1)) by {
                    assert(sc.children_of(pi) == sb.children_of(pi).push(ch[k as int]));
                    assert(self.node_at(pi) == sc.node_at(pi));
                    assert(ch.take(k as int + 1) =~= ch.take(k as int).push(ch[k as int]));
                }
                assert forall|j: int|
                    t0.occupied(j) && j != pi && !ch.contains(t0.mk_id(j)) implies #[trigger]
                        self.node_at(j) == t0.node_at(j) by {
                    assert(sb.node_at(j) == t0.node_at(j));
                    if j == ci0 {
                        assert(t0.mk_id(j) == ch[k as int]);
                        assert(ch.contains(t0.mk_id(j)));
                        assert(false);
                    }
                }
                assert forall|m: int| 0 <= m < ch.len() implies {
                    let ci = (#[trigger] ch[m]).index as int;
                    &&& self.node_at(ci).data == t0.node_at(ci).data
                    &&& self.node_at(ci).children == t0.node_at(ci).children
                    &&& self.node_at(ci).parent == (if m < k + 1 {
                        Some(*parent_id)
                    } else {
                        t0.node_at(ci).parent
                    })
                } by {
                    assert(ch[m] == t0.mk_id(ch[m].index as int)) by {
                        assert(t0.valid(ch[m]));
                    }
                    if ch[m].index == ch[k as int].index && m != k {
                        assert(ch[k as int] == t0.mk_id(ch[k as int].index as int));
                        assert(ch.no_duplicates());
                        assert(false);
                    }
                    if m != k {
                        assert(ch[m].index as int != ci0);
                        if ch[m].index as int == pi {
                            assert(ch.contains(t0.mk_id(pi)));
                            assert(false);
                        }
                        assert(self.node_at(ch[m].index as int) == sb.node_at(
                            ch[m].index as int,
                        ));
                    }
                }
            }
            k += 1;
        }
        proof {
            assert(ch.take(ch.len() as int) =~= ch);
            Self::lemma_wf_free_same_occupancy(t0, *self);
        }
    }

    /// Vacates the slot of `node_id`, detaches it from its parent's child
    /// list, and hands the node back with its links cleared.
    fn extract_node(&mut self, node_id: NodeId) -> (r: Node<T>)
        requires
            old(self).core_tree.wf_free(),
            old(self).valid(node_id),
            match old(self).parent_of(node_id.index as int) {
                Some(p) => old(self).valid(p) && p.index != node_id.index && old(
                    self,
                ).children_of(p.index as int).contains(node_id),
                None => true,
            },
        ensures
            final(self).core_tree.wf_free(),
            final(self).core_tree.id == old(self).core_tree.id,
            final(self).n() == old(self).n(),
            r.data == old(self).node_at(node_id.index as int).data,
            r.parent is None,
            r.children@.len() == 0,
            forall|j: int|
                #[trigger] final(self).occupied(j) <==> (old(self).occupied(j) && j
                    != node_id.index as int),
            final(self).core_tree.root == (if old(self).core_tree.root == Some(node_id) {
                None::<NodeId>
            } else {
                old(self).core_tree.root
            }),
            match old(self).parent_of(node_id.index as int) {
                Some(p) => removed_one(
                    old(self).children_of(p.index as int),
                    final(self).children_of(p.index as int),
                    node_id,
                ) && final(self).node_at(p.index as int).parent == old(self).node_at(
                    p.index as int,
                ).parent && final(self).node_at(p.index as int).data == old(self).node_at(
                    p.index as int,
                ).data,
                None => true,
            },
            forall|j: int|
                old(self).occupied(j) && j != node_id.index as int && (match old(self).parent_of(
                    node_id.index as int,
                ) {
                    Some(p) => j != p.index as int,
                    None => true,
                }) ==> #[trigger] final(self).node_at(j) == old(self).node_at(j),
    {
        let ghost t0 = *old(self);
        let mut node = self.core_tree.remove(node_id);
        let parent_opt = node.parent();
        match parent_opt {
            Some(parent_id) => {
                proof {
                    assert(self.valid(parent_id));
                }
                match self.core_tree.get_mut(&parent_id) {
                    Ok(p) => p.remove_child(node_id),
                    Err(_) => proof {
                        assert(false);
                    },
                }
            },
            None => {
            },
        }
        node.set_parent(None);
        let _ = node.take_children();
        proof {
            match t0.parent_of(node_id.index as int) {
                Some(p) => {
                    assert(removed_one(
                        t0.children_of(p.index as int),
                        self.children_of(p.index as int),
                        node_id,
                    ));
                },
                None => {
                },
            }
        }
        node
    }
    /// What both simple removal policies have in common, stated over the
    /// tree before (`t0`) and after (`t1`) removing the node of `hi`: the
    /// slot of `hi` is vacated, the old parent of `hi` loses exactly that
    /// child, the root is cleared when `hi` was the root, and every slot that
    /// is neither `hi`, nor its parent, nor one of its children is untouched.
    pub open spec fn removed_shape(t0: Self, t1: Self, node_id: NodeId) -> bool {
        let hi = node_id.index as int;
        &&& t1.core_tree.id == t0.core_tree.id
        &&& t1.n() == t0.n()
        &&& (forall|j: int| #[trigger] t1.occupied(j) <==> (t0.occupied(j) && j != hi))
        &&& t1.core_tree.root == (if t0.core_tree.root == Some(node_id) {
            None::<NodeId>
        } else {
            t0.core_tree.root
        })
        &&& match t0.parent_of(hi) {
            Some(p) => {
                &&& removed_one(
                    t0.children_of(p.index as int),
                    t1.children_of(p.index as int),
                    node_id,
                )
                &&& t1.node_at(p.index as int).parent == t0.node_at(p.index as int).parent
                &&& t1.node_at(p.index as int).data == t0.node_at(p.index as int).data
            },
            None => true,
        }
        &&& forall|j: int|
            t0.occupied(j) && j != hi && (match t0.parent_of(hi) {
                Some(p) => j != p.index as int,
                None => true,
            }) && !t0.children_of(hi).contains(t0.mk_id(j)) ==> #[trigger] t1.node_at(j)
                == t0.node_at(j)
    }

    /// The children of `hi` keep their payload and children but their parent
    /// link is rewritten to `new_parent`.
    pub open spec fn children_reparented(
        t0: Self,
        t1: Self,
        hi: int,
        new_parent: Option<NodeId>,
    ) -> bool {
        forall|m: int|
            0 <= m < t0.children_of(hi).len() ==> {
                let ci = (#[trigger] t0.children_of(hi)[m]).index as int;
                &&& t1.node_at(ci).parent == new_parent
                &&& t1.node_at(ci).data == t0.node_at(ci).data
                &&& t1.node_at(ci).children == t0.node_at(ci).children
            }
    }

    /// After removing one node, with its children either orphaned or lifted
    /// to its old parent, the tree is well formed again.
    proof fn lemma_removal_wf(t0: Self, t1: Self, node_id: NodeId, new_parent: Option<NodeId>)
        requires
            t0.wf(),
            t0.valid(node_id),
            match new_parent {
                Some(np) => t0.parent_of(node_id.index as int) == Some(np),
                None => true,
            },
            t1.core_tree.wf_free(),
            t1.core_tree.id == t0.core_tree.id,
            t1.n() == t0.n(),
            forall|j: int|
                #[trigger] t1.occupied(j) <==> (t0.occupied(j) && j != node_id.index as int),
            t1.core_tree.root == (if t0.core_tree.root == Some(node_id) {
                None::<NodeId>
            } else {
                t0.core_tree.root
            }),
            Self::children_reparented(t0, t1, node_id.index as int, new_parent),
            match t0.parent_of(node_id.index as int) {
                Some(p) => {
                    &&& t1.node_at(p.index as int).parent == t0.node_at(p.index as int).parent
                    &&& removed_one(
                        (match new_parent {
                            Some(_) => t0.children_of(p.index as int) + t0.children_of(
                                node_id.index as int,
                            ),
                            None => t0.children_of(p.index as int),
                        }),
                        t1.children_of(p.index as int),
                        node_id,
                    )
                },
                None => true,
            },
            forall|j: int|
                t0.occupied(j) && j != node_id.index as int && (match t0.parent_of(
                    node_id.index as int,
                ) {
                    Some(p) => j != p.index as int,
                    None => true,
                }) && !t0.children_of(node_id.index as int).contains(t0.mk_id(j)) ==> #[trigger]
                    t1.node_at(j) == t0.node_at(j),
        ensures
            t1.wf(),
    {
        let hi = node_id.index as int;
        let ch = t0.children_of(hi);
        let fuel = choose|f: nat| t0.all_rooted(f);
        assert(t0.occupied(hi));
        assert(t0.rooted(hi, fuel));
        t0.lemma_links_at(hi);
        t0.lemma_no_self_parent(hi, fuel);
        // the removed node is not its own child
        assert(!ch.contains(node_id)) by {
            if ch.contains(node_id) {
                assert(t0.node_at(hi).parent == Some(t0.mk_id(hi)));
                assert(false);
            }
        }
        // helper: a slot is a child of hi exactly when its old parent is hi
        assert forall|j: int|
            t0.occupied(j) implies (ch.contains(t0.mk_id(j)) <==> t0.node_at(j).parent == Some(
            node_id,
        )) by {
            assert(t0.parent_link_ok(j));
            t0.lemma_n_fits();
            if ch.contains(t0.mk_id(j)) {
                let m = choose|m: int| 0 <= m < ch.len() && ch[m] == t0.mk_id(j);
                assert(t0.children_of(hi)[m] == t0.mk_id(j));
                assert(t0.valid(t0.children_of(hi)[m]));
                assert(t0.node_at(t0.children_of(hi)[m].index as int).parent == Some(
                    t0.mk_id(hi),
                ));
                assert(t0.mk_id(j).index as int == j);
                assert(t0.mk_id(hi) == node_id);
                assert(t0.node_at(j).parent == Some(node_id));
            }
            if t0.node_at(j).parent == Some(node_id) {
                assert(ch.contains(t0.mk_id(j)));
            }
        }
        // the slot facts for the parent, if there is one
        match t0.parent_of(hi) {
            Some(p) => {
                let pi = p.index as int;
                assert(t0.valid(p));
                assert(pi != hi);
                // the parent is not a child of the removed node
                assert(!ch.contains(p)) by {
                    if ch.contains(p) {
                        assert(t0.node_at(pi).parent == Some(node_id));
                        assert(t0.on_chain(pi, pi, 0));
                        assert(t0.on_chain(hi, hi, 0));
                        assert(t0.on_chain(hi, pi, 1));
                        assert(t0.on_chain(pi, hi, 1));
                        t0.lemma_chain_antisym(hi, pi, 1, 1, fuel);
                        assert(false);
                    }
                }
                let lst = (match new_parent {
                    Some(_) => t0.children_of(pi) + ch,
                    None => t0.children_of(pi),
                });
                let k = choose|k: int|
                    0 <= k < lst.len() && lst[k] == node_id && (forall|j: int|
                        0 <= j < k ==> lst[j] != node_id) && t1.children_of(pi) == lst.remove(k);
                // the source list is duplicate-free
                assert(lst.no_duplicates()) by {
                    assert(t0.occupied(pi));
                    t0.lemma_links_at(pi);
                    match new_parent {
                        Some(_) => {
                            assert(t0.child_links_ok(pi));
                            assert forall|a: int, b: int|
                                0 <= a < b < lst.len() implies lst[a] != lst[b] by {
                                let la = t0.children_of(pi).len() as int;
                                if a < la && b >= la {
                                    assert(lst[a] == t0.children_of(pi)[a]);
                                    assert(lst[b] == ch[b - la]);
                                    assert(t0.node_at(lst[a].index as int).parent == Some(
                                        t0.mk_id(pi),
                                    ));
                                    assert(t0.node_at(lst[b].index as int).parent == Some(
                                        node_id,
                                    ));
                                    assert(t0.mk_id(pi) != node_id);
                                    if lst[a] == lst[b] {
                                        assert(false);
                                    }
                                }
                            }
                        },
                        None => {
                        },
                    }
                }
                lemma_remove_keeps(lst, k);
                assert forall|x: NodeId| #[trigger] t1.children_of(pi).contains(x) <==> (x
                    != node_id && (t0.children_of(pi).contains(x) || (new_parent is Some
                    && ch.contains(x)))) by {
                    if t1.children_of(pi).contains(x) {
                        assert(lst.contains(x));
                        assert(x != node_id) by {
                            assert(lst[k] == node_id);
                            assert(!lst.remove(k).contains(lst[k]));
                        }
                        let m = choose|m: int| 0 <= m < lst.len() && lst[m] == x;
                        match new_parent {
                            Some(_) => {
                                if m < t0.children_of(pi).len() {
                                    assert(t0.children_of(pi)[m] == x);
                                } else {
                                    assert(ch[m - t0.children_of(pi).len()] == x);
                                }
                            },
                            None => {
                            },
                        }
                    }
                    if x != node_id && (t0.children_of(pi).contains(x) || (new_parent is Some
                        && ch.contains(x))) {
                        assert(lst.contains(x)) by {
                            if t0.children_of(pi).contains(x) {
                                let m = choose|m: int|
                                    0 <= m < t0.children_of(pi).len() && t0.children_of(pi)[m]
                                        == x;
                                assert(lst[m] == x);
                            } else {
                                let m = choose|m: int| 0 <= m < ch.len() && ch[m] == x;
                                match new_parent {
                                    Some(_) => {
                                        assert(lst[t0.children_of(pi).len() + m] == x);
                                    },
                                    None => {
                                    },
                                }
                            }
                        }
                        assert(t1.children_of(pi).contains(x));
                    }
                }
            },
            None => {
            },
        }
        // links
        assert forall|i: int| #[trigger] t1.occupied(i) implies t1.parent_link_ok(i)
            && t1.child_links_ok(i) by {
            assert(t0.occupied(i));
            assert(t0.parent_link_ok(i) && t0.child_links_ok(i));
            Self::lemma_removal_links_at(t0, t1, node_id, new_parent, i);
        }
        // root
        match t1.core_tree.root {
            Some(rt) => {
                assert(rt != node_id);
                assert(t0.valid(rt));
                assert(rt.index as int != hi);
                assert(t1.occupied(rt.index as int));
                assert(!ch.contains(rt)) by {
                    if ch.contains(rt) {
                        assert(t0.node_at(rt.index as int).parent == Some(node_id));
                        assert(false);
                    }
                }
                assert(t1.node_at(rt.index as int).parent is None) by {
                    match t0.parent_of(hi) {
                        Some(p) => {
                            if rt.index as int == p.index as int {
                                assert(t1.node_at(rt.index as int).parent == t0.node_at(
                                    rt.index as int,
                                ).parent);
                            } else {
                                assert(t1.node_at(rt.index as int) == t0.node_at(
                                    rt.index as int,
                                ));
                            }
                        },
                        None => {
                            assert(t1.node_at(rt.index as int) == t0.node_at(rt.index as int));
                        },
                    }
                }
            },
            None => {
            },
        }
        // acyclicity
        let g: nat = match new_parent {
            Some(np) => {
                let pi = np.index as int;
                assert(t1.occupied(pi));
                assert(t1.rooted(pi, fuel)) by {
                    assert(t0.rooted(pi, fuel));
                    assert forall|j: int| #[trigger] t0.on_chain(pi, j, fuel) implies t1.occupied(
                        j,
                    ) && t1.node_at(j).parent == t0.node_at(j).parent by {
                        Self::lemma_chain_occupied(t0, pi, j, fuel);
                        // the chain of the parent avoids the removed node
                        t0.lemma_parent_not_desc(hi, np, fuel, fuel);
                        assert(j != hi);
                        // and it avoids the removed node's children: passing
                        // one would continue into the removed node
                        if ch.contains(t0.mk_id(j)) {
                            assert(t0.node_at(j).parent == Some(node_id));
                            assert(t0.occupied(hi));
                            t0.lemma_chain_step(pi, j, node_id, fuel);
                            assert(t0.on_chain(pi, hi, fuel + 1));
                            t0.lemma_on_chain_fuel(pi, hi, fuel, fuel + 1);
                            assert(false);
                        }
                        match t0.parent_of(hi) {
                            Some(p2) => {
                                if j == p2.index as int {
                                    assert(t1.node_at(j).parent == t0.node_at(j).parent);
                                } else {
                                    assert(t1.node_at(j) == t0.node_at(j));
                                }
                            },
                            None => {
                            },
                        }
                    }
                    t0.lemma_chain_frame(t1, pi, fuel);
                }
                fuel
            },
            None => 0,
        };
        assert forall|i: int| #[trigger] t1.occupied(i) implies t1.rooted(i, fuel + g + 1) by {
            assert(t0.occupied(i));
            assert(t0.rooted(i, fuel));
            assert forall|j: int| #[trigger] t1.occupied(j) implies {
                ||| t1.node_at(j).parent is None
                ||| (new_parent matches Some(tg) && t1.node_at(j).parent == Some(tg))
                ||| (t1.node_at(j).parent == t0.node_at(j).parent && t0.occupied(j) && (
                match t0.node_at(j).parent {
                    Some(p) => t1.occupied(p.index as int),
                    None => true,
                }))
            } by {
                assert(t0.occupied(j));
                t0.lemma_n_fits();
                if ch.contains(t0.mk_id(j)) {
                    let m = choose|m: int| 0 <= m < ch.len() && ch[m] == t0.mk_id(j);
                    assert((ch[m]).index as int == j);
                    assert(t1.node_at(j).parent == new_parent);
                } else {
                    match t0.parent_of(hi) {
                        Some(p2) => {
                            if j == p2.index as int {
                                assert(t1.node_at(j).parent == t0.node_at(j).parent);
                            } else {
                                assert(t1.node_at(j) == t0.node_at(j));
                            }
                        },
                        None => {
                            assert(t1.node_at(j) == t0.node_at(j));
                        },
                    }
                    match t0.node_at(j).parent {
                        Some(q) => {
                            t0.lemma_links_at(j);
                            assert(t0.valid(q));
                            assert(q.index as int != hi) by {
                                if q.index as int == hi {
                                    assert(q == node_id);
                                    assert(ch.contains(t0.mk_id(j)));
                                    assert(false);
                                }
                            }
                            assert(t1.occupied(q.index as int));
                        },
                        None => {
                        },
                    }
                }
            }
            Self::lemma_rooted_redirect(t0, t1, new_parent, g, i, fuel);
            t1.lemma_rooted_mono(i, fuel + g + 1, fuel + g + 1);
        }
        assert(t1.all_rooted(fuel + g + 1));
    }

    /// Per-slot link symmetry after a removal.
    proof fn lemma_removal_links_at(
        t0: Self,
        t1: Self,
        node_id: NodeId,
        new_parent: Option<NodeId>,
        i: int,
    )
        requires
            t0.wf(),
            t0.valid(node_id),
            match new_parent {
                Some(np) => t0.parent_of(node_id.index as int) == Some(np),
                None => true,
            },
            t1.core_tree.id == t0.core_tree.id,
            t1.n() == t0.n(),
            forall|j: int|
                #[trigger] t1.occupied(j) <==> (t0.occupied(j) && j != node_id.index as int),
            Self::children_reparented(t0, t1, node_id.index as int, new_parent),
            match t0.parent_of(node_id.index as int) {
                Some(p) => {
                    &&& t1.node_at(p.index as int).parent == t0.node_at(p.index as int).parent
                    &&& t1.children_of(p.index as int).no_duplicates()
                    &&& (forall|x: NodeId|
                        #[trigger] t1.children_of(p.index as int).contains(x) <==> (x != node_id
                            && (t0.children_of(p.index as int).contains(x) || (
                            new_parent is Some && t0.children_of(node_id.index as int).contains(
                                x,
                            )))))
                },
                None => true,
            },
            forall|j: int|
                t0.occupied(j) && j != node_id.index as int && (match t0.parent_of(
                    node_id.index as int,
                ) {
                    Some(p) => j != p.index as int,
                    None => true,
                }) && !t0.children_of(node_id.index as int).contains(t0.mk_id(j)) ==> #[trigger]
                    t1.node_at(j) == t0.node_at(j),
            t1.occupied(i),
        ensures
            t1.parent_link_ok(i),
            t1.child_links_ok(i),
    {
        let hi = node_id.index as int;
        let ch = t0.children_of(hi);
        let fuel = choose|f: nat| t0.all_rooted(f);
        assert(t0.occupied(i));
        t0.lemma_links_at(i);
        assert(t0.occupied(hi));
        assert(t0.rooted(hi, fuel));
        t0.lemma_links_at(hi);
        t0.lemma_no_self_parent(hi, fuel);
        assert(!ch.contains(node_id)) by {
            if ch.contains(node_id) {
                assert(t0.node_at(hi).parent == Some(t0.mk_id(hi)));
                assert(false);
            }
        }
        // membership in ch corresponds to having hi as the old parent
        assert forall|j: int|
            t0.occupied(j) implies (ch.contains(t0.mk_id(j)) <==> t0.node_at(j).parent == Some(
            node_id,
        )) by {
            assert(t0.parent_link_ok(j));
            t0.lemma_n_fits();
            if ch.contains(t0.mk_id(j)) {
                let m = choose|m: int| 0 <= m < ch.len() && ch[m] == t0.mk_id(j);
                assert(t0.children_of(hi)[m] == t0.mk_id(j));
                assert(t0.valid(t0.children_of(hi)[m]));
                assert(t0.node_at(t0.children_of(hi)[m].index as int).parent == Some(
                    t0.mk_id(hi),
                ));
                assert(t0.mk_id(j).index as int == j);
                assert(t0.mk_id(hi) == node_id);
                assert(t0.node_at(j).parent == Some(node_id));
            }
        }
        let pcase = t0.parent_of(hi);
        // how slot i's node looks in t1
        t0.lemma_n_fits();
        if ch.contains(t0.mk_id(i)) {
            let m = choose|m: int| 0 <= m < ch.len() && ch[m] == t0.mk_id(i);
            assert(0 <= i < t0.n());
            assert(ch[m].index as int == i);
            assert(t1.node_at(i).parent == new_parent && t1.node_at(i).children == t0.node_at(
                i,
            ).children);
        }
        // parent link of i
        match t1.node_at(i).parent {
            Some(q) => {
                let qi = q.index as int;
                if ch.contains(t0.mk_id(i)) {
                    // reparented child: q is the old parent of hi
                    assert(new_parent == Some(q));
                    assert(pcase == Some(q));
                    assert(t0.valid(q));
                    assert(qi != hi);
                    assert(t1.occupied(qi));
                    assert(t1.valid(q));
                    assert(ch.contains(t0.mk_id(i)));
                    assert(t1.children_of(qi).contains(t1.mk_id(i))) by {
                        assert(t0.mk_id(i) != node_id);
                        assert(t1.children_of(qi).contains(t0.mk_id(i)));
                    }
                } else {
                    assert(t1.node_at(i).parent == t0.node_at(i).parent) by {
                        match pcase {
                            Some(p) => {
                                if i == p.index as int {
                                } else {
                                    assert(t1.node_at(i) == t0.node_at(i));
                                }
                            },
                            None => {
                                assert(t1.node_at(i) == t0.node_at(i));
                            },
                        }
                    }
                    assert(t0.valid(q));
                    assert(qi != hi) by {
                        if qi == hi {
                            assert(q == node_id);
                            assert(ch.contains(t0.mk_id(i)));
                            assert(false);
                        }
                    }
                    assert(t1.occupied(qi));
                    assert(t1.valid(q));
                    assert(t0.children_of(qi).contains(t0.mk_id(i)));
                    match pcase {
                        Some(p) => {
                            if qi == p.index as int {
                                assert(t1.children_of(qi).contains(t1.mk_id(i))) by {
                                    assert(t0.mk_id(i) != node_id) by {
                                        assert(i != hi);
                                    }
                                }
                            } else {
                                // q may itself be a child of the removed
                                // node; either way its child list is intact
                                assert(t1.node_at(qi).children == t0.node_at(qi).children) by {
                                    if ch.contains(t0.mk_id(qi)) {
                                        let m2 = choose|m2: int|
                                            0 <= m2 < ch.len() && ch[m2] == t0.mk_id(qi);
                                        assert((ch[m2]).index as int == qi);
                                    } else {
                                        assert(t1.node_at(qi) == t0.node_at(qi));
                                    }
                                }
                                assert(t1.children_of(qi).contains(t1.mk_id(i)));
                            }
                        },
                        None => {
                            assert(t1.node_at(qi).children == t0.node_at(qi).children) by {
                                if ch.contains(t0.mk_id(qi)) {
                                    let m2 = choose|m2: int|
                                        0 <= m2 < ch.len() && ch[m2] == t0.mk_id(qi);
                                    assert((ch[m2]).index as int == qi);
                                } else {
                                    assert(t1.node_at(qi) == t0.node_at(qi));
                                }
                            }
                            assert(t1.children_of(qi).contains(t1.mk_id(i)));
                        },
                    }
                }
            },
            None => {
            },
        }
        // children of i point back at i
        let is_parent_slot = match pcase {
            Some(p) => i == p.index as int,
            None => false,
        };
        if is_parent_slot {
            let p = pcase.unwrap();
            let pi = p.index as int;
            assert(t1.children_of(pi).no_duplicates());
            assert forall|c: int| 0 <= c < t1.children_of(pi).len() implies t1.valid(
                #[trigger] t1.children_of(pi)[c],
            ) && t1.node_at(t1.children_of(pi)[c].index as int).parent == Some(t1.mk_id(pi)) by {
                let e = t1.children_of(pi)[c];
                assert(t1.children_of(pi).contains(e));
                assert(e != node_id);
                assert(t0.children_of(pi).contains(e) || (new_parent is Some && ch.contains(e)));
                assert(t0.valid(e));
                let ei = e.index as int;
                assert(ei != hi) by {
                    if ei == hi {
                        assert(e == node_id);
                    }
                }
                assert(t1.occupied(ei));
                assert(t1.valid(e));
                if ch.contains(e) {
                    assert(e == t0.mk_id(ei));
                    assert(t1.node_at(ei).parent == new_parent);
                    assert(new_parent == Some(p));
                    assert(p == t0.mk_id(pi));
                    assert(t0.mk_id(pi) == t1.mk_id(pi));
                } else {
                    assert(t0.children_of(pi).contains(e));
                    assert(t0.node_at(ei).parent == Some(t0.mk_id(pi)));
                    assert(!ch.contains(t0.mk_id(ei))) by {
                        if ch.contains(t0.mk_id(ei)) {
                            assert(t0.node_at(ei).parent == Some(node_id));
                            assert(t0.mk_id(pi) == node_id);
                            assert(pi == hi);
                            assert(false);
                        }
                    }
                    if ei == pi {
                        assert(t1.node_at(ei).parent == t0.node_at(ei).parent);
                    } else {
                        assert(t1.node_at(ei) == t0.node_at(ei));
                    }
                }
            }
        } else {
            // i keeps its child list
            assert(t1.node_at(i).children == t0.node_at(i).children) by {
                if ch.contains(t0.mk_id(i)) {
                } else {
                    assert(t1.node_at(i) == t0.node_at(i));
                }
            }
            assert(t1.children_of(i).no_duplicates());
            assert forall|c: int| 0 <= c < t1.children_of(i).len() implies t1.valid(
                #[trigger] t1.children_of(i)[c],
            ) && t1.node_at(t1.children_of(i)[c].index as int).parent == Some(t1.mk_id(i)) by {
                let e = t0.children_of(i)[c];
                assert(t1.children_of(i)[c] == e);
                assert(t0.valid(e));
                assert(t0.node_at(e.index as int).parent == Some(t0.mk_id(i)));
                let ei = e.index as int;
                assert(ei != hi) by {
                    if ei == hi {
                        assert(e == node_id);
                        assert(t0.node_at(hi).parent == Some(t0.mk_id(i)));
                        assert(pcase == Some(t0.mk_id(i)));
                        assert(is_parent_slot);
                        assert(false);
                    }
                }
                assert(t1.occupied(ei));
                assert(t1.valid(e));
                assert(!ch.contains(t0.mk_id(ei))) by {
                    if ch.contains(t0.mk_id(ei)) {
                        assert(t0.node_at(ei).parent == Some(node_id));
                        assert(t0.mk_id(i) == node_id);
                        assert(i == hi);
                        assert(false);
                    }
                }
                match pcase {
                    Some(p) => {
                        if ei == p.index as int {
                            assert(t1.node_at(ei).parent == t0.node_at(ei).parent);
                        } else {
                            assert(t1.node_at(ei) == t0.node_at(ei));
                        }
                    },
                    None => {
                        assert(t1.node_at(ei) == t0.node_at(ei));
                    },
                }
            }
        }
    }

    /// Remove a `Node` from the `Tree` and leave all of its children in the
    /// `Tree`, each with its parent reference cleared.
    ///
    /// The returned `Node` has its parent and child values cleared, so the
    /// caller cannot retain handles of removed `Node`s through it.
    pub fn remove_node_orphan_children(&mut self, node_id: NodeId) -> (r: Result<
        Node<T>,
        NodeIdError,
    >)
        requires
            old(self).wf(),
            old(self).in_bounds(node_id),
        ensures
            final(self).wf(),
            !old(self).valid(node_id) ==> *final(self) == *old(self),
            node_id.tree_id != old(self).core_tree.id ==> r == Err::<Node<T>, _>(
                NodeIdError::InvalidNodeIdForTree,
            ),
            node_id.tree_id == old(self).core_tree.id && !old(self).valid(node_id) ==> r == Err::<
                Node<T>,
                _,
            >(NodeIdError::NodeIdNoLongerValid),
            old(self).valid(node_id) ==> (r matches Ok(node) && {
                &&& node.data == old(self).node_at(node_id.index as int).data
                &&& node.parent is None
                &&& node.children@.len() == 0
                &&& Self::removed_shape(*old(self), *final(self), node_id)
                &&& Self::children_reparented(
                    *old(self),
                    *final(self),
                    node_id.index as int,
                    None,
                )
            }),
    {
        let ghost t0 = *old(self);
        let (is_valid, error) = self.core_tree.is_valid_node_id(&node_id);
        if !is_valid {
            return Err(match error {
                Some(e) => e,
                None => vstd::pervasive::unreached(),
            });
        }
        self.clear_parent_of_children(&node_id);
        let ghost ta = *self;
        proof {
            Self::lemma_pre_extract(t0, ta, node_id);
            Self::lemma_extract_site(t0, ta, node_id);
        }
        let node = self.extract_node(node_id);
        proof {
            Self::lemma_post_extract(t0, ta, *self, node_id, None);
            Self::lemma_removal_wf(t0, *self, node_id, None);
        }
        Ok(node)
    }

    /// Remove a `Node` from the `Tree` and move its children up one level:
    /// they are appended to the children of the removed `Node`'s parent.  If
    /// the removed `Node` has no parent, this behaves exactly like
    /// `remove_node_orphan_children`.
    ///
    /// The returned `Node` has its parent and child values cleared, so the
    /// caller cannot retain handles of removed `Node`s through it.
    pub fn remove_node_lift_children(&mut self, node_id: NodeId) -> (r: Result<
        Node<T>,
        NodeIdError,
    >)
        requires
            old(self).wf(),
            old(self).in_bounds(node_id),
        ensures
            final(self).wf(),
            !old(self).valid(node_id) ==> *final(self) == *old(self),
            node_id.tree_id != old(self).core_tree.id ==> r == Err::<Node<T>, _>(
                NodeIdError::InvalidNodeIdForTree,
            ),
            node_id.tree_id == old(self).core_tree.id && !old(self).valid(node_id) ==> r == Err::<
                Node<T>,
                _,
            >(NodeIdError::NodeIdNoLongerValid),
            old(self).valid(node_id) ==> (r matches Ok(node) && {
                let hi = node_id.index as int;
                &&& node.data == old(self).node_at(hi).data
                &&& node.parent is None
                &&& node.children@.len() == 0
                &&& final(self).core_tree.id == old(self).core_tree.id
                &&& final(self).n() == old(self).n()
                &&& (forall|j: int|
                    #[trigger] final(self).occupied(j) <==> (old(self).occupied(j) && j != hi))
                &&& final(self).core_tree.root == (if old(self).core_tree.root == Some(node_id) {
                    None::<NodeId>
                } else {
                    old(self).core_tree.root
                })
                &&& match old(self).parent_of(hi) {
                    Some(p) => {
                        // the parent's child list: the removed node replaced
                        // by its children, appended at the end
                        &&& Self::children_reparented(*old(self), *final(self), hi, Some(p))
                        &&& removed_one(
                            old(self).children_of(p.index as int) + old(self).children_of(hi),
                            final(self).children_of(p.index as int),
                            node_id,
                        )
                        &&& final(self).node_at(p.index as int).parent == old(self).node_at(
                            p.index as int,
                        ).parent
                        &&& final(self).node_at(p.index as int).data == old(self).node_at(
                            p.index as int,
                        ).data
                    },
                    None => Self::children_reparented(*old(self), *final(self), hi, None),
                }
                &&& forall|j: int|
                    old(self).occupied(j) && j != hi && (match old(self).parent_of(hi) {
                        Some(p) => j != p.index as int,
                        None => true,
                    }) && !old(self).children_of(hi).contains(old(self).mk_id(j)) ==> #[trigger]
                        final(self).node_at(j) == old(self).node_at(j)
            }),
    {
        let ghost t0 = *old(self);
        let (is_valid, error) = self.core_tree.is_valid_node_id(&node_id);
        if !is_valid {
            return Err(match error {
                Some(e) => e,
                None => vstd::pervasive::unreached(),
            });
        }
        let has_parent = match self.core_tree.get_unsafe(&node_id).parent() {
            Some(_) => true,
            None => false,
        };
        if !has_parent {
            self.clear_parent_of_children(&node_id);
            let ghost ta = *self;
            proof {
                Self::lemma_pre_extract(t0, ta, node_id);
                Self::lemma_extract_site(t0, ta, node_id);
            }
            let node = self.extract_node(node_id);
            proof {
                Self::lemma_post_extract(t0, ta, *self, node_id, None);
                Self::lemma_removal_wf(t0, *self, node_id, None);
            }
            return Ok(node);
        }
        let parent_id = match self.core_tree.get_unsafe(&node_id).parent() {
            Some(p) => p,
            None => vstd::pervasive::unreached(),
        };
        self.reparent_children(&node_id, &parent_id);
        let ghost ta = *self;
        proof {
            Self::lemma_pre_extract(t0, ta, node_id);
            assert(ta.children_of(parent_id.index as int).contains(node_id)) by {
                let pl = t0.children_of(parent_id.index as int);
                assert(t0.occupied(node_id.index as int));
                t0.lemma_links_at(node_id.index as int);
                assert(t0.mk_id(node_id.index as int) == node_id) by {
                    t0.lemma_n_fits();
                }
                assert(pl.contains(node_id));
                let m = choose|m: int| 0 <= m < pl.len() && pl[m] == node_id;
                assert(ta.children_of(parent_id.index as int)[m] == node_id);
            }
        }
        let node = self.extract_node(node_id);
        proof {
            Self::lemma_post_extract(t0, ta, *self, node_id, Some(parent_id));
            Self::lemma_removal_wf(t0, *self, node_id, Some(parent_id));
        }
        Ok(node)
    }
}

impl<T> Tree<T> {
    /// Remove a `Node` from the `Tree` together with all of its descendants.
    ///
    /// Every handle that pointed into the removed subtree is invalid
    /// afterwards.  The returned `Node` has its parent and child values
    /// cleared.
    pub fn remove_node_drop_children(&mut self, node_id: NodeId) -> (r: Result<
        Node<T>,
        NodeIdError,
    >)
        requires
            old(self).wf(),
            old(self).in_bounds(node_id),
        ensures
            final(self).wf(),
            !old(self).valid(node_id) ==> *final(self) == *old(self),
            node_id.tree_id != old(self).core_tree.id ==> r == Err::<Node<T>, _>(
                NodeIdError::InvalidNodeIdForTree,
            ),
            node_id.tree_id == old(self).core_tree.id && !old(self).valid(node_id) ==> r == Err::<
                Node<T>,
                _,
            >(NodeIdError::NodeIdNoLongerValid),
            old(self).valid(node_id) ==> (r matches Ok(node) && {
                let hi = node_id.index as int;
                &&& node.data == old(self).node_at(hi).data
                &&& node.parent is None
                &&& node.children@.len() == 0
                &&& final(self).core_tree.id == old(self).core_tree.id
                &&& final(self).n() == old(self).n()
                &&& (forall|j: int|
                    #[trigger] final(self).occupied(j) <==> (old(self).occupied(j) && !old(
                        self,
                    ).is_desc(j, hi)))
                &&& final(self).core_tree.root == (if old(self).core_tree.root == Some(node_id) {
                    None::<NodeId>
                } else {
                    old(self).core_tree.root
                })
                &&& match old(self).parent_of(hi) {
                    Some(q) => {
                        &&& removed_one(
                            old(self).children_of(q.index as int),
                            final(self).children_of(q.index as int),
                            node_id,
                        )
                        &&& final(self).node_at(q.index as int).parent == old(self).node_at(
                            q.index as int,
                        ).parent
                        &&& final(self).node_at(q.index as int).data == old(self).node_at(
                            q.index as int,
                        ).data
                    },
                    None => true,
                }
                &&& (forall|j: int|
                    old(self).occupied(j) && !old(self).is_desc(j, hi) && (match old(
                        self,
                    ).parent_of(hi) {
                        Some(q) => j != q.index as int,
                        None => true,
                    }) ==> #[trigger] final(self).node_at(j) == old(self).node_at(j))
            }),
    {
        let ghost t0 = *old(self);
        let (is_valid, error) = self.core_tree.is_valid_node_id(&node_id);
        if !is_valid {
            return Err(match error {
                Some(e) => e,
                None => vstd::pervasive::unreached(),
            });
        }
        let ghost hi = node_id.index as int;
        let ghost fuel = choose|f: nat| t0.all_rooted(f);
        let order = self.collect_post_order(&node_id);
        proof {
            assert(order@ == t0.post_of(hi, fuel + 1));
            assert(t0.occupied(hi));
            t0.lemma_budget(hi, fuel);
            t0.lemma_post_elems(hi, fuel + 1);
            t0.lemma_n_fits();
            assert(t0.mk_id(hi) == node_id);
            // the last entry of a post-order is the node itself
            assert(order@.last() == node_id);
        }
        let mut removed: Option<Node<T>> = None;
        let mut k: usize = 0;
        while k < order.len()
            invariant
                t0.wf(),
                t0.valid(node_id),
                hi == node_id.index as int,
                t0.all_rooted(fuel),
                order@ == t0.post_of(hi, fuel + 1),
                order@.no_duplicates(),
                order@.last() == node_id,
                forall|x: NodeId|
                    #[trigger] order@.contains(x) ==> t0.valid(x) && t0.is_desc(
                        x.index as int,
                        hi,
                    ),
                forall|x: NodeId|
                    t0.valid(x) && t0.is_desc(x.index as int, hi) ==> #[trigger] order@.contains(
                        x,
                    ),
                0 <= k <= order@.len(),
                self.core_tree.wf_free(),
                self.core_tree.id == t0.core_tree.id,
                self.n() == t0.n(),
                forall|j: int|
                    #[trigger] self.occupied(j) <==> (t0.occupied(j) && !order@.take(
                        k as int,
                    ).contains(t0.mk_id(j))),
                forall|j: int|
                    #[trigger] self.occupied(j) ==> self.node_at(j) == t0.node_at(j),
                match t0.core_tree.root {
                    Some(rt) => self.core_tree.root == (if order@.take(k as int).contains(rt) {
                        None::<NodeId>
                    } else {
                        Some(rt)
                    }),
                    None => self.core_tree.root is None,
                },
                k < order@.len() ==> (removed is None),
                k == order@.len() ==> (removed matches Some(n) && n == t0.node_at(hi)),
            decreases order@.len() - k,
        {
            let target = order[k];
            proof {
                t0.lemma_n_fits();
                assert(order@.contains(target));
                assert(t0.valid(target));
                assert(target == t0.mk_id(target.index as int));
                assert(!order@.take(k as int).contains(target)) by {
                    if order@.take(k as int).contains(target) {
                        let m = choose|m: int| 0 <= m < k && order@.take(k as int)[m] == target;
                        assert(order@[m] == target && order@[k as int] == target);
                        assert(false);
                    }
                }
                assert(self.occupied(target.index as int));
                assert(self.valid(target));
            }
            let ghost sb = *self;
            let node = self.core_tree.remove(target);
            if k + 1 == order.len() {
                removed = Some(node);
                proof {
                    assert(target == node_id);
                    assert(t0.node_at(hi) == node) by {
                        assert(order@.take(k as int).contains(t0.mk_id(hi)) == false);
                    }
                }
            }
            proof {
                assert(order@.take(k + 1 as int) =~= order@.take(k as int).push(target));
                t0.lemma_n_fits();
                assert forall|j: int|
                    #[trigger] self.occupied(j) ==> self.node_at(j) == t0.node_at(j) by {
                    if self.occupied(j) {
                        assert(j != target.index as int);
                        assert(sb.occupied(j));
                        assert(sb.node_at(j) == t0.node_at(j));
                        assert(self.node_at(j) == sb.node_at(j));
                    }
                }
                assert forall|j: int|
                    #[trigger] self.occupied(j) <==> (t0.occupied(j) && !order@.take(
                        k + 1 as int,
                    ).contains(t0.mk_id(j))) by {
                    assert(self.occupied(j) <==> (sb.occupied(j) && j != target.index as int));
                    assert(sb.occupied(j) <==> (t0.occupied(j) && !order@.take(
                        k as int,
                    ).contains(t0.mk_id(j))));
                    if j == target.index as int {
                        assert(t0.mk_id(j) == target);
                        assert(order@.take(k + 1 as int)[k as int] == target);
                        assert(order@.take(k + 1 as int).contains(t0.mk_id(j)));
                    } else if t0.occupied(j) {
                        assert(0 <= j < t0.n());
                        assert(t0.mk_id(j).index as int == j);
                        assert(t0.mk_id(j) != target);
                        assert(order@.take(k + 1 as int).contains(t0.mk_id(j)) == order@.take(
                            k as int,
                        ).contains(t0.mk_id(j))) by {
                            if order@.take(k + 1 as int).contains(t0.mk_id(j)) {
                                let m = choose|m: int|
                                    0 <= m < order@.take(k + 1 as int).len() && (
                                    #[trigger] order@.take(k + 1 as int)[m]) == t0.mk_id(j);
                                assert(m < k);
                                assert(order@.take(k as int)[m] == t0.mk_id(j));
                            }
                            if order@.take(k as int).contains(t0.mk_id(j)) {
                                let m = choose|m: int|
                                    0 <= m < order@.take(k as int).len() && (
                                    #[trigger] order@.take(k as int)[m]) == t0.mk_id(j);
                                assert(order@.take(k + 1 as int)[m] == t0.mk_id(j));
                            }
                        }
                    }
                }
                match t0.core_tree.root {
                    Some(rt) => {
                        assert(t0.valid(rt));
                        if order@.take(k as int).contains(rt) {
                            let m = choose|m: int|
                                0 <= m < order@.take(k as int).len() && (#[trigger] order@.take(
                                    k as int,
                                )[m]) == rt;
                            assert(order@.take(k + 1 as int)[m] == rt);
                            assert(order@.take(k + 1 as int).contains(rt));
                        } else if rt == target {
                            assert(order@.take(k + 1 as int)[k as int] == rt);
                            assert(order@.take(k + 1 as int).contains(rt));
                        } else {
                            assert(!order@.take(k + 1 as int).contains(rt)) by {
                                if order@.take(k + 1 as int).contains(rt) {
                                    let m = choose|m: int|
                                        0 <= m < order@.take(k + 1 as int).len() && (
                                        #[trigger] order@.take(k + 1 as int)[m]) == rt;
                                    if m < k {
                                        assert(order@.take(k as int)[m] == rt);
                                    } else {
                                        assert(rt == target);
                                    }
                                    assert(false);
                                }
                            }
                        }
                    },
                    None => {
                    },
                }
            }
            k += 1;
        }
        let mut node = match removed {
            Some(n) => n,
            None => vstd::pervasive::unreached(),
        };
        let ghost ta2 = *self;
        proof {
            assert(order@.take(order@.len() as int) =~= order@);
            // the root clause: the root is in the dropped set exactly when
            // it is the dropped node itself
            match t0.core_tree.root {
                Some(rt) => {
                    assert(t0.valid(rt));
                    if rt == node_id {
                        assert(t0.on_chain(hi, hi, 0));
                        assert(t0.is_desc(hi, hi));
                        assert(order@.contains(rt));
                    } else {
                        assert(!order@.contains(rt)) by {
                            if order@.contains(rt) {
                                assert(t0.is_desc(rt.index as int, hi));
                                let g = choose|g: nat| t0.on_chain(rt.index as int, hi, g);
                                assert(t0.node_at(rt.index as int).parent is None);
                                assert(rt.index as int == hi);
                                assert(rt == node_id);
                                assert(false);
                            }
                        }
                    }
                },
                None => {
                },
            }
        }
        // detach the removed subtree from the node's old parent
        let parent_opt = node.parent();
        match parent_opt {
            Some(parent_id) => {
                proof {
                    assert(t0.parent_of(hi) == Some(parent_id));
                    assert(t0.occupied(hi));
                    t0.lemma_links_at(hi);
                    assert(t0.valid(parent_id));
                    let qi = parent_id.index as int;
                    // the parent is no descendant of the node
                    assert(!t0.is_desc(qi, hi)) by {
                        if t0.is_desc(qi, hi) {
                            let g = choose|g: nat| t0.on_chain(qi, hi, g);
                            t0.lemma_parent_not_desc(hi, parent_id, g, fuel);
                            assert(false);
                        }
                    }
                    assert(!order@.contains(t0.mk_id(qi))) by {
                        if order@.contains(t0.mk_id(qi)) {
                            assert(t0.is_desc(qi, hi));
                        }
                    }
                    assert(self.occupied(qi));
                    assert(self.valid(parent_id));
                    assert(self.node_at(qi) == t0.node_at(qi));
                    assert(self.children_of(qi).contains(node_id));
                }
                match self.core_tree.get_mut(&parent_id) {
                    Ok(p) => p.remove_child(node_id),
                    Err(_) => proof {
                        assert(false);
                    },
                }
            },
            None => {
            },
        }
        node.set_parent(None);
        let _ = node.take_children();
        proof {
            let t1 = *self;
            assert forall|j: int|
                t1.occupied(j) && (match t0.parent_of(hi) {
                    Some(q) => j != q.index as int,
                    None => true,
                }) implies #[trigger] t1.node_at(j) == t0.node_at(j) by {
                assert(ta2.occupied(j));
                assert(ta2.node_at(j) == t0.node_at(j));
                assert(t1.node_at(j) == ta2.node_at(j));
            }
            assert forall|j: int|
                #[trigger] t1.occupied(j) <==> (t0.occupied(j) && !order@.contains(
                    t0.mk_id(j),
                )) by {
                assert(t1.occupied(j) <==> ta2.occupied(j));
                assert(ta2.occupied(j) <==> (t0.occupied(j) && !order@.take(
                    order@.len() as int,
                ).contains(t0.mk_id(j))));
            }
            Self::lemma_drop_wf(t0, t1, node_id, order@);
        }
        Ok(node)
    }

    /// After dropping a whole subtree and detaching it from its old parent,
    /// the tree is well formed.
    proof fn lemma_drop_wf(t0: Self, t1: Self, node_id: NodeId, order: Seq<NodeId>)
        requires
            t0.wf(),
            t0.valid(node_id),
            forall|x: NodeId|
                #[trigger] order.contains(x) ==> t0.valid(x) && t0.is_desc(
                    x.index as int,
                    node_id.index as int,
                ),
            forall|x: NodeId|
                t0.valid(x) && t0.is_desc(x.index as int, node_id.index as int)
                    ==> #[trigger] order.contains(x),
            t1.core_tree.wf_free(),
            t1.core_tree.id == t0.core_tree.id,
            t1.n() == t0.n(),
            forall|j: int|
                #[trigger] t1.occupied(j) <==> (t0.occupied(j) && !order.contains(t0.mk_id(j))),
            t1.core_tree.root == (if t0.core_tree.root == Some(node_id) {
                None::<NodeId>
            } else {
                t0.core_tree.root
            }),
            match t0.parent_of(node_id.index as int) {
                Some(q) => {
                    &&& t1.node_at(q.index as int).parent == t0.node_at(q.index as int).parent
                    &&& t1.node_at(q.index as int).data == t0.node_at(q.index as int).data
                    &&& removed_one(
                        t0.children_of(q.index as int),
                        t1.children_of(q.index as int),
                        node_id,
                    )
                },
                None => true,
            },
            forall|j: int|
                t1.occupied(j) && (match t0.parent_of(node_id.index as int) {
                    Some(q) => j != q.index as int,
                    None => true,
                }) ==> #[trigger] t1.node_at(j) == t0.node_at(j),
            t0.core_tree.root == Some(node_id) || t0.core_tree.root != Some(node_id),
        ensures
            t1.wf(),
            forall|j: int|
                #[trigger] t1.occupied(j) <==> (t0.occupied(j) && !t0.is_desc(
                    j,
                    node_id.index as int,
                )),
    {
        let hi = node_id.index as int;
        let fuel = choose|f: nat| t0.all_rooted(f);
        t0.lemma_n_fits();
        assert(t0.mk_id(hi) == node_id);
        // occupancy in terms of the subtree
        assert forall|j: int|
            #[trigger] t1.occupied(j) <==> (t0.occupied(j) && !t0.is_desc(j, hi)) by {
            if t0.occupied(j) {
                assert(t0.mk_id(j).index as int == j);
                assert(t0.valid(t0.mk_id(j)));
                if t0.is_desc(j, hi) {
                    assert(order.contains(t0.mk_id(j)));
                } else {
                    if order.contains(t0.mk_id(j)) {
                        assert(t0.is_desc(j, hi));
                    }
                }
            }
        }
        let qc = t0.parent_of(hi);
        // a survivor's parent and children survive too
        assert forall|i: int| #[trigger] t1.occupied(i) implies t1.parent_link_ok(i)
            && t1.child_links_ok(i) by {
            assert(t0.occupied(i));
            t0.lemma_links_at(i);
            assert(!t0.is_desc(i, hi));
            let is_q = match qc {
                Some(q) => i == q.index as int,
                None => false,
            };
            // parent link
            match t1.node_at(i).parent {
                Some(p) => {
                    assert(t1.node_at(i).parent == t0.node_at(i).parent) by {
                        if !is_q {
                            assert(t1.node_at(i) == t0.node_at(i));
                        }
                    }
                    assert(t0.valid(p));
                    let pi2 = p.index as int;
                    assert(!t0.is_desc(pi2, hi)) by {
                        if t0.is_desc(pi2, hi) {
                            let g = choose|g: nat| t0.on_chain(pi2, hi, g);
                            assert(t0.occupied(pi2));
                            assert(t0.on_chain(pi2, pi2, 0));
                            assert(t0.on_chain(i, pi2, 1));
                            t0.lemma_chain_trans(i, pi2, hi, 1, g);
                            assert(t0.is_desc(i, hi));
                            assert(false);
                        }
                    }
                    assert(t1.occupied(pi2));
                    assert(t1.valid(p));
                    assert(t0.children_of(pi2).contains(t0.mk_id(i)));
                    match qc {
                        Some(q) => {
                            if pi2 == q.index as int {
                                assert(t1.children_of(pi2).contains(t1.mk_id(i))) by {
                                    assert(t0.mk_id(i) != node_id) by {
                                        if t0.mk_id(i) == node_id {
                                            assert(t0.on_chain(hi, hi, 0));
                                            assert(t0.is_desc(i, hi));
                                        }
                                    }
                                    let kq = choose|kq: int|
                                        0 <= kq < t0.children_of(pi2).len() && t0.children_of(
                                            pi2,
                                        )[kq] == node_id && (forall|m: int|
                                            0 <= m < kq ==> t0.children_of(pi2)[m] != node_id)
                                            && t1.children_of(pi2) == t0.children_of(pi2).remove(
                                            kq,
                                        );
                                    assert(t0.occupied(pi2));
                                    t0.lemma_links_at(pi2);
                                    lemma_remove_keeps(t0.children_of(pi2), kq);
                                }
                            } else {
                                assert(t1.node_at(pi2) == t0.node_at(pi2));
                                assert(t1.children_of(pi2).contains(t1.mk_id(i)));
                            }
                        },
                        None => {
                            assert(t1.node_at(pi2) == t0.node_at(pi2));
                            assert(t1.children_of(pi2).contains(t1.mk_id(i)));
                        },
                    }
                },
                None => {
                },
            }
            // child links
            if is_q {
                let q = qc.unwrap();
                let qi = q.index as int;
                let kq = choose|kq: int|
                    0 <= kq < t0.children_of(qi).len() && t0.children_of(qi)[kq] == node_id && (
                    forall|m: int| 0 <= m < kq ==> t0.children_of(qi)[m] != node_id)
                        && t1.children_of(qi) == t0.children_of(qi).remove(kq);
                assert(t0.occupied(qi));
                t0.lemma_links_at(qi);
                lemma_remove_keeps(t0.children_of(qi), kq);
                assert(t1.children_of(qi).no_duplicates());
                assert forall|c: int| 0 <= c < t1.children_of(qi).len() implies t1.valid(
                    #[trigger] t1.children_of(qi)[c],
                ) && t1.node_at(t1.children_of(qi)[c].index as int).parent == Some(
                    t1.mk_id(qi),
                ) by {
                    let e = t1.children_of(qi)[c];
                    assert(t1.children_of(qi).contains(e));
                    assert(t0.children_of(qi).contains(e));
                    assert(e != node_id) by {
                        assert(!t1.children_of(qi).contains(t0.children_of(qi)[kq]));
                    }
                    assert(t0.valid(e));
                    let ei = e.index as int;
                    assert(t0.node_at(ei).parent == Some(t0.mk_id(qi)));
                    assert(!t0.is_desc(ei, hi)) by {
                        if t0.is_desc(ei, hi) {
                            // a child of the survivor q inside the dropped
                            // subtree would have to be the dropped node
                            let g = choose|g: nat| t0.on_chain(ei, hi, g);
                            if ei == hi {
                                assert(e == node_id);
                                assert(false);
                            } else {
                                assert(t0.on_chain(ei, ei, 0));
                                // e's parent is q, but e's chain to hi must
                                // first pass e's parent
                                assert(g >= 1);
                                assert(t0.on_chain(qi, hi, (g - 1) as nat));
                                assert(t0.is_desc(qi, hi));
                                assert(!t0.is_desc(qi, hi));
                                assert(false);
                            }
                        }
                    }
                    assert(t1.occupied(ei));
                    assert(t1.valid(e));
                    assert(t1.node_at(ei) == t0.node_at(ei)) by {
                        assert(ei != qi) by {
                            if ei == qi {
                                assert(t0.node_at(qi).parent == Some(t0.mk_id(qi)));
                                assert(t0.rooted(qi, fuel));
                                t0.lemma_no_self_parent(qi, fuel);
                                assert(false);
                            }
                        }
                    }
                }
            } else {
                assert(t1.node_at(i) == t0.node_at(i));
                assert forall|c: int| 0 <= c < t1.children_of(i).len() implies t1.valid(
                    #[trigger] t1.children_of(i)[c],
                ) && t1.node_at(t1.children_of(i)[c].index as int).parent == Some(t1.mk_id(i)) by {
                    let e = t0.children_of(i)[c];
                    assert(t1.children_of(i)[c] == e);
                    assert(t0.valid(e));
                    let ei = e.index as int;
                    assert(t0.node_at(ei).parent == Some(t0.mk_id(i)));
                    assert(!t0.is_desc(ei, hi)) by {
                        if t0.is_desc(ei, hi) {
                            let g = choose|g: nat| t0.on_chain(ei, hi, g);
                            if ei == hi {
                                assert(e == node_id);
                                assert(t0.node_at(hi).parent == Some(t0.mk_id(i)));
                                assert(qc == Some(t0.mk_id(i)));
                                assert(is_q);
                                assert(false);
                            } else {
                                assert(g >= 1);
                                assert(t0.on_chain(i, hi, (g - 1) as nat));
                                assert(t0.is_desc(i, hi));
                                assert(false);
                            }
                        }
                    }
                    assert(t1.occupied(ei));
                    assert(t1.valid(e));
                    assert(t1.node_at(ei).parent == t0.node_at(ei).parent) by {
                        match qc {
                            Some(q) => {
                                if ei == q.index as int {
                                } else {
                                    assert(t1.node_at(ei) == t0.node_at(ei));
                                }
                            },
                            None => {
                                assert(t1.node_at(ei) == t0.node_at(ei));
                            },
                        }
                    }
                }
            }
        }
        // root
        match t1.core_tree.root {
            Some(rt) => {
                assert(rt != node_id);
                assert(t0.valid(rt));
                let rti = rt.index as int;
                assert(!t0.is_desc(rti, hi)) by {
                    if t0.is_desc(rti, hi) {
                        let g = choose|g: nat| t0.on_chain(rti, hi, g);
                        if rti == hi {
                            assert(rt == node_id);
                            assert(false);
                        } else {
                            assert(t0.node_at(rti).parent is None);
                            assert(!t0.on_chain(rti, hi, g));
                            assert(false);
                        }
                    }
                }
                assert(t1.occupied(rti));
                assert(t1.node_at(rti).parent is None) by {
                    match qc {
                        Some(q) => {
                            if rti == q.index as int {
                                assert(t1.node_at(rti).parent == t0.node_at(rti).parent);
                            } else {
                                assert(t1.node_at(rti) == t0.node_at(rti));
                            }
                        },
                        None => {
                            assert(t1.node_at(rti) == t0.node_at(rti));
                        },
                    }
                }
            },
            None => {
            },
        }
        // acyclicity: the survivors' chains never touched the subtree
        assert forall|i: int| #[trigger] t1.occupied(i) implies t1.rooted(i, fuel) by {
            assert(t0.occupied(i));
            assert(t0.rooted(i, fuel));
            assert(!t0.is_desc(i, hi));
            assert forall|j: int| #[trigger] t0.on_chain(i, j, fuel) implies t1.occupied(j)
                && t1.node_at(j).parent == t0.node_at(j).parent by {
                Self::lemma_chain_occupied(t0, i, j, fuel);
                assert(!t0.is_desc(j, hi)) by {
                    if t0.is_desc(j, hi) {
                        let g = choose|g: nat| t0.on_chain(j, hi, g);
                        t0.lemma_chain_trans(i, j, hi, fuel, g);
                        assert(t0.is_desc(i, hi));
                        assert(false);
                    }
                }
                assert(t1.occupied(j));
                match qc {
                    Some(q) => {
                        if j == q.index as int {
                            assert(t1.node_at(j).parent == t0.node_at(j).parent);
                        } else {
                            assert(t1.node_at(j) == t0.node_at(j));
                        }
                    },
                    None => {
                        assert(t1.node_at(j) == t0.node_at(j));
                    },
                }
            }
            t0.lemma_chain_frame(t1, i, fuel);
        }
        assert(t1.all_rooted(fuel));
    }

    /// Remove a `Node` from the `Tree`.  The `RemoveBehavior` decides what
    /// happens to the removed `Node`'s children: dropped with it, lifted to
    /// its parent, or left in place as orphans.
    pub fn remove_node(&mut self, node_id: NodeId, behavior: crate::RemoveBehavior) -> (r: Result<
        Node<T>,
        NodeIdError,
    >)
        requires
            old(self).wf(),
            old(self).in_bounds(node_id),
        ensures
            final(self).wf(),
            !old(self).valid(node_id) ==> *final(self) == *old(self),
            node_id.tree_id != old(self).core_tree.id ==> r == Err::<Node<T>, _>(
                NodeIdError::InvalidNodeIdForTree,
            ),
            node_id.tree_id == old(self).core_tree.id && !old(self).valid(node_id) ==> r == Err::<
                Node<T>,
                _,
            >(NodeIdError::NodeIdNoLongerValid),
            old(self).valid(node_id) ==> (r matches Ok(node) && {
                let hi = node_id.index as int;
                &&& node.data == old(self).node_at(hi).data
                &&& node.parent is None
                &&& node.children@.len() == 0
                &&& !final(self).valid(node_id)
                &&& final(self).core_tree.id == old(self).core_tree.id
                &&& final(self).n() == old(self).n()
                &&& final(self).core_tree.root == (if old(self).core_tree.root == Some(node_id) {
                    None::<NodeId>
                } else {
                    old(self).core_tree.root
                })
                &&& ((behavior matches crate::RemoveBehavior::OrphanChildren) ==> {
                    &&& Self::removed_shape(*old(self), *final(self), node_id)
                    &&& Self::children_reparented(*old(self), *final(self), hi, None)
                })
                &&& ((behavior matches crate::RemoveBehavior::LiftChildren) ==> {
                    &&& (forall|j: int|
                        #[trigger] final(self).occupied(j) <==> (old(self).occupied(j) && j != hi))
                    &&& match old(self).parent_of(hi) {
                        Some(p) => {
                            &&& Self::children_reparented(*old(self), *final(self), hi, Some(p))
                            &&& removed_one(
                                old(self).children_of(p.index as int) + old(self).children_of(hi),
                                final(self).children_of(p.index as int),
                                node_id,
                            )
                            &&& final(self).node_at(p.index as int).parent == old(self).node_at(
                                p.index as int,
                            ).parent
                            &&& final(self).node_at(p.index as int).data == old(self).node_at(
                                p.index as int,
                            ).data
                        },
                        None => Self::children_reparented(*old(self), *final(self), hi, None),
                    }
                    &&& (forall|j: int|
                        old(self).occupied(j) && j != hi && (match old(self).parent_of(hi) {
                            Some(p) => j != p.index as int,
                            None => true,
                        }) && !old(self).children_of(hi).contains(old(self).mk_id(j))
                            ==> #[trigger] final(self).node_at(j) == old(self).node_at(j))
                })
                &&& ((behavior matches crate::RemoveBehavior::DropChildren) ==> {
                    &&& (forall|j: int|
                        #[trigger] final(self).occupied(j) <==> (old(self).occupied(j) && !old(
                            self,
                        ).is_desc(j, hi)))
                    &&& match old(self).parent_of(hi) {
                        Some(q) => {
                            &&& removed_one(
                                old(self).children_of(q.index as int),
                                final(self).children_of(q.index as int),
                                node_id,
                            )
                            &&& final(self).node_at(q.index as int).parent == old(self).node_at(
                                q.index as int,
                            ).parent
                            &&& final(self).node_at(q.index as int).data == old(self).node_at(
                                q.index as int,
                            ).data
                        },
                        None => true,
                    }
                    &&& (forall|j: int|
                        old(self).occupied(j) && !old(self).is_desc(j, hi) && (match old(
                            self,
                        ).parent_of(hi) {
                            Some(q) => j != q.index as int,
                            None => true,
                        }) ==> #[trigger] final(self).node_at(j) == old(self).node_at(j))
                })
            }),
    {
        let ghost t0 = *old(self);
        let r = match behavior {
            crate::RemoveBehavior::DropChildren => self.remove_node_drop_children(node_id),
            crate::RemoveBehavior::LiftChildren => self.remove_node_lift_children(node_id),
            crate::RemoveBehavior::OrphanChildren => self.remove_node_orphan_children(node_id),
        };
        proof {
            if t0.valid(node_id) {
                let hi = node_id.index as int;
                match behavior {
                    crate::RemoveBehavior::DropChildren => {
                        assert(t0.on_chain(hi, hi, 0));
                        assert(t0.is_desc(hi, hi));
                        assert(!self.occupied(hi));
                    },
                    _ => {
                        assert(!self.occupied(hi));
                    },
                }
            }
        }
        r
    }
}

} // verus!
