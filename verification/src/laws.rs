//! Global laws of the tree structure.
//!
//! These proof functions state properties that tie several operations
//! together: a parent walk from any alive handle ends after at most as many
//! steps as there are alive nodes, and moving a node away and back restores
//! its place among its old siblings.

use vstd::prelude::*;

use crate::node::Node;
use crate::tree::removed_one;
use crate::tree::Tree;
use crate::NodeId;

verus! {

/// The union of two disjoint finite sets is exactly as large as the two
/// together.
proof fn lemma_disjoint_union_len<A>(s1: Set<A>, s2: Set<A>)
    requires
        s1.finite(),
        s2.finite(),
        s1.disjoint(s2),
    ensures
        s1.union(s2).len() == s1.len() + s2.len(),
    decreases s1.len(),
{
    broadcast use vstd::set::group_set_axioms;

    if s1.is_empty() {
        assert(s1.union(s2) =~= s2);
    } else {
        let a = s1.choose();
        assert(s1.union(s2).remove(a) =~= s1.remove(a).union(s2));
        assert(s1.remove(a).disjoint(s2));
        lemma_disjoint_union_len::<A>(s1.remove(a), s2);
        assert(s1.union(s2).contains(a));
        assert(s1.union(s2).len() == s1.union(s2).remove(a).len() + 1);
    }
}

impl<T> Tree<T> {
    /// The number of alive nodes: occupied slots are exactly the slots not
    /// recorded on the free list.
    pub open spec fn live_count(self) -> nat {
        (self.n() - self.core_tree.free_ids@.len()) as nat
    }

    /// The ancestor chain of an alive handle is made of distinct alive
    /// handles, each a proper ancestor.
    pub proof fn lemma_ancestors_sound(self, i: int, f: nat)
        requires
            self.wf(),
            self.occupied(i),
            self.rooted(i, f),
        ensures
            self.ancestors_upto(i, f).no_duplicates(),
            forall|k: int|
                0 <= k < self.ancestors_upto(i, f).len() ==> self.valid(
                    #[trigger] self.ancestors_upto(i, f)[k],
                ) && (match self.node_at(i).parent {
                    Some(p) => self.on_chain(
                        p.index as int,
                        self.ancestors_upto(i, f)[k].index as int,
                        f,
                    ),
                    None => false,
                }),
        decreases f,
    {
        let fuel = choose|f0: nat| self.all_rooted(f0);
        self.lemma_links_at(i);
        self.lemma_n_fits();
        match self.node_at(i).parent {
            None => {
            },
            Some(p) => {
                let pi = p.index as int;
                assert(self.valid(p));
                assert(self.occupied(pi));
                assert(self.rooted(pi, (f - 1) as nat));
                self.lemma_ancestors_sound(pi, (f - 1) as nat);
                let rest = self.ancestors_upto(pi, (f - 1) as nat);
                let whole = self.ancestors_upto(i, f);
                assert(whole =~= seq![p] + rest);
                assert(self.on_chain(pi, pi, f));
                // every element of the rest is on the grandparent's chain,
                // hence on the parent's chain
                assert forall|k: int| 0 <= k < whole.len() implies self.valid(
                    #[trigger] whole[k],
                ) && self.on_chain(pi, whole[k].index as int, f) by {
                    if k == 0 {
                        assert(whole[0] == p);
                    } else {
                        assert(whole[k] == rest[k - 1]);
                        match self.node_at(pi).parent {
                            Some(pp) => {
                                assert(self.on_chain(
                                    pp.index as int,
                                    rest[k - 1].index as int,
                                    (f - 1) as nat,
                                ));
                                assert(self.on_chain(pi, rest[k - 1].index as int, f));
                            },
                            None => {
                                assert(rest.len() == 0);
                            },
                        }
                    }
                }
                // the parent does not appear among its own proper ancestors
                assert(!rest.contains(p)) by {
                    if rest.contains(p) {
                        let k = choose|k: int| 0 <= k < rest.len() && rest[k] == p;
                        match self.node_at(pi).parent {
                            Some(pp) => {
                                assert(self.on_chain(pp.index as int, pi, (f - 1) as nat));
                                assert(self.rooted(pi, fuel));
                                self.lemma_parent_not_desc(pi, pp, (f - 1) as nat, fuel);
                                assert(false);
                            },
                            None => {
                                assert(rest.len() == 0);
                            },
                        }
                    }
                }
                assert(whole.no_duplicates()) by {
                    assert forall|k1: int, k2: int|
                        0 <= k1 < k2 < whole.len() implies whole[k1] != whole[k2] by {
                        if k1 == 0 {
                            if whole[k2] == p {
                                assert(rest[k2 - 1] == p);
                                assert(rest.contains(p));
                            }
                        } else {
                            assert(whole[k1] == rest[k1 - 1] && whole[k2] == rest[k2 - 1]);
                        }
                    }
                }
            },
        }
    }

    /// What one insert leaves for every reader: the fresh handle is alive,
    /// every handle alive before stays alive, is distinct from the fresh
    /// one, and resolves to the payload it held.  The hypotheses are what
    /// `insert`'s contract gives in either behavior (the touched slots are
    /// the fresh slot and at most the attachment point, whose payload the
    /// contract pins), so the law carries over any sequence of inserts:
    /// every returned handle resolves to the exact payload inserted until
    /// it is removed.
    pub proof fn lemma_insert_resolves_payloads(
        t0: Self,
        t1: Self,
        id: NodeId,
        touched: Set<int>,
        h: NodeId,
    )
        requires
            t0.grows_by(t1, id),
            t0.same_except(t1, touched),
            forall|j: int|
                #[trigger] touched.contains(j) && j != id.index as int && t0.occupied(j)
                    ==> t1.node_at(j).data == t0.node_at(j).data,
            t0.valid(h),
        ensures
            t1.valid(id),
            t1.valid(h),
            h != id,
            h.index != id.index,
            t1.node_at(h.index as int).data == t0.node_at(h.index as int).data,
    {
        let hi = h.index as int;
        assert(!t0.occupied(id.index as int)) by {
            if t0.occupied(id.index as int) {
                assert(t0.valid(id));
            }
        }
        assert(hi != id.index as int);
        assert(t1.occupied(hi));
        assert(t1.core_tree.id == t0.core_tree.id);
        if touched.contains(hi) {
        } else {
            assert(0 <= hi < t1.n()) by {
                assert(t1.occupied(hi));
            }
            Tree::lemma_same_at(t0, t1, touched, hi);
        }
    }

    /// Following parent links from any alive handle ends at a parentless
    /// node after at most as many steps as there are alive nodes; the
    /// visited handles are pairwise distinct.  In particular this holds
    /// after any sequence of structural operations, every one of which keeps
    /// the tree well formed.
    pub proof fn lemma_parent_walk_bounded(self, h: NodeId)
        requires
            self.wf(),
            self.valid(h),
        ensures
            exists|f: nat| self.rooted(h.index as int, f),
            forall|f: nat|
                #[trigger] self.rooted(h.index as int, f) ==> self.ancestors_upto(
                    h.index as int,
                    f,
                ).no_duplicates() && self.ancestors_upto(h.index as int, f).len()
                    < self.live_count(),
    {
        broadcast use vstd::set::group_set_axioms;

        let i = h.index as int;
        let fuel = choose|f0: nat| self.all_rooted(f0);
        assert(self.occupied(i));
        assert(self.rooted(i, fuel));
        self.lemma_n_fits();
        assert forall|f: nat| #[trigger] self.rooted(i, f) implies self.ancestors_upto(
            i,
            f,
        ).no_duplicates() && self.ancestors_upto(i, f).len() < self.live_count() by {
            self.lemma_ancestors_sound(i, f);
            let chain = seq![h] + self.ancestors_upto(i, f);
            // the walk visits distinct alive handles
            assert(chain.no_duplicates()) by {
                assert forall|k1: int, k2: int|
                    0 <= k1 < k2 < chain.len() implies chain[k1] != chain[k2] by {
                    if k1 == 0 {
                        let e = self.ancestors_upto(i, f)[k2 - 1];
                        assert(chain[k2] == e);
                        if e == h {
                            match self.node_at(i).parent {
                                Some(p) => {
                                    assert(self.on_chain(p.index as int, i, f));
                                    self.lemma_parent_not_desc(i, p, f, fuel);
                                    assert(false);
                                },
                                None => {
                                },
                            }
                        }
                    } else {
                        assert(chain[k1] == self.ancestors_upto(i, f)[k1 - 1]);
                        assert(chain[k2] == self.ancestors_upto(i, f)[k2 - 1]);
                    }
                }
            }
            assert(forall|k: int|
                0 <= k < chain.len() ==> self.valid(#[trigger] chain[k]));
            // distinct alive handles, as slot indices
            let idxs = chain.map_values(|id: NodeId| id.index as int);
            assert(idxs.no_duplicates()) by {
                assert forall|k1: int, k2: int|
                    0 <= k1 < k2 < idxs.len() implies idxs[k1] != idxs[k2] by {
                    assert(chain[k1] != chain[k2]);
                    assert(chain[k1].tree_id == self.core_tree.id && chain[k2].tree_id
                        == self.core_tree.id);
                }
            }
            idxs.unique_seq_to_set();
            // the free list, as slot indices
            let fidxs = self.core_tree.free_ids@.map_values(|id: NodeId| id.index as int);
            assert(fidxs.no_duplicates()) by {
                assert forall|k1: int, k2: int|
                    0 <= k1 < k2 < fidxs.len() implies fidxs[k1] != fidxs[k2] by {
                    assert(self.core_tree.free_ids@[k1].index
                        != self.core_tree.free_ids@[k2].index);
                }
            }
            fidxs.unique_seq_to_set();
            // both sets sit inside the storage range and do not meet: the
            // chain visits alive slots, the free list records empty ones
            let range = vstd::set_lib::set_int_range(0, self.n());
            vstd::set_lib::lemma_int_range(0, self.n());
            assert(idxs.to_set().subset_of(range)) by {
                assert forall|x: int| idxs.to_set().contains(x) implies 0 <= x < self.n() by {
                    let k = choose|k: int| 0 <= k < idxs.len() && idxs[k] == x;
                    assert(self.valid(chain[k]));
                }
            }
            assert(fidxs.to_set().subset_of(range));
            assert(idxs.to_set().disjoint(fidxs.to_set())) by {
                assert forall|x: int| !(idxs.to_set().contains(x) && fidxs.to_set().contains(
                    x,
                )) by {
                    if idxs.to_set().contains(x) && fidxs.to_set().contains(x) {
                        let k1 = choose|k1: int| 0 <= k1 < idxs.len() && idxs[k1] == x;
                        let k2 = choose|k2: int| 0 <= k2 < fidxs.len() && fidxs[k2] == x;
                        assert(self.valid(chain[k1]));
                        assert(self.core_tree.nodes@[x] is Some);
                        assert(self.core_tree.nodes@[self.core_tree.free_ids@[k2].index as int]
                            is None);
                        assert(false);
                    }
                }
            }
            lemma_disjoint_union_len(idxs.to_set(), fidxs.to_set());
            vstd::set_lib::lemma_len_subset(idxs.to_set().union(fidxs.to_set()), range);
            assert(idxs.to_set().len() + fidxs.to_set().len() <= self.n());
            assert(chain.len() <= self.n() - self.core_tree.free_ids@.len());
        }
    }
}

/// What one plain move leaves behind, when the destination is not below the
/// moved node: exactly the postcondition of `move_node_to_parent` for that
/// case.
pub open spec fn moved_across<T>(t0: Tree<T>, t1: Tree<T>, x: NodeId, dest: NodeId) -> bool {
    let ni = x.index as int;
    let pi = dest.index as int;
    &&& t1.core_tree.id == t0.core_tree.id
    &&& t1.n() == t0.n()
    &&& (forall|j: int| #[trigger] t1.occupied(j) <==> t0.occupied(j))
    &&& t1.node_at(ni).parent == Some(dest)
    &&& t1.node_at(ni).data == t0.node_at(ni).data
    &&& t1.children_of(ni) == t0.children_of(ni)
    &&& match t0.parent_of(ni) {
        Some(q) => {
            if q == dest {
                exists|mid: Seq<NodeId>|
                    removed_one(t0.children_of(pi), mid, x) && t1.children_of(pi) == mid.push(x)
            } else {
                &&& removed_one(
                    t0.children_of(q.index as int),
                    t1.children_of(q.index as int),
                    x,
                )
                &&& t1.node_at(q.index as int).parent == t0.node_at(q.index as int).parent
                &&& t1.node_at(q.index as int).data == t0.node_at(q.index as int).data
                &&& t1.children_of(pi) == t0.children_of(pi).push(x)
            }
        },
        None => t1.children_of(pi) == t0.children_of(pi).push(x),
    }
    &&& (forall|j: int|
        t0.occupied(j) && j != ni && j != pi && (match t0.parent_of(ni) {
            Some(q) => j != q.index as int,
            None => true,
        }) ==> #[trigger] t1.node_at(j) == t0.node_at(j))
}

/// Moving a node below another node and then back below its old parent
/// restores it to the same sibling set: the old parent ends up with exactly
/// the members it started with (the moved node possibly last), and the
/// node's own subtree is untouched throughout.  The two steps are stated as
/// `moved_to_parent`, the relation `move_node_to_parent` and `move_node`
/// establish between the trees before and after a successful move of one
/// alive node under another.  This needs the intermediate destination to lie
/// outside the moved node's subtree: moving a node below one of its own
/// descendants first restructures the path between them, and moving back
/// does not undo that.
pub proof fn lemma_move_round_trip<T>(
    t0: Tree<T>,
    t1: Tree<T>,
    t2: Tree<T>,
    x: NodeId,
    y: NodeId,
    p: NodeId,
)
    requires
        t0.wf(),
        t1.wf(),
        t0.valid(x),
        t0.valid(y),
        x.index != y.index,
        p.index != y.index,
        t0.parent_of(x.index as int) == Some(p),
        !t0.is_desc(y.index as int, x.index as int),
        Tree::moved_to_parent(t0, t1, x, y),
        Tree::moved_to_parent(t1, t2, x, p),
    ensures
        t2.node_at(x.index as int).parent == Some(p),
        t2.children_of(p.index as int).to_multiset() == t0.children_of(
            p.index as int,
        ).to_multiset(),
        t2.children_of(y.index as int) == t0.children_of(y.index as int),
        t2.children_of(x.index as int) == t0.children_of(x.index as int),
        t2.node_at(x.index as int).data == t0.node_at(x.index as int).data,
{
    broadcast use vstd::seq_lib::group_to_multiset_ensures;

    let ni = x.index as int;
    let pi = p.index as int;
    let yi = y.index as int;
    let f0 = choose|f: nat| t0.all_rooted(f);
    assert(t0.occupied(ni));
    t0.lemma_links_at(ni);
    t0.lemma_n_fits();
    assert(t0.valid(p));
    assert(pi != ni) by {
        assert(t0.rooted(ni, f0));
        t0.lemma_no_self_parent(ni, f0);
    }
    assert(yi != ni && yi != pi);
    assert(p != y) by {
        assert(p.tree_id == t0.core_tree.id && y.tree_id == t0.core_tree.id);
    }
    // the first step is the plain across case of the move contract
    assert(moved_across(t0, t1, x, y));
    // the old parent did not end up below the moved node: its ancestor
    // chain avoided the node before the move and is untouched by it
    assert(!t1.is_desc(pi, ni)) by {
        if t1.is_desc(pi, ni) {
            let g = choose|g: nat| t1.on_chain(pi, ni, g);
            assert(t0.rooted(pi, f0)) by {
                assert(t0.occupied(pi));
            }
            assert forall|j: int| #[trigger] t0.on_chain(pi, j, f0) implies t1.occupied(j)
                && t1.node_at(j).parent == t0.node_at(j).parent by {
                Tree::lemma_chain_occupied(t0, pi, j, f0);
                assert(j != ni) by {
                    if j == ni {
                        assert(t0.on_chain(pi, pi, 0));
                        assert(t0.on_chain(ni, pi, 1));
                        t0.lemma_chain_antisym(pi, ni, f0, 1, f0);
                        assert(false);
                    }
                }
                if j == pi {
                    assert(t1.node_at(pi).parent == t0.node_at(pi).parent);
                } else if j == yi {
                    assert(t1.node_at(yi).parent == t0.node_at(yi).parent);
                } else {
                    assert(t1.node_at(j) == t0.node_at(j));
                }
            }
            t0.lemma_chain_frame(t1, pi, f0);
            assert(t1.rooted(pi, f0));
            t1.lemma_on_chain_fuel(pi, ni, f0, g);
            assert(t1.on_chain(pi, ni, f0));
            assert(t0.on_chain(pi, ni, f0));
            assert(t0.on_chain(pi, pi, 0));
            assert(t0.on_chain(ni, pi, 1));
            t0.lemma_chain_antisym(pi, ni, f0, 1, f0);
            assert(false);
        }
    }
    assert(t1.valid(x) && t1.valid(p));
    assert(t1.parent_of(ni) == Some(y));
    // with that, the second step is the plain across case too
    assert(moved_across(t1, t2, x, p));
    // the first move took x out of p's list and appended it below y
    let k = choose|k: int|
        0 <= k < t0.children_of(pi).len() && t0.children_of(pi)[k] == x && (forall|j: int|
            0 <= j < k ==> t0.children_of(pi)[j] != x) && t1.children_of(pi) == t0.children_of(
            pi,
        ).remove(k);
    assert(t0.occupied(pi));
    t0.lemma_links_at(pi);
    crate::removal::lemma_remove_keeps(t0.children_of(pi), k);
    assert(t1.children_of(yi) == t0.children_of(yi).push(x));
    // x never sat among y's children before: its parent was p
    assert(!t0.children_of(yi).contains(x)) by {
        if t0.children_of(yi).contains(x) {
            assert(t0.occupied(yi));
            t0.lemma_links_at(yi);
            let m = choose|m: int|
                0 <= m < t0.children_of(yi).len() && t0.children_of(yi)[m] == x;
            assert(t0.node_at(ni).parent == Some(t0.mk_id(yi)));
            assert(t0.mk_id(yi) == p);
            assert(false);
        }
    }
    // the second move removed x from y's list again and appended it to p
    assert(t1.parent_of(ni) == Some(y));
    let k2 = choose|k2: int|
        0 <= k2 < t1.children_of(yi).len() && t1.children_of(yi)[k2] == x && (forall|j: int|
            0 <= j < k2 ==> t1.children_of(yi)[j] != x) && t2.children_of(yi)
            == t1.children_of(yi).remove(k2);
    // the only occurrence of x below y is the appended last one
    assert(k2 == t1.children_of(yi).len() - 1) by {
        if k2 < t1.children_of(yi).len() - 1 {
            assert(t1.children_of(yi)[k2] == t0.children_of(yi)[k2]);
            assert(t0.children_of(yi).contains(x));
            assert(false);
        }
    }
    assert(t2.children_of(yi) =~= t0.children_of(yi)) by {
        assert(t2.children_of(yi) == t1.children_of(yi).remove(
            t1.children_of(yi).len() - 1,
        ));
        assert(t1.children_of(yi).remove(t1.children_of(yi).len() - 1)
            =~= t1.children_of(yi).drop_last());
        assert(t1.children_of(yi).drop_last() =~= t0.children_of(yi));
    }
    assert(t2.children_of(pi) == t1.children_of(pi).push(x));
    // as multisets, removing and re-appending x cancels out
    assert(t2.children_of(pi).to_multiset() =~= t0.children_of(pi).to_multiset()) by {
        assert(t1.children_of(pi).to_multiset() =~= t0.children_of(pi).to_multiset().remove(x));
        assert(t2.children_of(pi).to_multiset() =~= t1.children_of(pi).to_multiset().insert(x));
        assert(t0.children_of(pi).to_multiset().contains(x)) by {
            assert(t0.children_of(pi)[k] == x);
            assert(t0.children_of(pi).contains(x));
        }
        assert(t0.children_of(pi).to_multiset().remove(x).insert(x) =~= t0.children_of(
            pi,
        ).to_multiset());
    }
    // x's own subtree travelled with it, untouched
    assert(t2.children_of(ni) == t1.children_of(ni));
    assert(t1.children_of(ni) == t0.children_of(ni));
}

} // verus!
