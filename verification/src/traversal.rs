//! Traversals over a `Tree`.
//!
//! Each traversal validates the start handle and then produces the whole
//! visiting order as a sequence of handles; the returned walk object hands
//! them out one by one.  The orders are specified by recursive functions
//! over the tree structure: a node before its children (pre-order), a node
//! after its children (post-order), the parent chain (ancestors), and tier
//! by tier (level-order).

use vstd::prelude::*;

use crate::error::NodeIdError;
use crate::node::Node;
use crate::tree::Tree;
use crate::NodeId;

verus! {

impl<T> Tree<T> {
    /// Every slot of the subtree of `i` reaches `i` within `fuel` steps.
    pub open spec fn sub_bounded(self, i: int, fuel: nat) -> bool {
        forall|j: int, g: nat|
            #[trigger] self.on_chain(j, i, g) ==> self.on_chain(j, i, fuel)
    }

    /// The ancestor handles of slot `i`, nearest first.
    pub open spec fn ancestors_upto(self, i: int, fuel: nat) -> Seq<NodeId>
        decreases fuel,
    {
        match self.node_at(i).parent {
            None => Seq::empty(),
            Some(p) => if fuel == 0 {
                Seq::empty()
            } else {
                seq![p] + self.ancestors_upto(p.index as int, (fuel - 1) as nat)
            },
        }
    }

    /// Pre-order: the node itself, then the subtrees of its children in
    /// order.
    pub open spec fn pre_of(self, i: int, fuel: nat) -> Seq<NodeId>
        decreases fuel, 1int, 0int,
    {
        seq![self.mk_id(i)] + self.pre_children(self.children_of(i), fuel)
    }

    /// Pre-order of a list of sibling subtrees.
    pub open spec fn pre_children(self, ch: Seq<NodeId>, fuel: nat) -> Seq<NodeId>
        decreases fuel, 0int, ch.len(),
    {
        if ch.len() == 0 || fuel == 0 {
            Seq::empty()
        } else {
            self.pre_of(ch[0].index as int, (fuel - 1) as nat) + self.pre_children(
                ch.drop_first(),
                fuel,
            )
        }
    }

    /// Post-order: the subtrees of the children in order, then the node.
    pub open spec fn post_of(self, i: int, fuel: nat) -> Seq<NodeId>
        decreases fuel, 1int, 0int,
    {
        self.post_children(self.children_of(i), fuel) + seq![self.mk_id(i)]
    }

    /// Post-order of a list of sibling subtrees.
    pub open spec fn post_children(self, ch: Seq<NodeId>, fuel: nat) -> Seq<NodeId>
        decreases fuel, 0int, ch.len(),
    {
        if ch.len() == 0 || fuel == 0 {
            Seq::empty()
        } else {
            self.post_of(ch[0].index as int, (fuel - 1) as nat) + self.post_children(
                ch.drop_first(),
                fuel,
            )
        }
    }

    /// The concatenation of the child lists of a sequence of handles: what a
    /// breadth-first walk appends while it works through that sequence.
    pub open spec fn flat_children(self, s: Seq<NodeId>) -> Seq<NodeId>
        decreases s.len(),
    {
        if s.len() == 0 {
            Seq::empty()
        } else {
            self.children_of(s[0].index as int) + self.flat_children(s.drop_first())
        }
    }

    /// A whole tree bounds every subtree.
    pub proof fn lemma_sub_bounded_all(self, i: int, fuel: nat)
        requires
            self.all_rooted(fuel),
            self.occupied(i),
        ensures
            self.sub_bounded(i, fuel),
    {
        assert forall|j: int, g: nat| #[trigger] self.on_chain(j, i, g) implies self.on_chain(
            j,
            i,
            fuel,
        ) by {
            assert(self.occupied(j));
            assert(self.rooted(j, fuel));
            self.lemma_on_chain_fuel(j, i, fuel, g);
        }
    }

    /// A chain from `j` that continues past `c` into `c`'s parent within `h`
    /// steps reaches `c` itself within `h - 1` steps.
    pub proof fn lemma_prefix_bound(self, j: int, c: int, i: int, g: nat, h: nat, f: nat)
        requires
            self.on_chain(j, c, g),
            match self.node_at(c).parent {
                Some(p) => p.index as int == i,
                None => false,
            },
            self.on_chain(j, i, h),
            self.rooted(j, f),
            self.occupied(i),
        ensures
            h >= 1 && self.on_chain(j, c, (h - 1) as nat),
        decreases g,
    {
        let p = self.node_at(c).parent.unwrap();
        if j == c {
            if j == i {
                self.lemma_no_self_parent(i, f);
                assert(false);
            }
            assert(h >= 1);
            assert(self.on_chain(c, c, (h - 1) as nat));
        } else {
            if j == i {
                // then c would sit both above and below its own parent
                Self::lemma_chain_occupied(self, j, c, g);
                self.lemma_n_fits();
                assert(self.on_chain(i, i, 0));
                assert(self.on_chain(c, c, 0));
                assert(self.on_chain(c, i, 1));
                self.lemma_rooted_suffix(j, c, f, g);
                self.lemma_chain_antisym(c, i, 1, g, f);
                assert(false);
            }
            match self.node_at(j).parent {
                None => {
                    assert(false);
                },
                Some(pj) => {
                    let pji = pj.index as int;
                    assert(self.on_chain(pji, c, (g - 1) as nat));
                    assert(self.on_chain(pji, i, (h - 1) as nat));
                    assert(f > 0 && self.rooted(pji, (f - 1) as nat));
                    self.lemma_prefix_bound(pji, c, i, (g - 1) as nat, (h - 1) as nat, (f - 1) as nat);
                    assert(self.on_chain(pji, c, (h - 2) as nat));
                    assert(self.on_chain(j, c, (h - 1) as nat));
                },
            }
        }
    }

    /// The subtree bound steps down to each child.
    pub proof fn lemma_sub_step(self, i: int, c: NodeId, fuel: nat)
        requires
            self.wf(),
            self.occupied(i),
            self.children_of(i).contains(c),
            self.sub_bounded(i, fuel),
            fuel >= 1,
        ensures
            self.sub_bounded(c.index as int, (fuel - 1) as nat),
    {
        let ci = c.index as int;
        let f0 = choose|f0: nat| self.all_rooted(f0);
        self.lemma_links_at(i);
        self.lemma_n_fits();
        assert(self.valid(c));
        assert(self.mk_id(i).index as int == i);
        assert(self.node_at(ci).parent == Some(self.mk_id(i)));
        assert forall|j: int, g: nat| #[trigger] self.on_chain(j, ci, g) implies self.on_chain(
            j,
            ci,
            (fuel - 1) as nat,
        ) by {
            Self::lemma_chain_occupied(self, j, ci, g);
            assert(self.occupied(j));
            assert(self.rooted(j, f0));
            self.lemma_chain_step(j, ci, self.mk_id(i), g);
            assert(self.on_chain(j, i, g + 1));
            assert(self.on_chain(j, i, fuel));
            self.lemma_prefix_bound(j, ci, i, g, fuel, f0);
        }
    }

    /// The traversal orders do not depend on the exact fuel, as long as it
    /// bounds the subtree.
    pub proof fn lemma_order_fuel(self, i: int, f1: nat, f2: nat)
        requires
            self.wf(),
            self.occupied(i),
            self.sub_bounded(i, f1),
            self.sub_bounded(i, f2),
            f1 >= 1,
            f2 >= 1,
        ensures
            self.pre_of(i, f1) == self.pre_of(i, f2),
            self.post_of(i, f1) == self.post_of(i, f2),
        decreases f1, 1int, 0int,
    {
        self.lemma_order_fuel_children(i, self.children_of(i), f1, f2);
    }

    /// Fuel-independence for a suffix of a child list of `i`.
    pub proof fn lemma_order_fuel_children(self, i: int, ch: Seq<NodeId>, f1: nat, f2: nat)
        requires
            self.wf(),
            self.occupied(i),
            forall|k: int| 0 <= k < ch.len() ==> self.children_of(i).contains(#[trigger] ch[k]),
            self.sub_bounded(i, f1),
            self.sub_bounded(i, f2),
            f1 >= 1,
            f2 >= 1,
        ensures
            self.pre_children(ch, f1) == self.pre_children(ch, f2),
            self.post_children(ch, f1) == self.post_children(ch, f2),
        decreases f1, 0int, ch.len(),
    {
        if ch.len() == 0 {
        } else {
            let c = ch[0];
            assert(self.children_of(i).contains(c));
            self.lemma_sub_step(i, c, f1);
            self.lemma_sub_step(i, c, f2);
            let ci = c.index as int;
            self.lemma_links_at(i);
            assert(self.valid(c));
            if f1 == 1 || f2 == 1 {
                // a child subtree bounded by zero steps is impossible unless
                // it is empty of further structure; both sides then reduce to
                // the single node
                assert(self.on_chain(ci, ci, 0));
                if f1 == 1 {
                    self.lemma_children_empty_when_zero(ci, (f1 - 1) as nat);
                } else {
                    self.lemma_children_empty_when_zero(ci, (f2 - 1) as nat);
                }
                assert(self.children_of(ci).len() == 0);
                assert(self.pre_of(ci, (f1 - 1) as nat) =~= seq![self.mk_id(ci)]);
                assert(self.pre_of(ci, (f2 - 1) as nat) =~= seq![self.mk_id(ci)]);
                assert(self.post_of(ci, (f1 - 1) as nat) =~= seq![self.mk_id(ci)]);
                assert(self.post_of(ci, (f2 - 1) as nat) =~= seq![self.mk_id(ci)]);
            } else {
                self.lemma_order_fuel(ci, (f1 - 1) as nat, (f2 - 1) as nat);
            }
            assert forall|k: int|
                0 <= k < ch.drop_first().len() implies self.children_of(i).contains(
                #[trigger] ch.drop_first()[k],
            ) by {
                assert(ch.drop_first()[k] == ch[k + 1]);
            }
            self.lemma_order_fuel_children(i, ch.drop_first(), f1, f2);
        }
    }

    /// Splitting a child list splits its traversal.
    pub proof fn lemma_post_children_app(self, ch1: Seq<NodeId>, ch2: Seq<NodeId>, fuel: nat)
        requires
            fuel >= 1,
        ensures
            self.post_children(ch1 + ch2, fuel) == self.post_children(ch1, fuel)
                + self.post_children(ch2, fuel),
        decreases ch1.len(),
    {
        if ch1.len() == 0 {
            assert(ch1 + ch2 =~= ch2);
            assert(self.post_children(ch1, fuel) + self.post_children(ch2, fuel)
                =~= self.post_children(ch2, fuel));
        } else {
            assert((ch1 + ch2).drop_first() =~= ch1.drop_first() + ch2);
            assert((ch1 + ch2)[0] == ch1[0]);
            self.lemma_post_children_app(ch1.drop_first(), ch2, fuel);
            assert(self.post_children(ch1 + ch2, fuel) =~= self.post_children(ch1, fuel)
                + self.post_children(ch2, fuel));
        }
    }

    /// Splitting a child list splits its pre-order traversal.
    pub proof fn lemma_pre_children_app(self, ch1: Seq<NodeId>, ch2: Seq<NodeId>, fuel: nat)
        requires
            fuel >= 1,
        ensures
            self.pre_children(ch1 + ch2, fuel) == self.pre_children(ch1, fuel)
                + self.pre_children(ch2, fuel),
        decreases ch1.len(),
    {
        if ch1.len() == 0 {
            assert(ch1 + ch2 =~= ch2);
            assert(self.pre_children(ch1, fuel) + self.pre_children(ch2, fuel)
                =~= self.pre_children(ch2, fuel));
        } else {
            assert((ch1 + ch2).drop_first() =~= ch1.drop_first() + ch2);
            assert((ch1 + ch2)[0] == ch1[0]);
            self.lemma_pre_children_app(ch1.drop_first(), ch2, fuel);
            assert(self.pre_children(ch1 + ch2, fuel) =~= self.pre_children(ch1, fuel)
                + self.pre_children(ch2, fuel));
        }
    }

    /// Two different children of one node have disjoint subtrees, and the
    /// node itself belongs to neither.
    pub proof fn lemma_sibling_disjoint(self, i: int, c1: NodeId, c2: NodeId, x: int, g1: nat, g2: nat)
        requires
            self.wf(),
            self.occupied(i),
            self.children_of(i).contains(c1),
            self.children_of(i).contains(c2),
            c1 != c2,
            self.on_chain(x, c1.index as int, g1),
        ensures
            !self.on_chain(x, c2.index as int, g2),
    {
        let f0 = choose|f0: nat| self.all_rooted(f0);
        self.lemma_links_at(i);
        self.lemma_n_fits();
        assert(self.valid(c1) && self.valid(c2));
        assert(self.mk_id(i).index as int == i);
        assert(self.on_chain(i, i, 0));
        let c1i = c1.index as int;
        let c2i = c2.index as int;
        assert(c1i != c2i);
        if self.on_chain(x, c2i, g2) {
            assert(self.occupied(x));
            assert(self.rooted(x, f0));
            self.lemma_chain_linear(x, c1i, c2i, g1, g2);
            if self.on_chain(c1i, c2i, g2) {
                // c1 below c2: c1's chain continues through i, so i would be
                // below c2 as well, yet c2's parent is i
                assert(self.node_at(c1i).parent == Some(self.mk_id(i)));
                assert(self.on_chain(i, c2i, (g2 - 1) as nat)) by {
                    assert(c1i != c2i);
                }
                assert(self.on_chain(c2i, c2i, 0));
                assert(self.on_chain(c2i, i, 1));
                self.lemma_rooted_suffix(c1i, c2i, f0, g2);
                assert(self.rooted(c1i, f0)) by {
                    assert(self.occupied(c1i));
                }
                assert(self.occupied(i));
                assert(self.rooted(i, f0));
                self.lemma_chain_antisym(i, c2i, (g2 - 1) as nat, 1, f0);
                assert(i == c2i);
                assert(self.node_at(c2i).parent == Some(self.mk_id(i)));
                self.lemma_no_self_parent(i, f0);
                assert(false);
            } else {
                assert(self.on_chain(c2i, c1i, g1));
                assert(self.node_at(c2i).parent == Some(self.mk_id(i)));
                assert(self.on_chain(i, c1i, (g1 - 1) as nat)) by {
                    assert(c2i != c1i);
                }
                assert(self.on_chain(c1i, c1i, 0));
                assert(self.on_chain(c1i, i, 1));
                assert(self.occupied(i));
                assert(self.rooted(i, f0));
                self.lemma_chain_antisym(i, c1i, (g1 - 1) as nat, 1, f0);
                assert(i == c1i);
                self.lemma_no_self_parent(i, f0);
                assert(false);
            }
        }
    }

    /// What the post-order of a subtree holds: exactly the handles of that
    /// subtree, each once.
    pub proof fn lemma_post_elems(self, i: int, fuel: nat)
        requires
            self.wf(),
            self.occupied(i),
            self.sub_bounded(i, fuel),
            fuel >= 1,
        ensures
            forall|x: NodeId|
                #[trigger] self.post_of(i, fuel).contains(x) ==> self.valid(x) && self.is_desc(
                    x.index as int,
                    i,
                ),
            forall|x: NodeId|
                self.valid(x) && self.is_desc(x.index as int, i) ==> #[trigger] self.post_of(
                    i,
                    fuel,
                ).contains(x),
            self.post_of(i, fuel).no_duplicates(),
        decreases fuel, 2int, 0int,
    {
        let f0 = choose|f0: nat| self.all_rooted(f0);
        self.lemma_links_at(i);
        self.lemma_n_fits();
        let ch = self.children_of(i);
        let po = self.post_of(i, fuel);
        // soundness and distinctness over the child segments
        self.lemma_post_children_elems(i, 0, fuel);
        assert(ch.skip(0) =~= ch);
        let body = self.post_children(ch, fuel);
        assert(body == self.post_children(ch.skip(0), fuel));
        assert(po =~= body + seq![self.mk_id(i)]);
        // the node itself is not inside any child segment
        assert(!body.contains(self.mk_id(i))) by {
            if body.contains(self.mk_id(i)) {
                let m = choose|m: int| 0 <= m < body.len() && body[m] == self.mk_id(i);
                assert(false);
            }
        }
        assert forall|x: NodeId| #[trigger] po.contains(x) implies self.valid(x) && self.is_desc(
            x.index as int,
            i,
        ) by {
            let m = choose|m: int| 0 <= m < po.len() && po[m] == x;
            assert(self.mk_id(i).index as int == i);
            if m == po.len() - 1 {
                assert(x == self.mk_id(i));
                assert(self.on_chain(i, i, 0));
                assert(self.is_desc(x.index as int, i));
            } else {
                assert(body[m] == x);
                assert(body.contains(x));
                let k = choose|k: int|
                    0 <= k < self.children_of(i).len() && self.is_desc(
                        x.index as int,
                        (#[trigger] self.children_of(i)[k]).index as int,
                    );
                let ck = self.children_of(i)[k];
                assert(self.children_of(i).contains(ck));
                assert(self.valid(ck));
                assert(self.node_at(ck.index as int).parent == Some(self.mk_id(i)));
                let g2 = choose|g2: nat| self.on_chain(x.index as int, ck.index as int, g2);
                self.lemma_chain_step(x.index as int, ck.index as int, self.mk_id(i), g2);
                assert(self.on_chain(x.index as int, i, g2 + 1));
                assert(self.is_desc(x.index as int, i));
            }
        }
        assert forall|x: NodeId|
            self.valid(x) && self.is_desc(x.index as int, i) implies #[trigger] po.contains(
            x,
        ) by {
            let xi = x.index as int;
            if xi == i {
                assert(x == self.mk_id(i));
                assert(po[po.len() - 1] == x);
            } else {
                let g = choose|g: nat| self.on_chain(xi, i, g);
                self.lemma_reach_via(xi, i, g);
                let d = choose|d: int|
                    #[trigger] self.on_chain(xi, d, g) && (match self.node_at(d).parent {
                        Some(p) => p.index as int == i,
                        None => false,
                    });
                Self::lemma_chain_occupied(self, xi, d, g);
                self.lemma_links_at(d);
                let dp = self.node_at(d).parent.unwrap();
                assert(dp == self.mk_id(i)) by {
                    assert(self.valid(dp));
                }
                assert(ch.contains(self.mk_id(d)));
                assert(body.contains(x)) by {
                    self.lemma_post_children_complete(i, fuel, self.mk_id(d), x, g);
                }
                let m = choose|m: int| 0 <= m < body.len() && body[m] == x;
                assert(po[m] == x);
            }
        }
        assert(po.no_duplicates()) by {
            assert forall|k1: int, k2: int| 0 <= k1 < k2 < po.len() implies po[k1] != po[k2] by {
                if k2 == po.len() - 1 {
                    assert(po[k2] == self.mk_id(i));
                    if po[k1] == self.mk_id(i) {
                        assert(body[k1] == self.mk_id(i));
                        assert(body.contains(self.mk_id(i)));
                    }
                } else {
                    assert(body[k1] == po[k1] && body[k2] == po[k2]);
                }
            }
        }
    }

    /// The segments of the children of `i`, from position `from` on: their
    /// elements are proper members of the respective subtrees, and the
    /// segments are pairwise disjoint and duplicate-free.
    pub proof fn lemma_post_children_elems(self, i: int, from: int, fuel: nat)
        requires
            self.wf(),
            self.occupied(i),
            self.sub_bounded(i, fuel),
            fuel >= 1,
            0 <= from <= self.children_of(i).len(),
        ensures
            forall|x: NodeId|
                #[trigger] self.post_children(
                    self.children_of(i).skip(from),
                    fuel,
                ).contains(x) ==> self.valid(x) && x != self.mk_id(i) && exists|k: int|
                    from <= k < self.children_of(i).len() && self.is_desc(
                        x.index as int,
                        (#[trigger] self.children_of(i)[k]).index as int,
                    ),
            self.post_children(self.children_of(i).skip(from), fuel).no_duplicates(),
        decreases fuel, 1int, self.children_of(i).len() - from,
    {
        let f0 = choose|f0: nat| self.all_rooted(f0);
        let ch = self.children_of(i);
        self.lemma_links_at(i);
        self.lemma_n_fits();
        if from == ch.len() {
            assert(ch.skip(from) =~= Seq::<NodeId>::empty());
        } else {
            let c = ch[from];
            assert(ch.contains(c));
            assert(self.valid(c));
            let ci = c.index as int;
            self.lemma_sub_step(i, c, fuel);
            assert(ch.skip(from).drop_first() =~= ch.skip(from + 1));
            assert(ch.skip(from)[0] == c);
            let seg = (if fuel - 1 >= 1 {
                self.post_of(ci, (fuel - 1) as nat)
            } else {
                self.post_of(ci, 0)
            });
            // the head segment
            if fuel == 1 {
                self.lemma_children_empty_when_zero(ci, 0);
                assert(self.post_of(ci, 0) =~= seq![self.mk_id(ci)]);
            } else {
                self.lemma_post_elems(ci, (fuel - 1) as nat);
            }
            self.lemma_post_children_elems(i, from + 1, fuel);
            let head = self.post_of(ci, (fuel - 1) as nat);
            let tail = self.post_children(ch.skip(from + 1), fuel);
            assert(self.post_children(ch.skip(from), fuel) =~= head + tail);
            // head elements are members of c's subtree
            assert forall|x: NodeId| #[trigger] head.contains(x) implies self.valid(x)
                && self.is_desc(x.index as int, ci) by {
                if fuel == 1 {
                    assert(head =~= seq![self.mk_id(ci)]);
                    assert(x == self.mk_id(ci));
                    assert(self.on_chain(ci, ci, 0));
                }
            }
            // combine
            assert forall|x: NodeId|
                #[trigger] self.post_children(ch.skip(from), fuel).contains(x) implies self.valid(
                x,
            ) && x != self.mk_id(i) && exists|k: int|
                from <= k < ch.len() && self.is_desc(
                    x.index as int,
                    (#[trigger] ch[k]).index as int,
                ) by {
                let m = choose|m: int|
                    0 <= m < self.post_children(ch.skip(from), fuel).len() && self.post_children(
                        ch.skip(from),
                        fuel,
                    )[m] == x;
                if m < head.len() {
                    assert(head[m] == x);
                    assert(head.contains(x));
                    assert(self.is_desc(x.index as int, (ch[from]).index as int));
                    assert(x != self.mk_id(i)) by {
                        let g = choose|g: nat| self.on_chain(x.index as int, ci, g);
                        if x == self.mk_id(i) {
                            // i below its own child is a cycle
                            assert(self.node_at(ci).parent == Some(self.mk_id(i)));
                            assert(self.mk_id(i).index as int == i);
                            assert(self.on_chain(i, i, 0));
                            assert(self.on_chain(ci, ci, 0));
                            assert(self.on_chain(ci, i, 1));
                            assert(self.occupied(i));
                            assert(self.rooted(i, f0));
                            self.lemma_chain_antisym(i, ci, g, 1, f0);
                            assert(i == ci);
                            self.lemma_no_self_parent(i, f0);
                            assert(false);
                        }
                    }
                } else {
                    assert(tail[m - head.len()] == x);
                    assert(tail.contains(x));
                }
            }
            // distinctness: head and tail are disjoint subtree segments
            assert(self.post_children(ch.skip(from), fuel).no_duplicates()) by {
                let whole = self.post_children(ch.skip(from), fuel);
                assert forall|k1: int, k2: int|
                    0 <= k1 < k2 < whole.len() implies whole[k1] != whole[k2] by {
                    if k1 < head.len() && k2 >= head.len() {
                        let x = whole[k1];
                        assert(head[k1] == x);
                        assert(head.contains(x));
                        let y = whole[k2];
                        assert(tail[k2 - head.len()] == y);
                        assert(tail.contains(y));
                        if x == y {
                            let g1 = choose|g1: nat| self.on_chain(x.index as int, ci, g1);
                            let k = choose|k: int|
                                from + 1 <= k < ch.len() && self.is_desc(
                                    y.index as int,
                                    (#[trigger] ch[k]).index as int,
                                );
                            let g2 = choose|g2: nat|
                                self.on_chain(y.index as int, ch[k].index as int, g2);
                            assert(ch.contains(ch[k]));
                            assert(ch[k] != c) by {
                                if ch[k] == c {
                                    assert(ch.no_duplicates());
                                }
                            }
                            self.lemma_sibling_disjoint(i, c, ch[k], x.index as int, g1, g2);
                            assert(false);
                        }
                    } else if k2 < head.len() {
                        assert(head[k1] == whole[k1] && head[k2] == whole[k2]);
                    } else {
                        assert(tail[k1 - head.len()] == whole[k1] && tail[k2 - head.len()]
                            == whole[k2]);
                    }
                }
            }
        }
    }

    /// A member of the subtree of the child `c` of `i` appears in the
    /// child segments of `i`.
    pub proof fn lemma_post_children_complete(self, i: int, fuel: nat, c: NodeId, x: NodeId, g: nat)
        requires
            self.wf(),
            self.occupied(i),
            self.sub_bounded(i, fuel),
            fuel >= 1,
            self.children_of(i).contains(c),
            self.valid(x),
            self.on_chain(x.index as int, c.index as int, g),
        ensures
            self.post_children(self.children_of(i), fuel).contains(x),
        decreases fuel, 0int, 0int,
    {
        let ch = self.children_of(i);
        let k = choose|k: int| 0 <= k < ch.len() && ch[k] == c;
        assert(ch =~= ch.take(k) + seq![c] + ch.skip(k + 1));
        self.lemma_post_children_app(ch.take(k), seq![c] + ch.skip(k + 1), fuel);
        self.lemma_post_children_app(seq![c], ch.skip(k + 1), fuel);
        assert(self.post_children(seq![c], fuel) =~= self.post_of(c.index as int, (fuel - 1) as nat)) by {
            assert(seq![c].drop_first() =~= Seq::<NodeId>::empty());
            assert(seq![c][0] == c);
            assert(self.post_children(seq![c].drop_first(), fuel) =~= Seq::<NodeId>::empty());
            assert(self.post_of(c.index as int, (fuel - 1) as nat) + Seq::<NodeId>::empty()
                =~= self.post_of(c.index as int, (fuel - 1) as nat));
        }
        let ci = c.index as int;
        self.lemma_links_at(i);
        assert(self.valid(c));
        self.lemma_sub_step(i, c, fuel);
        if fuel == 1 {
            self.lemma_children_empty_when_zero(ci, 0);
            assert(self.post_of(ci, 0) =~= seq![self.mk_id(ci)]) by {
                assert(self.post_children(self.children_of(ci), 1) =~= Seq::<NodeId>::empty());
                assert(Seq::<NodeId>::empty() + seq![self.mk_id(ci)] =~= seq![self.mk_id(ci)]);
            }
            // the only member is c itself
            self.lemma_n_fits();
            assert(self.mk_id(i).index as int == i);
            assert(self.on_chain(i, i, 0));
            assert(x.index as int == ci ==> x == self.mk_id(ci));
            assert(x.index as int == ci) by {
                if x.index as int != ci {
                    // a proper member needs one step of fuel
                    let f0 = choose|f0: nat| self.all_rooted(f0);
                    assert(self.on_chain(x.index as int, ci, g));
                    self.lemma_chain_step(
                        x.index as int,
                        ci,
                        self.mk_id(i),
                        g,
                    );
                    assert(self.on_chain(x.index as int, i, g + 1));
                    assert(self.on_chain(x.index as int, i, fuel));
                    assert(self.occupied(x.index as int));
                    assert(self.rooted(x.index as int, f0));
                    self.lemma_prefix_bound(x.index as int, ci, i, g, fuel, f0);
                    assert(self.on_chain(x.index as int, ci, 0));
                    assert(false);
                }
            }
            assert(self.post_of(ci, 0).contains(x));
        } else {
            self.lemma_post_elems(ci, (fuel - 1) as nat);
            assert(self.is_desc(x.index as int, ci));
            assert(self.post_of(ci, (fuel - 1) as nat).contains(x));
        }
        let seg = self.post_of(ci, (fuel - 1) as nat);
        let m = choose|m: int| 0 <= m < seg.len() && seg[m] == x;
        let whole = self.post_children(ch, fuel);
        assert(ch =~= ch.take(k) + (seq![c] + ch.skip(k + 1)));
        assert(self.post_children(ch, fuel) == self.post_children(
            ch.take(k) + (seq![c] + ch.skip(k + 1)),
            fuel,
        ));
        assert(self.post_children(seq![c] + ch.skip(k + 1), fuel) == self.post_children(
            seq![c],
            fuel,
        ) + self.post_children(ch.skip(k + 1), fuel));
        assert(whole =~= self.post_children(ch.take(k), fuel) + seg + self.post_children(
            ch.skip(k + 1),
            fuel,
        ));
        assert(whole[self.post_children(ch.take(k), fuel).len() + m] == x);
        assert(whole.contains(x));
    }

    /// A flattened child list contains exactly the members of the child
    /// lists.
    pub proof fn lemma_flat_mem(self, s: Seq<NodeId>, x: NodeId)
        ensures
            self.flat_children(s).contains(x) <==> exists|j: int|
                0 <= j < s.len() && self.children_of((#[trigger] s[j]).index as int).contains(x),
        decreases s.len(),
    {
        if s.len() == 0 {
        } else {
            self.lemma_flat_mem(s.drop_first(), x);
            let head = self.children_of(s[0].index as int);
            let tail = self.flat_children(s.drop_first());
            if self.flat_children(s).contains(x) {
                let m = choose|m: int|
                    0 <= m < self.flat_children(s).len() && self.flat_children(s)[m] == x;
                if m < head.len() {
                    assert(head[m] == x);
                    assert(head.contains(x));
                } else {
                    assert(tail[m - head.len()] == x);
                    assert(tail.contains(x));
                    let j = choose|j: int|
                        0 <= j < s.drop_first().len() && self.children_of(
                            (#[trigger] s.drop_first()[j]).index as int,
                        ).contains(x);
                    assert(s[j + 1] == s.drop_first()[j]);
                }
            }
            if exists|j: int|
                0 <= j < s.len() && self.children_of((#[trigger] s[j]).index as int).contains(x) {
                let j = choose|j: int|
                    0 <= j < s.len() && self.children_of((#[trigger] s[j]).index as int).contains(
                        x,
                    );
                if j == 0 {
                    let m = choose|m: int| 0 <= m < head.len() && head[m] == x;
                    assert(self.flat_children(s)[m] == x);
                    assert(self.flat_children(s).contains(x));
                } else {
                    assert(s.drop_first()[j - 1] == s[j]);
                    assert(tail.contains(x));
                    let m = choose|m: int| 0 <= m < tail.len() && tail[m] == x;
                    assert(self.flat_children(s)[head.len() + m] == x);
                    assert(self.flat_children(s).contains(x));
                }
            }
        }
    }

    /// Flattening one more handle appends its children.
    pub proof fn lemma_flat_push(self, s: Seq<NodeId>, x: NodeId)
        ensures
            self.flat_children(s.push(x)) == self.flat_children(s) + self.children_of(
                x.index as int,
            ),
        decreases s.len(),
    {
        if s.len() == 0 {
            assert(s.push(x).drop_first() =~= Seq::<NodeId>::empty());
            assert(s.push(x)[0] == x);
            assert(self.flat_children(Seq::<NodeId>::empty()) == Seq::<NodeId>::empty());
            assert(self.flat_children(s.push(x)) == self.children_of(x.index as int)
                + self.flat_children(Seq::<NodeId>::empty()));
            assert(self.flat_children(s.push(x)) =~= self.flat_children(s) + self.children_of(
                x.index as int,
            ));
        } else {
            assert(s.push(x).drop_first() =~= s.drop_first().push(x));
            assert(s.push(x)[0] == s[0]);
            self.lemma_flat_push(s.drop_first(), x);
            assert(self.flat_children(s.push(x)) =~= self.flat_children(s) + self.children_of(
                x.index as int,
            ));
        }
    }

    /// A duplicate-free sequence of valid handles cannot be longer than the
    /// storage.
    pub proof fn lemma_distinct_valid_bound(self, s: Seq<NodeId>)
        requires
            s.no_duplicates(),
            forall|k: int| 0 <= k < s.len() ==> self.valid(#[trigger] s[k]),
        ensures
            s.len() <= self.n(),
    {
        let idxs = s.map_values(|id: NodeId| id.index as int);
        assert(idxs.no_duplicates()) by {
            assert forall|k1: int, k2: int|
                0 <= k1 < k2 < idxs.len() implies idxs[k1] != idxs[k2] by {
                assert(s[k1] != s[k2]);
                assert(s[k1].tree_id == self.core_tree.id && s[k2].tree_id == self.core_tree.id);
            }
        }
        idxs.unique_seq_to_set();
        assert(idxs.to_set().subset_of(vstd::set_lib::set_int_range(0, self.n()))) by {
            assert forall|x: int| idxs.to_set().contains(x) implies 0 <= x < self.n() by {
                let k = choose|k: int| 0 <= k < idxs.len() && idxs[k] == x;
                assert(self.valid(s[k]));
            }
        }
        vstd::set_lib::lemma_int_range(0, self.n());
        vstd::set_lib::lemma_len_subset(
            idxs.to_set(),
            vstd::set_lib::set_int_range(0, self.n()),
        );
    }

    /// A subtree that nothing reaches in one step has no children.
    pub proof fn lemma_children_empty_when_zero(self, i: int, zero: nat)
        requires
            self.wf(),
            self.occupied(i),
            self.sub_bounded(i, zero),
            zero == 0,
        ensures
            self.children_of(i).len() == 0,
    {
        if self.children_of(i).len() > 0 {
            let c = self.children_of(i)[0];
            self.lemma_links_at(i);
            assert(self.children_of(i).contains(c));
            assert(self.valid(c));
            let ci = c.index as int;
            assert(self.node_at(ci).parent == Some(self.mk_id(i)));
            let f0 = choose|f0: nat| self.all_rooted(f0);
            self.lemma_n_fits();
            assert(self.mk_id(i).index as int == i);
            assert(ci != i) by {
                assert(self.occupied(i));
                assert(self.rooted(i, f0));
                self.lemma_no_self_parent(i, f0);
            }
            assert(self.on_chain(i, i, 0));
            assert(self.on_chain(ci, i, 1));
            assert(self.on_chain(ci, i, 0));
            assert(false);
        }
    }
}

/// A walk over a precomputed sequence of handles: each call to `next` hands
/// out the next one.
pub struct IdWalk {
    pub ids: Vec<NodeId>,
    pub pos: usize,
}

impl IdWalk {
    /// The handles not yet handed out.
    pub open spec fn remaining(self) -> Seq<NodeId> {
        self.ids@.skip(self.pos as int)
    }

    /// Hands out the next handle of the walk, or `None` once all have been
    /// seen.
    pub fn next(&mut self) -> (r: Option<NodeId>)
        ensures
            old(self).pos < old(self).ids@.len() ==> r == Some(
                old(self).ids@[old(self).pos as int],
            ) && final(self).pos == old(self).pos + 1,
            old(self).pos >= old(self).ids@.len() ==> (r is None) && *final(self) == *old(self),
            final(self).ids == old(self).ids,
    {
        if self.pos < self.ids.len() {
            let r = self.ids[self.pos];
            self.pos = self.pos + 1;
            Some(r)
        } else {
            None
        }
    }
}

/// An iterator-like walk over the ancestors of a `Node`, nearest first.
pub type Ancestors = IdWalk;

/// An iterator-like walk over the ancestor handles of a `Node`.
pub type AncestorIds = IdWalk;

/// An iterator-like walk over the children of a `Node`, in stored order.
pub type Children = IdWalk;

/// An iterator-like walk over the child handles of a `Node`.
pub type ChildrenIds = IdWalk;

/// An iterator-like walk over a subtree in pre-order.
pub type PreOrderTraversal = IdWalk;

/// An iterator-like walk over a subtree in post-order.
pub type PostOrderTraversal = IdWalk;

/// An iterator-like walk over a subtree tier by tier.
pub type LevelOrderTraversal = IdWalk;

impl<T> Tree<T> {
    /// Collects the ancestor chain of a validated handle, nearest first.
    fn collect_ancestors(&self, start: &NodeId) -> (r: Vec<NodeId>)
        requires
            self.wf(),
            self.valid(*start),
        ensures
            forall|f: nat|
                self.rooted(start.index as int, f) ==> r@ == #[trigger] self.ancestors_upto(
                    start.index as int,
                    f,
                ),
    {
        let ghost fuel = choose|f: nat| self.all_rooted(f);
        proof {
            assert(self.occupied(start.index as int));
            assert(self.rooted(start.index as int, fuel));
        }
        let mut out: Vec<NodeId> = Vec::new();
        let mut current = *start;
        let ghost mut remaining = fuel;
        proof {
            assert forall|f: nat|
                self.rooted(start.index as int, f) implies #[trigger] self.ancestors_upto(
                start.index as int,
                f,
            ) == out@ + self.ancestors_upto(current.index as int, remaining) by {
                self.lemma_ancestors_fuel(start.index as int, f, fuel);
                assert(out@ + self.ancestors_upto(start.index as int, fuel)
                    =~= self.ancestors_upto(start.index as int, fuel));
            }
        }
        loop
            invariant
                self.wf(),
                self.valid(current),
                self.rooted(current.index as int, remaining),
                forall|f: nat|
                    self.rooted(start.index as int, f) ==> #[trigger] self.ancestors_upto(
                        start.index as int,
                        f,
                    ) == out@ + self.ancestors_upto(current.index as int, remaining),
            decreases remaining,
        {
            proof {
                assert(self.occupied(current.index as int));
                self.lemma_links_at(current.index as int);
            }
            let parent_opt = self.core_tree.get_unsafe(&current).parent();
            match parent_opt {
                None => {
                    proof {
                        assert forall|f: nat|
                            self.rooted(start.index as int, f) implies #[trigger] self.ancestors_upto(
                            start.index as int,
                            f,
                        ) == out@ by {
                            assert(self.ancestors_upto(current.index as int, remaining)
                                =~= Seq::<NodeId>::empty());
                            assert(out@ + Seq::<NodeId>::empty() =~= out@);
                        }
                    }
                    return out;
                },
                Some(parent) => {
                    proof {
                        assert(self.valid(parent));
                        assert(remaining > 0);
                        assert forall|f: nat|
                            self.rooted(start.index as int, f) implies #[trigger] self.ancestors_upto(
                            start.index as int,
                            f,
                        ) == out@.push(parent) + self.ancestors_upto(
                            parent.index as int,
                            (remaining - 1) as nat,
                        ) by {
                            self.lemma_ancestors_fuel(
                                parent.index as int,
                                (remaining - 1) as nat,
                                (remaining - 1) as nat,
                            );
                            assert(self.ancestors_upto(current.index as int, remaining)
                                =~= seq![parent] + self.ancestors_upto(
                                parent.index as int,
                                (remaining - 1) as nat,
                            ));
                            assert(out@ + (seq![parent] + self.ancestors_upto(
                                parent.index as int,
                                (remaining - 1) as nat,
                            )) =~= out@.push(parent) + self.ancestors_upto(
                                parent.index as int,
                                (remaining - 1) as nat,
                            ));
                        }
                        remaining = (remaining - 1) as nat;
                    }
                    out.push(parent);
                    current = parent;
                },
            }
        }
    }

    /// The ancestor chain does not depend on the fuel, as long as the chain
    /// is rooted within it.
    pub proof fn lemma_ancestors_fuel(self, i: int, f1: nat, f2: nat)
        requires
            self.rooted(i, f1),
            self.rooted(i, f2),
        ensures
            self.ancestors_upto(i, f1) == self.ancestors_upto(i, f2),
        decreases f1,
    {
        match self.node_at(i).parent {
            None => {
            },
            Some(p) => {
                self.lemma_ancestors_fuel(p.index as int, (f1 - 1) as nat, (f2 - 1) as nat);
            },
        }
    }

    /// Copies a list of handles.
    fn copy_ids(src: &Vec<NodeId>) -> (r: Vec<NodeId>)
        ensures
            r@ == src@,
    {
        let mut out: Vec<NodeId> = Vec::new();
        let mut k: usize = 0;
        while k < src.len()
            invariant
                0 <= k <= src@.len(),
                out@ == src@.take(k as int),
            decreases src@.len() - k,
        {
            out.push(src[k]);
            proof {
                assert(src@.take(k + 1 as int) =~= src@.take(k as int).push(src@[k as int]));
            }
            k += 1;
        }
        proof {
            assert(src@.take(src@.len() as int) =~= src@);
        }
        out
    }

    /// Collects a whole subtree in post-order.
    fn collect_post(&self, id: NodeId, out: &mut Vec<NodeId>, Ghost(fuel): Ghost<nat>)
        requires
            self.wf(),
            self.valid(id),
            self.sub_bounded(id.index as int, fuel),
            fuel >= 1,
        ensures
            final(out)@ == old(out)@ + self.post_of(id.index as int, fuel),
        decreases fuel,
    {
        let ghost t = *self;
        let ghost i = id.index as int;
        let ghost ch = self.children_of(i);
        proof {
            assert(t.occupied(i));
            t.lemma_links_at(i);
            t.lemma_n_fits();
            assert(t.mk_id(i) == id);
        }
        let num = self.core_tree.get_unsafe(&id).children().len();
        let mut k: usize = 0;
        while k < num
            invariant
                t == *self,
                t.wf(),
                t.valid(id),
                i == id.index as int,
                ch == t.children_of(i),
                t.sub_bounded(i, fuel),
                fuel >= 1,
                num == ch.len(),
                0 <= k <= num,
                out@ == old(out)@ + t.post_children(ch.take(k as int), fuel),
            decreases num - k,
        {
            let child = self.core_tree.get_unsafe(&id).children()[k];
            proof {
                assert(t.occupied(i));
                t.lemma_links_at(i);
                t.lemma_n_fits();
                assert(child == ch[k as int]);
                assert(ch.contains(child));
                assert(t.valid(child));
                t.lemma_sub_step(i, child, fuel);
                if fuel == 1 {
                    t.lemma_children_empty_when_zero(child.index as int, 0);
                }
            }
            if self.core_tree.get_unsafe(&child).children().len() == 0 {
                // a leaf: its whole subtree is itself
                out.push(child);
                proof {
                    assert(t.post_of(child.index as int, (fuel - 1) as nat) =~= seq![child]) by {
                        assert(t.children_of(child.index as int).len() == 0);
                        assert(t.post_children(t.children_of(child.index as int), (fuel - 1) as nat)
                            =~= Seq::<NodeId>::empty());
                        assert(t.mk_id(child.index as int) == child) by {
                            t.lemma_n_fits();
                        }
                        assert(Seq::<NodeId>::empty() + seq![child] =~= seq![child]);
                    }
                }
            } else {
                proof {
                    assert(fuel >= 2) by {
                        if fuel == 1 {
                            assert(t.children_of(child.index as int).len() == 0);
                        }
                    }
                }
                self.collect_post(child, out, Ghost((fuel - 1) as nat));
            }
            proof {
                assert(ch.take(k + 1 as int) =~= ch.take(k as int) + seq![child]);
                t.lemma_post_children_app(ch.take(k as int), seq![child], fuel);
                assert(t.post_children(seq![child], fuel) == t.post_of(
                    child.index as int,
                    (fuel - 1) as nat,
                )) by {
                    assert(seq![child].drop_first() =~= Seq::<NodeId>::empty());
                    assert(seq![child][0] == child);
                    assert(t.post_children(Seq::<NodeId>::empty(), fuel)
                        =~= Seq::<NodeId>::empty());
                    assert(t.post_of(child.index as int, (fuel - 1) as nat)
                        + Seq::<NodeId>::empty() =~= t.post_of(
                        child.index as int,
                        (fuel - 1) as nat,
                    ));
                }
                if fuel == 1 {
                    // with no fuel left the child must be a leaf, and both
                    // sides reduce to the single handle
                    assert(t.post_of(child.index as int, 0) =~= seq![child]) by {
                        assert(t.children_of(child.index as int).len() == 0);
                        assert(t.post_children(t.children_of(child.index as int), 0)
                            =~= Seq::<NodeId>::empty());
                        assert(t.mk_id(child.index as int) == child);
                        assert(Seq::<NodeId>::empty() + seq![child] =~= seq![child]);
                    }
                }
            }
            k += 1;
        }
        out.push(id);
        proof {
            assert(ch.take(num as int) =~= ch);
            assert(old(out)@ + t.post_children(ch, fuel) + seq![id] =~= old(out)@ + t.post_of(
                i,
                fuel,
            ));
        }
    }

    /// Collects a whole subtree in pre-order.
    fn collect_pre(&self, id: NodeId, out: &mut Vec<NodeId>, Ghost(fuel): Ghost<nat>)
        requires
            self.wf(),
            self.valid(id),
            self.sub_bounded(id.index as int, fuel),
            fuel >= 1,
        ensures
            final(out)@ == old(out)@ + self.pre_of(id.index as int, fuel),
        decreases fuel,
    {
        let ghost t = *self;
        let ghost i = id.index as int;
        let ghost ch = self.children_of(i);
        proof {
            assert(t.occupied(i));
            t.lemma_links_at(i);
            t.lemma_n_fits();
            assert(t.mk_id(i) == id);
        }
        out.push(id);
        let num = self.core_tree.get_unsafe(&id).children().len();
        let mut k: usize = 0;
        while k < num
            invariant
                t == *self,
                t.wf(),
                t.valid(id),
                i == id.index as int,
                ch == t.children_of(i),
                t.sub_bounded(i, fuel),
                fuel >= 1,
                num == ch.len(),
                0 <= k <= num,
                out@ == old(out)@ + seq![id] + t.pre_children(ch.take(k as int), fuel),
            decreases num - k,
        {
            let child = self.core_tree.get_unsafe(&id).children()[k];
            proof {
                assert(t.occupied(i));
                t.lemma_links_at(i);
                t.lemma_n_fits();
                assert(child == ch[k as int]);
                assert(ch.contains(child));
                assert(t.valid(child));
                t.lemma_sub_step(i, child, fuel);
                if fuel == 1 {
                    t.lemma_children_empty_when_zero(child.index as int, 0);
                }
            }
            if self.core_tree.get_unsafe(&child).children().len() == 0 {
                out.push(child);
                proof {
                    assert(t.pre_of(child.index as int, (fuel - 1) as nat) =~= seq![child]) by {
                        assert(t.children_of(child.index as int).len() == 0);
                        assert(t.pre_children(t.children_of(child.index as int), (fuel - 1) as nat)
                            =~= Seq::<NodeId>::empty());
                        assert(t.mk_id(child.index as int) == child) by {
                            t.lemma_n_fits();
                        }
                        assert(seq![child] + Seq::<NodeId>::empty() =~= seq![child]);
                    }
                }
            } else {
                proof {
                    assert(fuel >= 2) by {
                        if fuel == 1 {
                            assert(t.children_of(child.index as int).len() == 0);
                        }
                    }
                }
                self.collect_pre(child, out, Ghost((fuel - 1) as nat));
            }
            proof {
                assert(ch.take(k + 1 as int) =~= ch.take(k as int) + seq![child]);
                t.lemma_pre_children_app(ch.take(k as int), seq![child], fuel);
                assert(t.pre_children(seq![child], fuel) == t.pre_of(
                    child.index as int,
                    (fuel - 1) as nat,
                )) by {
                    assert(seq![child].drop_first() =~= Seq::<NodeId>::empty());
                    assert(seq![child][0] == child);
                    assert(t.pre_children(Seq::<NodeId>::empty(), fuel)
                        =~= Seq::<NodeId>::empty());
                    assert(t.pre_of(child.index as int, (fuel - 1) as nat)
                        + Seq::<NodeId>::empty() =~= t.pre_of(
                        child.index as int,
                        (fuel - 1) as nat,
                    ));
                }
                if fuel == 1 {
                    assert(t.pre_of(child.index as int, 0) =~= seq![child]) by {
                        assert(t.children_of(child.index as int).len() == 0);
                        assert(t.pre_children(t.children_of(child.index as int), 0)
                            =~= Seq::<NodeId>::empty());
                        assert(t.mk_id(child.index as int) == child);
                        assert(seq![child] + Seq::<NodeId>::empty() =~= seq![child]);
                    }
                }
            }
            k += 1;
        }
        proof {
            assert(ch.take(num as int) =~= ch);
            assert(old(out)@ + seq![id] + t.pre_children(ch, fuel) =~= old(out)@ + t.pre_of(
                i,
                fuel,
            ));
        }
    }

    /// Collects a whole subtree tier by tier.
    fn collect_level(&self, start: NodeId) -> (r: Vec<NodeId>)
        requires
            self.wf(),
            self.valid(start),
        ensures
            r@.len() >= 1,
            r@[0] == start,
            r@.no_duplicates(),
            forall|k: int|
                0 <= k < r@.len() ==> self.valid(#[trigger] r@[k]) && self.is_desc(
                    r@[k].index as int,
                    start.index as int,
                ),
            r@.skip(1) == self.flat_children(r@),
    {
        let ghost t = *self;
        let ghost si = start.index as int;
        let mut seq_v: Vec<NodeId> = Vec::new();
        seq_v.push(start);
        proof {
            assert(t.on_chain(si, si, 0));
            assert(seq_v@.skip(1) =~= Seq::<NodeId>::empty());
            assert(seq_v@.take(0) =~= Seq::<NodeId>::empty());
        }
        let mut idx: usize = 0;
        while idx < seq_v.len()
            invariant
                t == *self,
                t.wf(),
                t.valid(start),
                si == start.index as int,
                1 <= seq_v@.len(),
                seq_v@[0] == start,
                seq_v@.no_duplicates(),
                forall|k: int|
                    0 <= k < seq_v@.len() ==> t.valid(#[trigger] seq_v@[k]) && t.is_desc(
                        seq_v@[k].index as int,
                        si,
                    ),
                0 <= idx <= seq_v@.len(),
                seq_v@.skip(1) == t.flat_children(seq_v@.take(idx as int)),
                seq_v@.len() <= t.n(),
            decreases t.n() - idx,
        {
            let current = seq_v[idx];
            proof {
                assert(t.valid(current));
                assert(t.occupied(current.index as int));
                t.lemma_links_at(current.index as int);
                t.lemma_n_fits();
            }
            let num = self.core_tree.get_unsafe(&current).children().len();
            let ghost cch = t.children_of(current.index as int);
            let ghost entry = seq_v@;
            let mut k: usize = 0;
            while k < num
                invariant
                    t == *self,
                    t.wf(),
                    t.valid(start),
                    si == start.index as int,
                    t.valid(current),
                    cch == t.children_of(current.index as int),
                    num == cch.len(),
                    0 <= k <= num,
                    0 <= idx < entry.len(),
                    entry[idx as int] == current,
                    seq_v@ == entry + cch.take(k as int),
                    entry[0] == start,
                    entry.no_duplicates(),
                    seq_v@.no_duplicates(),
                    forall|m: int|
                        0 <= m < seq_v@.len() ==> t.valid(#[trigger] seq_v@[m]) && t.is_desc(
                            seq_v@[m].index as int,
                            si,
                        ),
                    entry.skip(1) == t.flat_children(entry.take(idx as int)),
                decreases num - k,
            {
                let child = self.core_tree.get_unsafe(&current).children()[k];
                proof {
                    assert(t.occupied(current.index as int));
                    t.lemma_links_at(current.index as int);
                    t.lemma_n_fits();
                    assert(child == cch[k as int]);
                    assert(cch.contains(child));
                    assert(t.valid(child));
                    assert(t.node_at(child.index as int).parent == Some(t.mk_id(
                        current.index as int,
                    )));
                    assert(t.mk_id(current.index as int) == current);
                    // the child is in the subtree of the start
                    assert(seq_v@[idx as int] == current);
                    assert(t.is_desc(current.index as int, si));
                    let g = choose|g: nat| t.on_chain(current.index as int, si, g);
                    assert(t.on_chain(current.index as int, current.index as int, 0));
                    assert(t.on_chain(child.index as int, child.index as int, 0));
                    assert(t.on_chain(child.index as int, current.index as int, 1));
                    t.lemma_chain_trans(child.index as int, current.index as int, si, 1, g);
                    // the child is not in the list yet: its unique parent is
                    // the current handle, which was not processed before
                    assert(!seq_v@.contains(child)) by {
                        if seq_v@.contains(child) {
                            let m = choose|m: int| 0 <= m < seq_v@.len() && seq_v@[m] == child;
                            if m == 0 {
                                // the start would be a child of one of its
                                // own descendants
                                assert(child == start);
                                let f0 = choose|f0: nat| t.all_rooted(f0);
                                assert(t.occupied(si));
                                assert(t.rooted(si, f0));
                                t.lemma_chain_antisym(
                                    current.index as int,
                                    si,
                                    g,
                                    1,
                                    f0,
                                );
                                assert(current.index as int == si);
                                t.lemma_no_self_parent(si, f0);
                                assert(false);
                            } else if m < entry.len() {
                                assert(entry[m] == child);
                                assert(entry.skip(1).contains(child)) by {
                                    assert(entry.skip(1)[m - 1] == child);
                                }
                                t.lemma_flat_mem(entry.take(idx as int), child);
                                let j = choose|j: int|
                                    0 <= j < entry.take(idx as int).len() && t.children_of(
                                        (#[trigger] entry.take(idx as int)[j]).index as int,
                                    ).contains(child);
                                let pj = entry.take(idx as int)[j];
                                assert(entry[j] == pj);
                                assert(seq_v@[j] == pj);
                                assert(t.valid(pj));
                                t.lemma_links_at(pj.index as int);
                                assert(t.node_at(child.index as int).parent == Some(t.mk_id(
                                    pj.index as int,
                                )));
                                assert(t.mk_id(pj.index as int) == pj);
                                assert(pj == current);
                                assert(entry.no_duplicates());
                                assert(j < idx);
                                assert(false);
                            } else {
                                assert(cch.take(k as int)[m - entry.len()] == child);
                                assert(cch.take(k as int).contains(child));
                                let j2 = choose|j2: int|
                                    0 <= j2 < k && cch.take(k as int)[j2] == child;
                                assert(cch[j2] == child && cch[k as int] == child);
                                assert(cch.no_duplicates());
                                assert(false);
                            }
                        }
                    }
                }
                seq_v.push(child);
                proof {
                    assert(seq_v@ =~= entry + cch.take(k + 1 as int)) by {
                        assert(cch.take(k + 1 as int) =~= cch.take(k as int).push(child));
                    }
                    assert(seq_v@.no_duplicates()) by {
                        assert(seq_v@.drop_last() =~= entry + cch.take(k as int));
                        assert(seq_v@.last() == child);
                        assert forall|a: int, b: int|
                            0 <= a < b < seq_v@.len() implies seq_v@[a] != seq_v@[b] by {
                            if b == seq_v@.len() - 1 {
                                if seq_v@[a] == child {
                                    assert((entry + cch.take(k as int)).contains(child)) by {
                                        assert((entry + cch.take(k as int))[a] == seq_v@[a]);
                                    }
                                }
                            }
                        }
                    }
                }
                k += 1;
            }
            proof {
                assert(cch.take(num as int) =~= cch);
                assert(seq_v@ == entry + cch);
                // the processed prefix grows by one
                assert(seq_v@.take(idx + 1 as int) =~= entry.take(idx as int).push(current)) by {
                    assert(entry.take(idx + 1 as int) =~= entry.take(idx as int).push(current));
                }
                t.lemma_flat_push(entry.take(idx as int), current);
                assert(seq_v@.skip(1) =~= entry.skip(1) + cch);
                assert(seq_v@.skip(1) == t.flat_children(seq_v@.take(idx + 1 as int)));
                // the list stays within the storage bound
                t.lemma_distinct_valid_bound(seq_v@);
            }
            idx += 1;
        }
        proof {
            assert(seq_v@.take(seq_v@.len() as int) =~= seq_v@);
        }
        seq_v
    }
}

impl<T> Tree<T> {
    /// Turns `fuel` that roots the whole tree into `fuel + 1` bounding one
    /// subtree.
    pub(crate) proof fn lemma_budget(self, i: int, fuel: nat)
        requires
            self.all_rooted(fuel),
            self.occupied(i),
        ensures
            self.sub_bounded(i, fuel + 1),
    {
        self.lemma_sub_bounded_all(i, fuel);
        assert forall|j: int, g: nat| #[trigger] self.on_chain(j, i, g) implies self.on_chain(
            j,
            i,
            fuel + 1,
        ) by {
            self.lemma_on_chain_mono(j, i, fuel, fuel + 1);
        }
    }

    /// Returns a walk over the ancestors of the `Node` the handle points to,
    /// nearest first, or the error saying why the handle is invalid.  The
    /// walk does not include the `Node` itself and is empty for the root.
    pub fn ancestors(&self, node_id: &NodeId) -> (r: Result<Ancestors, NodeIdError>)
        requires
            self.wf(),
            self.in_bounds(*node_id),
        ensures
            node_id.tree_id != self.core_tree.id ==> r == Err::<Ancestors, _>(
                NodeIdError::InvalidNodeIdForTree,
            ),
            node_id.tree_id == self.core_tree.id && !self.valid(*node_id) ==> r == Err::<
                Ancestors,
                _,
            >(NodeIdError::NodeIdNoLongerValid),
            self.valid(*node_id) ==> (r matches Ok(it) && it.pos == 0 && (forall|f: nat|
                self.rooted(node_id.index as int, f) ==> it.ids@ == #[trigger] self.ancestors_upto(
                    node_id.index as int,
                    f,
                ))),
    {
        match self.core_tree.validate_node_id(node_id) {
            Err(e) => Err(e),
            Ok(()) => {
                let ids = self.collect_ancestors(node_id);
                Ok(IdWalk { ids, pos: 0 })
            },
        }
    }

    /// Returns a walk over the ancestor handles of the `Node` the handle
    /// points to, nearest first, or the error saying why the handle is
    /// invalid.
    pub fn ancestor_ids(&self, node_id: &NodeId) -> (r: Result<AncestorIds, NodeIdError>)
        requires
            self.wf(),
            self.in_bounds(*node_id),
        ensures
            node_id.tree_id != self.core_tree.id ==> r == Err::<AncestorIds, _>(
                NodeIdError::InvalidNodeIdForTree,
            ),
            node_id.tree_id == self.core_tree.id && !self.valid(*node_id) ==> r == Err::<
                AncestorIds,
                _,
            >(NodeIdError::NodeIdNoLongerValid),
            self.valid(*node_id) ==> (r matches Ok(it) && it.pos == 0 && (forall|f: nat|
                self.rooted(node_id.index as int, f) ==> it.ids@ == #[trigger] self.ancestors_upto(
                    node_id.index as int,
                    f,
                ))),
    {
        match self.core_tree.validate_node_id(node_id) {
            Err(e) => Err(e),
            Ok(()) => {
                let ids = self.collect_ancestors(node_id);
                Ok(IdWalk { ids, pos: 0 })
            },
        }
    }

    /// Returns a walk over the children of the `Node` the handle points to,
    /// in stored order, or the error saying why the handle is invalid.
    pub fn children(&self, node_id: &NodeId) -> (r: Result<Children, NodeIdError>)
        requires
            self.wf(),
            self.in_bounds(*node_id),
        ensures
            node_id.tree_id != self.core_tree.id ==> r == Err::<Children, _>(
                NodeIdError::InvalidNodeIdForTree,
            ),
            node_id.tree_id == self.core_tree.id && !self.valid(*node_id) ==> r == Err::<
                Children,
                _,
            >(NodeIdError::NodeIdNoLongerValid),
            self.valid(*node_id) ==> (r matches Ok(it) && it.pos == 0 && it.ids@
                == self.children_of(node_id.index as int)),
    {
        match self.core_tree.validate_node_id(node_id) {
            Err(e) => Err(e),
            Ok(()) => {
                let ids = Self::copy_ids(self.core_tree.get_unsafe(node_id).children());
                Ok(IdWalk { ids, pos: 0 })
            },
        }
    }

    /// Returns a walk over the child handles of the `Node` the handle points
    /// to, in stored order, or the error saying why the handle is invalid.
    pub fn children_ids(&self, node_id: &NodeId) -> (r: Result<ChildrenIds, NodeIdError>)
        requires
            self.wf(),
            self.in_bounds(*node_id),
        ensures
            node_id.tree_id != self.core_tree.id ==> r == Err::<ChildrenIds, _>(
                NodeIdError::InvalidNodeIdForTree,
            ),
            node_id.tree_id == self.core_tree.id && !self.valid(*node_id) ==> r == Err::<
                ChildrenIds,
                _,
            >(NodeIdError::NodeIdNoLongerValid),
            self.valid(*node_id) ==> (r matches Ok(it) && it.pos == 0 && it.ids@
                == self.children_of(node_id.index as int)),
    {
        match self.core_tree.validate_node_id(node_id) {
            Err(e) => Err(e),
            Ok(()) => {
                let ids = Self::copy_ids(self.core_tree.get_unsafe(node_id).children());
                Ok(IdWalk { ids, pos: 0 })
            },
        }
    }

    /// Returns a walk over the whole subtree of the `Node` the handle points
    /// to, in pre-order, or the error saying why the handle is invalid.
    pub fn traverse_pre_order(&self, node_id: &NodeId) -> (r: Result<
        PreOrderTraversal,
        NodeIdError,
    >)
        requires
            self.wf(),
            self.in_bounds(*node_id),
        ensures
            node_id.tree_id != self.core_tree.id ==> r == Err::<PreOrderTraversal, _>(
                NodeIdError::InvalidNodeIdForTree,
            ),
            node_id.tree_id == self.core_tree.id && !self.valid(*node_id) ==> r == Err::<
                PreOrderTraversal,
                _,
            >(NodeIdError::NodeIdNoLongerValid),
            self.valid(*node_id) ==> (r matches Ok(it) && it.pos == 0 && (forall|f: nat|
                #[trigger] self.all_rooted(f) ==> it.ids@ == self.pre_of(
                    node_id.index as int,
                    f + 1,
                ))),
    {
        match self.core_tree.validate_node_id(node_id) {
            Err(e) => Err(e),
            Ok(()) => {
                let ghost fuel = choose|f: nat| self.all_rooted(f);
                proof {
                    assert(self.occupied(node_id.index as int));
                    self.lemma_budget(node_id.index as int, fuel);
                }
                let mut ids: Vec<NodeId> = Vec::new();
                self.collect_pre(*node_id, &mut ids, Ghost(fuel + 1));
                proof {
                    assert forall|f: nat| #[trigger] self.all_rooted(f) implies ids@
                        == self.pre_of(node_id.index as int, f + 1) by {
                        self.lemma_budget(node_id.index as int, f);
                        self.lemma_order_fuel(node_id.index as int, fuel + 1, f + 1);
                    }
                }
                Ok(IdWalk { ids, pos: 0 })
            },
        }
    }

    /// Returns a walk over the whole subtree of the `Node` the handle points
    /// to, in post-order, or the error saying why the handle is invalid.
    pub fn traverse_post_order(&self, node_id: &NodeId) -> (r: Result<
        PostOrderTraversal,
        NodeIdError,
    >)
        requires
            self.wf(),
            self.in_bounds(*node_id),
        ensures
            node_id.tree_id != self.core_tree.id ==> r == Err::<PostOrderTraversal, _>(
                NodeIdError::InvalidNodeIdForTree,
            ),
            node_id.tree_id == self.core_tree.id && !self.valid(*node_id) ==> r == Err::<
                PostOrderTraversal,
                _,
            >(NodeIdError::NodeIdNoLongerValid),
            self.valid(*node_id) ==> (r matches Ok(it) && it.pos == 0 && (forall|f: nat|
                #[trigger] self.all_rooted(f) ==> it.ids@ == self.post_of(
                    node_id.index as int,
                    f + 1,
                ))),
    {
        match self.core_tree.validate_node_id(node_id) {
            Err(e) => Err(e),
            Ok(()) => {
                let ids = self.collect_post_order(node_id);
                Ok(IdWalk { ids, pos: 0 })
            },
        }
    }

    /// Collects the post-order of a validated handle's subtree.
    pub(crate) fn collect_post_order(&self, node_id: &NodeId) -> (ids: Vec<NodeId>)
        requires
            self.wf(),
            self.valid(*node_id),
        ensures
            forall|f: nat|
                #[trigger] self.all_rooted(f) ==> ids@ == self.post_of(
                    node_id.index as int,
                    f + 1,
                ),
    {
        let ghost fuel = choose|f: nat| self.all_rooted(f);
        proof {
            assert(self.occupied(node_id.index as int));
            self.lemma_budget(node_id.index as int, fuel);
        }
        let mut ids: Vec<NodeId> = Vec::new();
        self.collect_post(*node_id, &mut ids, Ghost(fuel + 1));
        proof {
            assert forall|f: nat| #[trigger] self.all_rooted(f) implies ids@ == self.post_of(
                node_id.index as int,
                f + 1,
            ) by {
                self.lemma_budget(node_id.index as int, f);
                self.lemma_order_fuel(node_id.index as int, fuel + 1, f + 1);
            }
        }
        ids
    }

    /// Returns a walk over the whole subtree of the `Node` the handle points
    /// to, tier by tier, or the error saying why the handle is invalid.
    pub fn traverse_level_order(&self, node_id: &NodeId) -> (r: Result<
        LevelOrderTraversal,
        NodeIdError,
    >)
        requires
            self.wf(),
            self.in_bounds(*node_id),
        ensures
            node_id.tree_id != self.core_tree.id ==> r == Err::<LevelOrderTraversal, _>(
                NodeIdError::InvalidNodeIdForTree,
            ),
            node_id.tree_id == self.core_tree.id && !self.valid(*node_id) ==> r == Err::<
                LevelOrderTraversal,
                _,
            >(NodeIdError::NodeIdNoLongerValid),
            self.valid(*node_id) ==> (r matches Ok(it) && it.pos == 0 && it.ids@.len() >= 1
                && it.ids@[0] == *node_id && it.ids@.no_duplicates() && it.ids@.skip(1)
                == self.flat_children(it.ids@) && (forall|k: int|
                0 <= k < it.ids@.len() ==> self.valid(#[trigger] it.ids@[k]) && self.is_desc(
                    it.ids@[k].index as int,
                    node_id.index as int,
                ))),
    {
        match self.core_tree.validate_node_id(node_id) {
            Err(e) => Err(e),
            Ok(()) => {
                let ids = self.collect_level(*node_id);
                Ok(IdWalk { ids, pos: 0 })
            },
        }
    }
}

} // verus!
