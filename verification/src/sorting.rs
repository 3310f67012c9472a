//! Sorting the children of a node.
//!
//! The children of one node can be rearranged by comparing the payloads of
//! the referenced nodes.  `sort_children_by_data` uses the payload type's
//! own total order and produces the stable insertion-sorted arrangement;
//! the comparator and key-extractor variants accept caller-supplied
//! functions and promise that the result is a rearrangement of the same
//! children.

use vstd::prelude::*;

use crate::error::NodeIdError;
use crate::node::Node;
use crate::tree::Tree;
use crate::NodeId;

verus! {

/// A total order on payload data, with a proved-total executable
/// comparison.  The library implements it for the primitive integer types;
/// callers implement it for their own payload types to use
/// `sort_children_by_data`.
pub trait OrderedData: Sized {
    /// The order itself.
    spec fn le_spec(&self, other: &Self) -> bool;

    /// Any two values are comparable.
    proof fn le_total(a: &Self, b: &Self)
        ensures
            a.le_spec(b) || b.le_spec(a),
    ;

    /// The order is transitive.
    proof fn le_trans(a: &Self, b: &Self, c: &Self)
        requires
            a.le_spec(b),
            b.le_spec(c),
        ensures
            a.le_spec(c),
    ;

    /// Compares two values.
    fn le(&self, other: &Self) -> (r: bool)
        ensures
            r == self.le_spec(other),
    ;
}

impl OrderedData for i32 {
    open spec fn le_spec(&self, other: &Self) -> bool {
        *self <= *other
    }

    proof fn le_total(a: &Self, b: &Self) {
    }

    proof fn le_trans(a: &Self, b: &Self, c: &Self) {
    }

    fn le(&self, other: &Self) -> bool {
        *self <= *other
    }
}

impl OrderedData for i64 {
    open spec fn le_spec(&self, other: &Self) -> bool {
        *self <= *other
    }

    proof fn le_total(a: &Self, b: &Self) {
    }

    proof fn le_trans(a: &Self, b: &Self, c: &Self) {
    }

    fn le(&self, other: &Self) -> bool {
        *self <= *other
    }
}

impl OrderedData for u32 {
    open spec fn le_spec(&self, other: &Self) -> bool {
        *self <= *other
    }

    proof fn le_total(a: &Self, b: &Self) {
    }

    proof fn le_trans(a: &Self, b: &Self, c: &Self) {
    }

    fn le(&self, other: &Self) -> bool {
        *self <= *other
    }
}

impl OrderedData for u64 {
    open spec fn le_spec(&self, other: &Self) -> bool {
        *self <= *other
    }

    proof fn le_total(a: &Self, b: &Self) {
    }

    proof fn le_trans(a: &Self, b: &Self, c: &Self) {
    }

    fn le(&self, other: &Self) -> bool {
        *self <= *other
    }
}

impl OrderedData for usize {
    open spec fn le_spec(&self, other: &Self) -> bool {
        *self <= *other
    }

    proof fn le_total(a: &Self, b: &Self) {
    }

    proof fn le_trans(a: &Self, b: &Self, c: &Self) {
    }

    fn le(&self, other: &Self) -> bool {
        *self <= *other
    }
}

impl<T: OrderedData> Tree<T> {
    /// The payload order lifted to handles.
    pub open spec fn key_le(self, a: NodeId, b: NodeId) -> bool {
        self.node_at(a.index as int).data.le_spec(&self.node_at(b.index as int).data)
    }

    /// Inserts a handle into an arrangement, after every handle whose
    /// payload is not greater.
    pub open spec fn insert_sorted(self, x: NodeId, s: Seq<NodeId>) -> Seq<NodeId>
        decreases s.len(),
    {
        if s.len() == 0 {
            seq![x]
        } else if self.key_le(s[0], x) {
            seq![s[0]] + self.insert_sorted(x, s.drop_first())
        } else {
            seq![x] + s
        }
    }

    /// The stable insertion sort of a child list by payload.
    pub open spec fn sort_ids(self, s: Seq<NodeId>) -> Seq<NodeId>
        decreases s.len(),
    {
        if s.len() == 0 {
            Seq::empty()
        } else {
            self.insert_sorted(s.last(), self.sort_ids(s.drop_last()))
        }
    }

    /// Inserting keeps the handles, as a multiset.
    pub proof fn lemma_insert_sorted_multiset(self, x: NodeId, s: Seq<NodeId>)
        ensures
            self.insert_sorted(x, s).to_multiset() == s.to_multiset().insert(x),
        decreases s.len(),
    {
        broadcast use vstd::seq_lib::group_to_multiset_ensures;

        if s.len() == 0 {
            assert(seq![x] =~= Seq::<NodeId>::empty().push(x));
            assert(Seq::<NodeId>::empty().push(x).to_multiset() =~= Seq::<
                NodeId,
            >::empty().to_multiset().insert(x));
        } else if self.key_le(s[0], x) {
            self.lemma_insert_sorted_multiset(x, s.drop_first());
            assert(seq![s[0]] + self.insert_sorted(x, s.drop_first()) =~= self.insert_sorted(
                x,
                s.drop_first(),
            ).insert(0, s[0]));
            assert(s =~= s.drop_first().insert(0, s[0]));
            assert(self.insert_sorted(x, s).to_multiset() =~= s.to_multiset().insert(x));
        } else {
            assert(seq![x] + s =~= s.insert(0, x));
            assert(self.insert_sorted(x, s).to_multiset() =~= s.to_multiset().insert(x));
        }
    }

    /// Sorting keeps the handles, as a multiset.
    pub proof fn lemma_sort_ids_multiset(self, s: Seq<NodeId>)
        ensures
            self.sort_ids(s).to_multiset() == s.to_multiset(),
        decreases s.len(),
    {
        broadcast use vstd::seq_lib::group_to_multiset_ensures;

        if s.len() == 0 {
        } else {
            self.lemma_sort_ids_multiset(s.drop_last());
            self.lemma_insert_sorted_multiset(s.last(), self.sort_ids(s.drop_last()));
            assert(s =~= s.drop_last().push(s.last()));
            assert(s.drop_last().push(s.last()).to_multiset() =~= s.drop_last().to_multiset().insert(
                s.last(),
            ));
        }
    }

    /// What `insert_sorted` produces when the split point is known.
    pub proof fn lemma_insert_sorted_at(self, x: NodeId, s: Seq<NodeId>, pos: int)
        requires
            0 <= pos <= s.len(),
            forall|m: int| 0 <= m < pos ==> self.key_le(#[trigger] s[m], x),
            pos < s.len() ==> !self.key_le(s[pos], x),
        ensures
            self.insert_sorted(x, s) == s.take(pos) + seq![x] + s.skip(pos),
        decreases s.len(),
    {
        if s.len() == 0 {
            assert(s.take(0) =~= Seq::<NodeId>::empty());
            assert(s.skip(0) =~= Seq::<NodeId>::empty());
            assert(s.take(0) + seq![x] + s.skip(0) =~= seq![x]);
        } else if pos == 0 {
            assert(!self.key_le(s[0], x));
            assert(s.take(0) =~= Seq::<NodeId>::empty());
            assert(s.skip(0) =~= s);
            assert(s.take(0) + seq![x] + s.skip(0) =~= seq![x] + s);
        } else {
            assert(self.key_le(s[0], x));
            assert forall|m: int| 0 <= m < pos - 1 implies self.key_le(
                #[trigger] s.drop_first()[m],
                x,
            ) by {
                assert(s.drop_first()[m] == s[m + 1]);
            }
            assert(pos - 1 < s.drop_first().len() ==> !self.key_le(s.drop_first()[pos - 1], x));
            self.lemma_insert_sorted_at(x, s.drop_first(), pos - 1);
            assert(s.drop_first().take(pos - 1) =~= s.take(pos).drop_first());
            assert(seq![s[0]] + (s.take(pos).drop_first() + seq![x] + s.drop_first().skip(pos - 1))
                =~= s.take(pos) + seq![x] + s.skip(pos));
        }
    }

    /// Finds where a handle belongs in an arrangement ordered by payload:
    /// right after every handle whose payload is not greater.
    fn find_sorted_position(&self, sorted: &Vec<NodeId>, x: &NodeId) -> (pos: usize)
        requires
            self.wf(),
            self.valid(*x),
            forall|m: int| 0 <= m < sorted@.len() ==> self.valid(#[trigger] sorted@[m]),
        ensures
            0 <= pos <= sorted@.len(),
            forall|m: int| 0 <= m < pos ==> self.key_le(#[trigger] sorted@[m], *x),
            pos < sorted@.len() ==> !self.key_le(sorted@[pos as int], *x),
    {
        let mut pos: usize = 0;
        while pos < sorted.len()
            invariant
                self.wf(),
                self.valid(*x),
                forall|m: int| 0 <= m < sorted@.len() ==> self.valid(#[trigger] sorted@[m]),
                0 <= pos <= sorted@.len(),
                forall|m: int| 0 <= m < pos ==> self.key_le(#[trigger] sorted@[m], *x),
            decreases sorted@.len() - pos,
        {
            let e = sorted[pos];
            proof {
                assert(self.valid(e));
            }
            if !(self.core_tree.get_unsafe(&e).data().le(self.core_tree.get_unsafe(x).data())) {
                return pos;
            }
            pos = pos + 1;
        }
        pos
    }

    /// Sorts the children of one node in place, comparing the payloads of
    /// the referenced nodes with the payload type's own order.  The sort is
    /// stable: children with equal payloads keep their relative order.  On
    /// an invalid handle nothing is changed.
    pub fn sort_children_by_data(&mut self, node_id: &NodeId) -> (r: Result<(), NodeIdError>)
        requires
            old(self).wf(),
            old(self).in_bounds(*node_id),
        ensures
            final(self).wf(),
            !old(self).valid(*node_id) ==> *final(self) == *old(self),
            node_id.tree_id != old(self).core_tree.id ==> r == Err::<(), _>(
                NodeIdError::InvalidNodeIdForTree,
            ),
            node_id.tree_id == old(self).core_tree.id && !old(self).valid(*node_id) ==> r
                == Err::<(), _>(NodeIdError::NodeIdNoLongerValid),
            old(self).valid(*node_id) ==> (r is Ok && {
                let ni = node_id.index as int;
                &&& final(self).children_of(ni) == old(self).sort_ids(old(self).children_of(ni))
                &&& final(self).node_at(ni).parent == old(self).node_at(ni).parent
                &&& final(self).node_at(ni).data == old(self).node_at(ni).data
                &&& final(self).core_tree.root == old(self).core_tree.root
                &&& final(self).core_tree.id == old(self).core_tree.id
                &&& final(self).n() == old(self).n()
                &&& (forall|j: int|
                    #[trigger] final(self).occupied(j) <==> old(self).occupied(j))
                &&& (forall|j: int|
                    old(self).occupied(j) && j != ni ==> #[trigger] final(self).node_at(j) == old(
                        self,
                    ).node_at(j))
            }),
    {
        let ghost t0 = *old(self);
        let (is_valid, error) = self.core_tree.is_valid_node_id(node_id);
        if !is_valid {
            return Err(match error {
                Some(e) => e,
                None => vstd::pervasive::unreached(),
            });
        }
        let ghost ni = node_id.index as int;
        let ghost orig = t0.children_of(ni);
        proof {
            assert(t0.occupied(ni));
            t0.lemma_links_at(ni);
            t0.lemma_n_fits();
        }
        let num = self.core_tree.get_unsafe(node_id).children().len();
        let mut sorted: Vec<NodeId> = Vec::new();
        let mut k: usize = 0;
        while k < num
            invariant
                t0 == *self,
                t0.wf(),
                t0.valid(*node_id),
                ni == node_id.index as int,
                orig == t0.children_of(ni),
                num == orig.len(),
                0 <= k <= num,
                sorted@ == t0.sort_ids(orig.take(k as int)),
                forall|m: int| 0 <= m < sorted@.len() ==> t0.valid(#[trigger] sorted@[m]),
            decreases num - k,
        {
            let x = self.core_tree.get_unsafe(node_id).children()[k];
            proof {
                assert(t0.occupied(ni));
                t0.lemma_links_at(ni);
                assert(x == orig[k as int]);
                assert(orig.contains(x));
                assert(t0.valid(x));
            }
            // find the first position whose payload is greater
            let pos = self.find_sorted_position(&sorted, &x);
            let ghost before = sorted@;
            sorted.insert(pos, x);
            proof {
                t0.lemma_insert_sorted_at(x, before, pos as int);
                assert(sorted@ =~= before.take(pos as int) + seq![x] + before.skip(pos as int));
                assert(sorted@ == t0.insert_sorted(x, before));
                assert(orig.take(k + 1 as int) =~= orig.take(k as int).push(x));
                assert(orig.take(k + 1 as int).drop_last() =~= orig.take(k as int));
                assert(orig.take(k + 1 as int).last() == x);
                assert(sorted@ == t0.sort_ids(orig.take(k + 1 as int)));
            }
            k += 1;
        }
        proof {
            assert(orig.take(num as int) =~= orig);
        }
        match self.core_tree.get_mut(node_id) {
            Ok(n) => n.set_children(sorted),
            Err(_) => proof {
                assert(false);
            },
        }
        proof {
            let t1 = *self;
            broadcast use vstd::seq_lib::group_to_multiset_ensures;

            t0.lemma_sort_ids_multiset(orig);
            assert(t1.children_of(ni).to_multiset() == orig.to_multiset());
            Self::lemma_children_rearranged_wf(t0, t1, *node_id);
        }
        Ok(())
    }

    /// The children are sorted afterwards: each child's payload is not
    /// greater than the next one's.
    pub proof fn lemma_sorted_after(self, s: Seq<NodeId>, a: int, b: int)
        requires
            0 <= a < b < self.sort_ids(s).len(),
        ensures
            self.key_le(self.sort_ids(s)[a], self.sort_ids(s)[b]),
        decreases s.len(),
    {
        self.lemma_sort_ids_sorted(s);
        self.lemma_sorted_chain(self.sort_ids(s), a, b);
    }

    /// In a pairwise-ordered arrangement, any earlier element is ordered
    /// before any later one.
    pub proof fn lemma_sorted_chain(self, s: Seq<NodeId>, a: int, b: int)
        requires
            0 <= a < b < s.len(),
            forall|m: int| 0 <= m < s.len() - 1 ==> self.key_le(#[trigger] s[m], s[m + 1]),
        ensures
            self.key_le(s[a], s[b]),
        decreases b - a,
    {
        if b == a + 1 {
            assert(self.key_le(s[a], s[a + 1]));
        } else {
            self.lemma_sorted_chain(s, a, b - 1);
            assert(self.key_le(s[b - 1], s[b]));
            T::le_trans(
                &self.node_at(s[a].index as int).data,
                &self.node_at(s[b - 1].index as int).data,
                &self.node_at(s[b].index as int).data,
            );
        }
    }

    /// The result of the insertion sort is pairwise ordered.
    pub proof fn lemma_sort_ids_sorted(self, s: Seq<NodeId>)
        ensures
            forall|m: int|
                0 <= m < self.sort_ids(s).len() - 1 ==> self.key_le(
                    #[trigger] self.sort_ids(s)[m],
                    self.sort_ids(s)[m + 1],
                ),
        decreases s.len(),
    {
        if s.len() == 0 {
        } else {
            self.lemma_sort_ids_sorted(s.drop_last());
            self.lemma_insert_keeps_sorted(s.last(), self.sort_ids(s.drop_last()));
        }
    }

    /// Inserting into a pairwise-ordered arrangement keeps it ordered.
    pub proof fn lemma_insert_keeps_sorted(self, x: NodeId, s: Seq<NodeId>)
        requires
            forall|m: int| 0 <= m < s.len() - 1 ==> self.key_le(#[trigger] s[m], s[m + 1]),
        ensures
            forall|m: int|
                0 <= m < self.insert_sorted(x, s).len() - 1 ==> self.key_le(
                    #[trigger] self.insert_sorted(x, s)[m],
                    self.insert_sorted(x, s)[m + 1],
                ),
        decreases s.len(),
    {
        let out = self.insert_sorted(x, s);
        if s.len() == 0 {
        } else if self.key_le(s[0], x) {
            assert forall|m: int| 0 <= m < s.drop_first().len() - 1 implies self.key_le(
                #[trigger] s.drop_first()[m],
                s.drop_first()[m + 1],
            ) by {
                assert(s.drop_first()[m] == s[m + 1]);
                assert(s.drop_first()[m + 1] == s[m + 2]);
            }
            self.lemma_insert_keeps_sorted(x, s.drop_first());
            let inner = self.insert_sorted(x, s.drop_first());
            assert forall|m: int| 0 <= m < out.len() - 1 implies self.key_le(
                #[trigger] out[m],
                out[m + 1],
            ) by {
                if m == 0 {
                    // the head is ordered before the head of the inner
                    // arrangement, which is either x or the old second
                    if s.drop_first().len() == 0 {
                        assert(inner == seq![x]);
                        assert(out[1] == x);
                        assert(self.key_le(s[0], x));
                    } else if self.key_le(s.drop_first()[0], x) {
                        assert(inner[0] == s.drop_first()[0]);
                        assert(out[1] == s[1]);
                        assert(self.key_le(s[0], s[1]));
                    } else {
                        assert(inner[0] == x);
                        assert(out[1] == x);
                        assert(self.key_le(s[0], x));
                    }
                } else {
                    assert(out[m] == inner[m - 1]);
                    assert(out[m + 1] == inner[m]);
                    assert(self.key_le(inner[m - 1], inner[m]));
                }
            }
        } else {
            T::le_total(
                &self.node_at(s[0].index as int).data,
                &self.node_at(x.index as int).data,
            );
            assert(self.key_le(x, s[0]));
            assert forall|m: int| 0 <= m < out.len() - 1 implies self.key_le(
                #[trigger] out[m],
                out[m + 1],
            ) by {
                if m == 0 {
                    assert(out[0] == x && out[1] == s[0]);
                } else {
                    assert(out[m] == s[m - 1]);
                    assert(out[m + 1] == s[m]);
                }
            }
        }
    }
}

impl<T> Tree<T> {
    /// Every adjacent pair of the listed children can come out of `compare`,
    /// applied to the referenced nodes, as something other than `Greater`:
    /// the arrangement is sorted as far as the comparator's own contract
    /// pins it down.
    pub open spec fn comparator_ordered<F: Fn(&Node<T>, &Node<T>) -> core::cmp::Ordering>(
        self,
        compare: F,
        ids: Seq<NodeId>,
    ) -> bool {
        forall|m: int|
            0 <= m < ids.len() - 1 ==> exists|o: core::cmp::Ordering|
                #[trigger] call_ensures(
                    compare,
                    (
                        &self.node_at((#[trigger] ids[m]).index as int),
                        &self.node_at(ids[m + 1].index as int),
                    ),
                    o,
                ) && !(o matches core::cmp::Ordering::Greater)
    }

    /// Every adjacent pair of the listed children has extractable keys in
    /// `le_spec` order.
    pub open spec fn key_ordered<K: OrderedData, F: Fn(&Node<T>) -> K>(
        self,
        f: F,
        ids: Seq<NodeId>,
    ) -> bool {
        forall|m: int|
            0 <= m < (#[trigger] ids[m], ids.len()).1 - 1 ==> exists|k1: K, k2: K|
                #![trigger call_ensures(f, (&self.node_at(ids[m].index as int),), k1), call_ensures(f, (&self.node_at(ids[m + 1].index as int),), k2)]
                call_ensures(f, (&self.node_at(ids[m].index as int),), k1) && call_ensures(
                    f,
                    (&self.node_at(ids[m + 1].index as int),),
                    k2,
                ) && k1.le_spec(&k2)
    }

    /// Sorts the children of one node in place, using `compare` on the
    /// referenced nodes.  The comparator must be consistent: it never calls
    /// both of a pair greater than the other.  The result holds exactly the
    /// same children, with every adjacent pair ordered by `compare`.  On an
    /// invalid handle nothing is changed.
    #[verifier::rlimit(60)]
    pub fn sort_children_by<F: Fn(&Node<T>, &Node<T>) -> core::cmp::Ordering>(
        &mut self,
        node_id: &NodeId,
        compare: F,
    ) -> (r: Result<(), NodeIdError>)
        requires
            old(self).wf(),
            old(self).in_bounds(*node_id),
            forall|a: &Node<T>, b: &Node<T>| #[trigger] call_requires(compare, (a, b)),
            forall|a: &Node<T>, b: &Node<T>, o1: core::cmp::Ordering, o2: core::cmp::Ordering|
                #![trigger call_ensures(compare, (a, b), o1), call_ensures(compare, (b, a), o2)]
                call_ensures(compare, (a, b), o1) && call_ensures(compare, (b, a), o2) ==> !((
                o1 matches core::cmp::Ordering::Greater) && (
                o2 matches core::cmp::Ordering::Greater)),
        ensures
            final(self).wf(),
            !old(self).valid(*node_id) ==> *final(self) == *old(self),
            node_id.tree_id != old(self).core_tree.id ==> r == Err::<(), _>(
                NodeIdError::InvalidNodeIdForTree,
            ),
            node_id.tree_id == old(self).core_tree.id && !old(self).valid(*node_id) ==> r
                == Err::<(), _>(NodeIdError::NodeIdNoLongerValid),
            old(self).valid(*node_id) ==> (r is Ok && {
                let ni = node_id.index as int;
                &&& final(self).children_of(ni).to_multiset() == old(self).children_of(
                    ni,
                ).to_multiset()
                &&& final(self).comparator_ordered(compare, final(self).children_of(ni))
                &&& final(self).node_at(ni).parent == old(self).node_at(ni).parent
                &&& final(self).node_at(ni).data == old(self).node_at(ni).data
                &&& final(self).core_tree.root == old(self).core_tree.root
                &&& (forall|j: int|
                    old(self).occupied(j) && j != ni ==> #[trigger] final(self).node_at(j) == old(
                        self,
                    ).node_at(j))
                &&& (forall|j: int|
                    #[trigger] final(self).occupied(j) <==> old(self).occupied(j))
            }),
    {
        let ghost t0 = *old(self);
        let (is_valid, error) = self.core_tree.is_valid_node_id(node_id);
        if !is_valid {
            return Err(match error {
                Some(e) => e,
                None => vstd::pervasive::unreached(),
            });
        }
        let ghost ni = node_id.index as int;
        let ghost orig = t0.children_of(ni);
        proof {
            assert(t0.occupied(ni));
            t0.lemma_links_at(ni);
        }
        let num = self.core_tree.get_unsafe(node_id).children().len();
        let mut sorted: Vec<NodeId> = Vec::new();
        proof {
            broadcast use vstd::seq_lib::group_to_multiset_ensures;

            assert(orig.take(0) =~= Seq::<NodeId>::empty());
            assert(sorted@.to_multiset() =~= orig.take(0).to_multiset());
        }
        let mut k: usize = 0;
        while k < num
            invariant
                t0 == *self,
                t0.wf(),
                t0.valid(*node_id),
                ni == node_id.index as int,
                orig == t0.children_of(ni),
                num == orig.len(),
                0 <= k <= num,
                sorted@.to_multiset() == orig.take(k as int).to_multiset(),
                forall|m: int| 0 <= m < sorted@.len() ==> t0.valid(#[trigger] sorted@[m]),
                t0.comparator_ordered(compare, sorted@),
                forall|a: &Node<T>, b: &Node<T>| #[trigger] call_requires(compare, (a, b)),
                forall|a: &Node<T>, b: &Node<T>, o1: core::cmp::Ordering, o2: core::cmp::Ordering|
                    #![trigger call_ensures(compare, (a, b), o1), call_ensures(compare, (b, a), o2)]
                    call_ensures(compare, (a, b), o1) && call_ensures(compare, (b, a), o2) ==> !((
                    o1 matches core::cmp::Ordering::Greater) && (
                    o2 matches core::cmp::Ordering::Greater)),
            decreases num - k,
        {
            broadcast use vstd::seq_lib::group_to_multiset_ensures;

            let x = self.core_tree.get_unsafe(node_id).children()[k];
            proof {
                assert(t0.occupied(ni));
                t0.lemma_links_at(ni);
                assert(x == orig[k as int]);
                assert(orig.contains(x));
                assert(t0.valid(x));
            }
            let mut pos: usize = 0;
            loop
                invariant_except_break
                    t0 == *self,
                    t0.wf(),
                    t0.valid(x),
                    0 <= pos <= sorted@.len(),
                    forall|m: int| 0 <= m < sorted@.len() ==> t0.valid(#[trigger] sorted@[m]),
                    forall|a: &Node<T>, b: &Node<T>| #[trigger] call_requires(compare, (a, b)),
                    forall|
                        a: &Node<T>,
                        b: &Node<T>,
                        o1: core::cmp::Ordering,
                        o2: core::cmp::Ordering,
                    |
                        #![trigger call_ensures(compare, (a, b), o1), call_ensures(compare, (b, a), o2)]
                        call_ensures(compare, (a, b), o1) && call_ensures(compare, (b, a), o2)
                            ==> !((o1 matches core::cmp::Ordering::Greater) && (
                        o2 matches core::cmp::Ordering::Greater)),
                    forall|m: int|
                        0 <= m < pos ==> exists|o: core::cmp::Ordering|
                            #[trigger] call_ensures(
                                compare,
                                (
                                    &t0.node_at((#[trigger] sorted@[m]).index as int),
                                    &t0.node_at(x.index as int),
                                ),
                                o,
                            ) && !(o matches core::cmp::Ordering::Greater),
                ensures
                    0 <= pos <= sorted@.len(),
                    forall|m: int|
                        0 <= m < pos ==> exists|o: core::cmp::Ordering|
                            #[trigger] call_ensures(
                                compare,
                                (
                                    &t0.node_at((#[trigger] sorted@[m]).index as int),
                                    &t0.node_at(x.index as int),
                                ),
                                o,
                            ) && !(o matches core::cmp::Ordering::Greater),
                    pos < sorted@.len() ==> exists|o: core::cmp::Ordering|
                        #[trigger] call_ensures(
                            compare,
                            (
                                &t0.node_at(x.index as int),
                                &t0.node_at(sorted@[pos as int].index as int),
                            ),
                            o,
                        ) && !(o matches core::cmp::Ordering::Greater),
                decreases sorted@.len() - pos,
            {
                if pos >= sorted.len() {
                    break ;
                }
                let e = sorted[pos];
                proof {
                    assert(t0.valid(e));
                }
                let ord = compare(
                    self.core_tree.get_unsafe(&e),
                    self.core_tree.get_unsafe(&x),
                );
                let is_greater = match ord {
                    core::cmp::Ordering::Greater => true,
                    _ => false,
                };
                if is_greater {
                    // one comparison in insertion order witnesses that the
                    // new neighbour pair is not out of order
                    let back = compare(
                        self.core_tree.get_unsafe(&x),
                        self.core_tree.get_unsafe(&e),
                    );
                    proof {
                        assert(!(back matches core::cmp::Ordering::Greater));
                    }
                    break ;
                }
                pos = pos + 1;
            }
            let ghost before = sorted@;
            sorted.insert(pos, x);
            proof {
                assert(sorted@.to_multiset() =~= before.to_multiset().insert(x));
                assert(orig.take(k + 1 as int) =~= orig.take(k as int).push(x));
                assert(orig.take(k as int).push(x).to_multiset() =~= orig.take(
                    k as int,
                ).to_multiset().insert(x));
                assert(sorted@ == before.insert(pos as int, x));
                assert forall|m: int|
                    0 <= m < sorted@.len() - 1 implies exists|o: core::cmp::Ordering|
                    #[trigger] call_ensures(
                        compare,
                        (
                            &t0.node_at((#[trigger] sorted@[m]).index as int),
                            &t0.node_at(sorted@[m + 1].index as int),
                        ),
                        o,
                    ) && !(o matches core::cmp::Ordering::Greater) by {
                    if m < pos - 1 {
                        assert(sorted@[m] == before[m] && sorted@[m + 1] == before[m + 1]);
                    } else if m == pos - 1 {
                        assert(sorted@[m] == before[m] && sorted@[m + 1] == x);
                    } else if m == pos {
                        assert(sorted@[m] == x && sorted@[m + 1] == before[m]);
                    } else {
                        assert(sorted@[m] == before[m - 1] && sorted@[m + 1] == before[m]);
                    }
                }
            }
            k += 1;
        }
        proof {
            assert(orig.take(num as int) =~= orig);
        }
        let ghost arranged = sorted@;
        match self.core_tree.get_mut(node_id) {
            Ok(n) => n.set_children(sorted),
            Err(_) => proof {
                assert(false);
            },
        }
        proof {
            Self::lemma_children_rearranged_wf(t0, *self, *node_id);
            let t1 = *self;
            // the arrangement refers to the same node values in the new tree
            assert forall|m: int|
                0 <= m < t1.children_of(ni).len() - 1 implies exists|o: core::cmp::Ordering|
                #[trigger] call_ensures(
                    compare,
                    (
                        &t1.node_at((#[trigger] t1.children_of(ni)[m]).index as int),
                        &t1.node_at(t1.children_of(ni)[m + 1].index as int),
                    ),
                    o,
                ) && !(o matches core::cmp::Ordering::Greater) by {
                broadcast use vstd::seq_lib::group_to_multiset_ensures;

                assert(orig.take(num as int) =~= orig);
                assert(arranged.to_multiset() == orig.to_multiset());
                assert(arranged.contains(arranged[m]));
                assert(arranged.contains(arranged[m + 1]));
                assert(arranged.to_multiset().count(arranged[m]) > 0);
                assert(arranged.to_multiset().count(arranged[m + 1]) > 0);
                assert(orig.to_multiset().count(arranged[m]) > 0);
                assert(orig.to_multiset().count(arranged[m + 1]) > 0);
                assert(orig.contains(arranged[m]));
                assert(orig.contains(arranged[m + 1]));
                Self::lemma_child_slot_same(t0, t1, ni, arranged[m]);
                Self::lemma_child_slot_same(t0, t1, ni, arranged[m + 1]);
            }
        }
        Ok(())
    }

    /// A child slot is untouched by rearranging its parent's child list.
    proof fn lemma_child_slot_same(t0: Self, t1: Self, ni: int, c: NodeId)
        requires
            t0.wf(),
            t0.occupied(ni),
            t0.valid(c),
            t0.children_of(ni).contains(c),
            forall|j: int| t0.occupied(j) && j != ni ==> #[trigger] t1.node_at(j) == t0.node_at(j),
        ensures
            t1.node_at(c.index as int) == t0.node_at(c.index as int),
    {
        let fuel = choose|f: nat| t0.all_rooted(f);
        t0.lemma_links_at(ni);
        t0.lemma_n_fits();
        assert(c.index as int != ni) by {
            if c.index as int == ni {
                assert(t0.node_at(ni).parent == Some(t0.mk_id(ni)));
                assert(t0.rooted(ni, fuel));
                t0.lemma_no_self_parent(ni, fuel);
                assert(false);
            }
        }
    }

    /// Sorts the children of one node in place, ordering them by a key
    /// extracted from each referenced node.  The result holds exactly the
    /// same children, with every adjacent pair's keys in order.  On an
    /// invalid handle nothing is changed.
    #[verifier::rlimit(60)]
    pub fn sort_children_by_key<K: OrderedData, F: Fn(&Node<T>) -> K>(
        &mut self,
        node_id: &NodeId,
        f: F,
    ) -> (r: Result<(), NodeIdError>)
        requires
            old(self).wf(),
            old(self).in_bounds(*node_id),
            forall|a: &Node<T>| #[trigger] call_requires(f, (a,)),
        ensures
            final(self).wf(),
            !old(self).valid(*node_id) ==> *final(self) == *old(self),
            node_id.tree_id != old(self).core_tree.id ==> r == Err::<(), _>(
                NodeIdError::InvalidNodeIdForTree,
            ),
            node_id.tree_id == old(self).core_tree.id && !old(self).valid(*node_id) ==> r
                == Err::<(), _>(NodeIdError::NodeIdNoLongerValid),
            old(self).valid(*node_id) ==> (r is Ok && {
                let ni = node_id.index as int;
                &&& final(self).children_of(ni).to_multiset() == old(self).children_of(
                    ni,
                ).to_multiset()
                &&& final(self).key_ordered(f, final(self).children_of(ni))
                &&& final(self).node_at(ni).parent == old(self).node_at(ni).parent
                &&& final(self).node_at(ni).data == old(self).node_at(ni).data
                &&& final(self).core_tree.root == old(self).core_tree.root
                &&& (forall|j: int|
                    old(self).occupied(j) && j != ni ==> #[trigger] final(self).node_at(j) == old(
                        self,
                    ).node_at(j))
                &&& (forall|j: int|
                    #[trigger] final(self).occupied(j) <==> old(self).occupied(j))
            }),
    {
        let ghost t0 = *old(self);
        let (is_valid, error) = self.core_tree.is_valid_node_id(node_id);
        if !is_valid {
            return Err(match error {
                Some(e) => e,
                None => vstd::pervasive::unreached(),
            });
        }
        let ghost ni = node_id.index as int;
        let ghost orig = t0.children_of(ni);
        proof {
            assert(t0.occupied(ni));
            t0.lemma_links_at(ni);
        }
        let num = self.core_tree.get_unsafe(node_id).children().len();
        let mut keys: Vec<K> = Vec::new();
        let mut sorted: Vec<NodeId> = Vec::new();
        proof {
            broadcast use vstd::seq_lib::group_to_multiset_ensures;

            assert(orig.take(0) =~= Seq::<NodeId>::empty());
            assert(sorted@.to_multiset() =~= orig.take(0).to_multiset());
        }
        let mut k: usize = 0;
        while k < num
            invariant
                t0 == *self,
                t0.wf(),
                t0.valid(*node_id),
                ni == node_id.index as int,
                orig == t0.children_of(ni),
                num == orig.len(),
                0 <= k <= num,
                keys@.len() == sorted@.len(),
                sorted@.to_multiset() == orig.take(k as int).to_multiset(),
                forall|m: int| 0 <= m < sorted@.len() ==> t0.valid(#[trigger] sorted@[m]),
                forall|m: int|
                    0 <= m < sorted@.len() ==> call_ensures(
                        f,
                        (&t0.node_at((#[trigger] sorted@[m]).index as int),),
                        keys@[m],
                    ),
                forall|m: int|
                    0 <= m < keys@.len() - 1 ==> (#[trigger] keys@[m]).le_spec(&keys@[m + 1]),
                forall|a: &Node<T>| #[trigger] call_requires(f, (a,)),
            decreases num - k,
        {
            broadcast use vstd::seq_lib::group_to_multiset_ensures;

            let x = self.core_tree.get_unsafe(node_id).children()[k];
            proof {
                assert(t0.occupied(ni));
                t0.lemma_links_at(ni);
                assert(x == orig[k as int]);
                assert(orig.contains(x));
                assert(t0.valid(x));
            }
            let key = f(self.core_tree.get_unsafe(&x));
            let pos = Self::find_key_position(&keys, &key);
            let ghost before = sorted@;
            let ghost before_keys = keys@;
            keys.insert(pos, key);
            sorted.insert(pos, x);
            proof {
                assert(sorted@.to_multiset() =~= before.to_multiset().insert(x));
                assert(orig.take(k + 1 as int) =~= orig.take(k as int).push(x));
                assert(orig.take(k as int).push(x).to_multiset() =~= orig.take(
                    k as int,
                ).to_multiset().insert(x));
                assert(sorted@ == before.insert(pos as int, x));
                assert(keys@ == before_keys.insert(pos as int, key));
                assert forall|m: int|
                    0 <= m < keys@.len() - 1 implies (#[trigger] keys@[m]).le_spec(
                    &keys@[m + 1],
                ) by {
                    if m < pos - 1 {
                        assert(keys@[m] == before_keys[m] && keys@[m + 1] == before_keys[m + 1]);
                    } else if m == pos - 1 {
                        assert(keys@[m] == before_keys[m] && keys@[m + 1] == key);
                    } else if m == pos {
                        assert(keys@[m] == key && keys@[m + 1] == before_keys[m]);
                        K::le_total(&key, &before_keys[m]);
                    } else {
                        assert(keys@[m] == before_keys[m - 1] && keys@[m + 1] == before_keys[m]);
                    }
                }
            }
            k += 1;
        }
        proof {
            assert(orig.take(num as int) =~= orig);
        }
        let ghost arranged = sorted@;
        let ghost arranged_keys = keys@;
        match self.core_tree.get_mut(node_id) {
            Ok(n) => n.set_children(sorted),
            Err(_) => proof {
                assert(false);
            },
        }
        proof {
            Self::lemma_children_rearranged_wf(t0, *self, *node_id);
            let t1 = *self;
            assert forall|m: int|
                0 <= m < t1.children_of(ni).len() - 1 implies exists|k1: K, k2: K|
                call_ensures(
                    f,
                    (&t1.node_at((#[trigger] t1.children_of(ni)[m]).index as int),),
                    k1,
                ) && call_ensures(
                    f,
                    (&t1.node_at(t1.children_of(ni)[m + 1].index as int),),
                    k2,
                ) && k1.le_spec(&k2) by {
                broadcast use vstd::seq_lib::group_to_multiset_ensures;

                assert(orig.take(num as int) =~= orig);
                assert(arranged.to_multiset() == orig.to_multiset());
                assert(arranged.contains(arranged[m]));
                assert(arranged.contains(arranged[m + 1]));
                assert(arranged.to_multiset().count(arranged[m]) > 0);
                assert(arranged.to_multiset().count(arranged[m + 1]) > 0);
                assert(orig.to_multiset().count(arranged[m]) > 0);
                assert(orig.to_multiset().count(arranged[m + 1]) > 0);
                assert(orig.contains(arranged[m]));
                assert(orig.contains(arranged[m + 1]));
                Self::lemma_child_slot_same(t0, t1, ni, arranged[m]);
                Self::lemma_child_slot_same(t0, t1, ni, arranged[m + 1]);
                assert(call_ensures(
                    f,
                    (&t0.node_at(arranged[m].index as int),),
                    arranged_keys[m],
                ));
                assert(call_ensures(
                    f,
                    (&t0.node_at(arranged[m + 1].index as int),),
                    arranged_keys[m + 1],
                ));
                assert(arranged_keys[m].le_spec(&arranged_keys[m + 1]));
            }
        }
        Ok(())
    }

    /// Finds where a key belongs in an ordered key list: right after every
    /// key that is not greater.
    fn find_key_position<K: OrderedData>(keys: &Vec<K>, key: &K) -> (pos: usize)
        ensures
            0 <= pos <= keys@.len(),
            forall|m: int| 0 <= m < pos ==> (#[trigger] keys@[m]).le_spec(key),
            pos < keys@.len() ==> !keys@[pos as int].le_spec(key),
    {
        let mut pos: usize = 0;
        while pos < keys.len()
            invariant
                0 <= pos <= keys@.len(),
                forall|m: int| 0 <= m < pos ==> (#[trigger] keys@[m]).le_spec(key),
            decreases keys@.len() - pos,
        {
            if !(keys[pos].le(key)) {
                return pos;
            }
            pos = pos + 1;
        }
        pos
    }

    /// Rearranging the child list of one node, keeping the same handles,
    /// keeps the tree well formed.
    pub(crate) proof fn lemma_children_rearranged_wf(t0: Self, t1: Self, node_id: NodeId)
        requires
            t0.wf(),
            t0.valid(node_id),
            t1.core_tree.id == t0.core_tree.id,
            t1.n() == t0.n(),
            t1.core_tree.free_ids == t0.core_tree.free_ids,
            t1.core_tree.root == t0.core_tree.root,
            forall|j: int| #[trigger] t1.occupied(j) <==> t0.occupied(j),
            t1.node_at(node_id.index as int).parent == t0.node_at(node_id.index as int).parent,
            t1.children_of(node_id.index as int).to_multiset() == t0.children_of(
                node_id.index as int,
            ).to_multiset(),
            forall|j: int|
                t0.occupied(j) && j != node_id.index as int ==> #[trigger] t1.node_at(j)
                    == t0.node_at(j),
        ensures
            t1.wf(),
    {
        broadcast use vstd::seq_lib::group_to_multiset_ensures;

        let ni = node_id.index as int;
        let fuel = choose|f: nat| t0.all_rooted(f);
        Self::lemma_wf_free_same_occupancy(t0, t1);
        assert(t0.occupied(ni));
        t0.lemma_links_at(ni);
        t0.lemma_n_fits();
        // same members, still distinct
        assert forall|x: NodeId| #[trigger] t1.children_of(ni).contains(x) <==> t0.children_of(
            ni,
        ).contains(x) by {
            assert(t1.children_of(ni).to_multiset().count(x) == t0.children_of(
                ni,
            ).to_multiset().count(x));
        }
        assert(t1.children_of(ni).no_duplicates()) by {
            t0.children_of(ni).lemma_multiset_has_no_duplicates();
            t1.children_of(ni).lemma_multiset_has_no_duplicates_conv();
        }
        // links
        assert forall|i: int| #[trigger] t1.occupied(i) implies t1.parent_link_ok(i)
            && t1.child_links_ok(i) by {
            assert(t0.occupied(i));
            t0.lemma_links_at(i);
            match t1.node_at(i).parent {
                Some(p) => {
                    assert(t1.node_at(i).parent == t0.node_at(i).parent) by {
                        if i != ni {
                            assert(t1.node_at(i) == t0.node_at(i));
                        }
                    }
                    assert(t0.valid(p));
                    assert(t1.occupied(p.index as int));
                    assert(t1.valid(p));
                    if p.index as int == ni {
                        assert(t1.children_of(ni).contains(t1.mk_id(i)));
                    } else {
                        assert(t1.node_at(p.index as int) == t0.node_at(p.index as int));
                        assert(t1.children_of(p.index as int).contains(t1.mk_id(i)));
                    }
                },
                None => {
                },
            }
            if i == ni {
                assert forall|c: int| 0 <= c < t1.children_of(ni).len() implies t1.valid(
                    #[trigger] t1.children_of(ni)[c],
                ) && t1.node_at(t1.children_of(ni)[c].index as int).parent == Some(
                    t1.mk_id(ni),
                ) by {
                    let e = t1.children_of(ni)[c];
                    assert(t1.children_of(ni).contains(e));
                    assert(t0.children_of(ni).contains(e));
                    assert(t0.valid(e));
                    let ei = e.index as int;
                    assert(t0.node_at(ei).parent == Some(t0.mk_id(ni)));
                    assert(t1.occupied(ei));
                    assert(t1.valid(e));
                    assert(ei != ni) by {
                        if ei == ni {
                            assert(t0.rooted(ni, fuel));
                            t0.lemma_no_self_parent(ni, fuel);
                            assert(false);
                        }
                    }
                    assert(t1.node_at(ei) == t0.node_at(ei));
                }
            } else {
                assert(t1.node_at(i) == t0.node_at(i));
                assert forall|c: int| 0 <= c < t1.children_of(i).len() implies t1.valid(
                    #[trigger] t1.children_of(i)[c],
                ) && t1.node_at(t1.children_of(i)[c].index as int).parent == Some(t1.mk_id(i)) by {
                    let e = t0.children_of(i)[c];
                    assert(t1.children_of(i)[c] == e);
                    assert(t0.valid(e));
                    let ei = e.index as int;
                    assert(t1.occupied(ei));
                    assert(t1.valid(e));
                    assert(t0.node_at(ei).parent == Some(t0.mk_id(i)));
                    assert(t1.node_at(ei).parent == t0.node_at(ei).parent) by {
                        if ei != ni {
                            assert(t1.node_at(ei) == t0.node_at(ei));
                        }
                    }
                }
            }
        }
        // root
        match t1.core_tree.root {
            Some(rt) => {
                assert(t0.valid(rt));
                assert(t1.occupied(rt.index as int));
                assert(t1.node_at(rt.index as int).parent is None) by {
                    if rt.index as int == ni {
                        assert(t1.node_at(ni).parent == t0.node_at(ni).parent);
                    } else {
                        assert(t1.node_at(rt.index as int) == t0.node_at(rt.index as int));
                    }
                }
            },
            None => {
            },
        }
        // acyclicity: no parent link changed
        assert forall|i: int| #[trigger] t1.occupied(i) implies t1.rooted(i, fuel) by {
            assert(t0.occupied(i));
            assert(t0.rooted(i, fuel));
            assert forall|j: int| #[trigger] t0.on_chain(i, j, fuel) implies t1.occupied(j)
                && t1.node_at(j).parent == t0.node_at(j).parent by {
                Self::lemma_chain_occupied(t0, i, j, fuel);
                if j == ni {
                    assert(t1.node_at(j).parent == t0.node_at(j).parent);
                } else {
                    assert(t1.node_at(j) == t0.node_at(j));
                }
            }
            t0.lemma_chain_frame(t1, i, fuel);
        }
        assert(t1.all_rooted(fuel));
    }
}

} // verus!
