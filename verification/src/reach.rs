//! Reachability along parent links.
//!
//! The tree-shape invariant says that following parent links from any alive
//! node ends at a parentless node.  This module states that as a fuelled
//! recursion over the slots of the arena and proves the lemmas the structural
//! operations need: monotonicity in the fuel, preservation under changes that
//! stay off a chain, concatenation of chains, and the impossibility of
//! cycles.

use vstd::prelude::*;

use crate::NodeId;
use crate::Node;
use crate::Tree;

verus! {

impl<T> Tree<T> {
    /// Following parent links from slot `i` reaches a parentless node within
    /// `fuel` steps.
    pub open spec fn rooted(self, i: int, fuel: nat) -> bool
        decreases fuel,
    {
        self.occupied(i) && match self.node_at(i).parent {
            None => true,
            Some(p) => fuel > 0 && self.rooted(p.index as int, (fuel - 1) as nat),
        }
    }

    /// Every alive node reaches a parentless node within `fuel` steps.
    pub open spec fn all_rooted(self, fuel: nat) -> bool {
        forall|i: int| #[trigger] self.occupied(i) ==> self.rooted(i, fuel)
    }

    /// There are no cycles: some amount of fuel suffices for every alive
    /// node's parent chain.
    pub open spec fn acyclic(self) -> bool {
        exists|fuel: nat| self.all_rooted(fuel)
    }

    /// Slot `j` lies on the parent chain that starts at slot `i` (in at most
    /// `fuel` steps); a slot lies on its own chain.
    pub open spec fn on_chain(self, i: int, j: int, fuel: nat) -> bool
        decreases fuel,
    {
        self.occupied(i) && (i == j || (match self.node_at(i).parent {
            None => false,
            Some(p) => fuel > 0 && self.on_chain(p.index as int, j, (fuel - 1) as nat),
        }))
    }

    /// Slot `i` belongs to the subtree of slot `j`: the parent chain of `i`
    /// passes through `j`.  A slot belongs to its own subtree.
    pub open spec fn is_desc(self, i: int, j: int) -> bool {
        exists|fuel: nat| self.on_chain(i, j, fuel)
    }

    /// More fuel never hurts a rooted chain.
    pub proof fn lemma_rooted_mono(self, i: int, f1: nat, f2: nat)
        requires
            self.rooted(i, f1),
            f1 <= f2,
        ensures
            self.rooted(i, f2),
        decreases f1,
    {
        match self.node_at(i).parent {
            None => {
            },
            Some(p) => {
                self.lemma_rooted_mono(p.index as int, (f1 - 1) as nat, (f2 - 1) as nat);
            },
        }
    }

    /// More fuel never hurts chain membership.
    pub proof fn lemma_on_chain_mono(self, i: int, j: int, f1: nat, f2: nat)
        requires
            self.on_chain(i, j, f1),
            f1 <= f2,
        ensures
            self.on_chain(i, j, f2),
        decreases f1,
    {
        if i != j {
            match self.node_at(i).parent {
                None => {
                },
                Some(p) => {
                    self.lemma_on_chain_mono(p.index as int, j, (f1 - 1) as nat, (f2 - 1) as nat);
                },
            }
        }
    }

    /// A chain that reaches a parentless node within `f` steps reaches any
    /// slot it passes at all within those same `f` steps.
    pub proof fn lemma_on_chain_fuel(self, i: int, j: int, f: nat, g: nat)
        requires
            self.rooted(i, f),
            self.on_chain(i, j, g),
        ensures
            self.on_chain(i, j, f),
        decreases g,
    {
        if i != j {
            match self.node_at(i).parent {
                None => {
                },
                Some(p) => {
                    self.lemma_on_chain_fuel(p.index as int, j, (f - 1) as nat, (g - 1) as nat);
                },
            }
        }
    }

    /// A chain from `i` to `c` survives into a tree that agrees on every
    /// chain slot before `c`, as long as `c` itself stays occupied.
    pub proof fn lemma_chain_frame_to(self, other: Self, i: int, c: int, f: nat)
        requires
            self.on_chain(i, c, f),
            forall|j: int|
                #[trigger] self.on_chain(i, j, f) && j != c ==> other.occupied(j)
                    && other.node_at(j).parent == self.node_at(j).parent,
            other.occupied(c),
        ensures
            other.on_chain(i, c, f),
        decreases f,
    {
        if i != c {
            assert(self.on_chain(i, i, f));
            match self.node_at(i).parent {
                None => {
                },
                Some(p) => {
                    let pi = p.index as int;
                    assert forall|j: int|
                        #[trigger] self.on_chain(pi, j, (f - 1) as nat) && j != c implies
                        other.occupied(j) && other.node_at(j).parent == self.node_at(j).parent by {
                        assert(self.on_chain(i, j, f));
                    }
                    self.lemma_chain_frame_to(other, pi, c, (f - 1) as nat);
                },
            }
        }
    }

    /// If another tree agrees with this one (occupancy and parent link) on
    /// every slot of the chain that starts at `i`, the chain is the same
    /// there.
    pub proof fn lemma_chain_frame(self, other: Self, i: int, f: nat)
        requires
            self.rooted(i, f),
            forall|j: int|
                #[trigger] self.on_chain(i, j, f) ==> other.occupied(j) && other.node_at(j).parent
                    == self.node_at(j).parent,
        ensures
            other.rooted(i, f),
            forall|j: int| #[trigger] other.on_chain(i, j, f) <==> self.on_chain(i, j, f),
        decreases f,
    {
        assert(self.on_chain(i, i, f));
        match self.node_at(i).parent {
            None => {
                assert forall|j: int| #[trigger] other.on_chain(i, j, f) <==> self.on_chain(
                    i,
                    j,
                    f,
                ) by {
                    assert(other.node_at(i).parent is None);
                }
            },
            Some(p) => {
                let pi = p.index as int;
                assert(self.rooted(pi, (f - 1) as nat));
                assert(self.occupied(pi));
                assert(self.on_chain(i, pi, f)) by {
                    if pi != i {
                        assert(self.on_chain(pi, pi, (f - 1) as nat));
                    }
                }
                assert forall|j: int| #[trigger] self.on_chain(pi, j, (f - 1) as nat) implies
                    other.occupied(j) && other.node_at(j).parent == self.node_at(j).parent by {
                    assert(self.on_chain(i, j, f));
                }
                self.lemma_chain_frame(other, pi, (f - 1) as nat);
                assert(other.rooted(i, f));
                assert forall|j: int| #[trigger] other.on_chain(i, j, f) <==> self.on_chain(
                    i,
                    j,
                    f,
                ) by {
                    assert(other.node_at(i).parent == Some(p));
                    assert(other.on_chain(i, j, f) == (other.occupied(i) && (i == j
                        || other.on_chain(pi, j, (f - 1) as nat))));
                    assert(self.on_chain(i, j, f) == (self.occupied(i) && (i == j || self.on_chain(
                        pi,
                        j,
                        (f - 1) as nat,
                    ))));
                }
            },
        }
    }

    /// Gluing a chain from `i` to `x` onto a rooted chain from `x` roots `i`.
    pub proof fn lemma_chain_concat(self, i: int, x: int, f: nat, g: nat)
        requires
            self.on_chain(i, x, f),
            self.rooted(x, g),
        ensures
            self.rooted(i, f + g),
        decreases f,
    {
        if i == x {
            self.lemma_rooted_mono(i, g, f + g);
        } else {
            match self.node_at(i).parent {
                None => {
                },
                Some(p) => {
                    self.lemma_chain_concat(p.index as int, x, (f - 1) as nat, g);
                },
            }
        }
    }

    /// Chain membership is transitive.
    pub proof fn lemma_chain_trans(self, i: int, x: int, k: int, f: nat, g: nat)
        requires
            self.on_chain(i, x, f),
            self.on_chain(x, k, g),
        ensures
            self.on_chain(i, k, f + g),
        decreases f,
    {
        if i == x {
            self.lemma_on_chain_mono(i, k, g, f + g);
        } else {
            match self.node_at(i).parent {
                None => {
                },
                Some(p) => {
                    self.lemma_chain_trans(p.index as int, x, k, (f - 1) as nat, g);
                },
            }
        }
    }

    /// A chain that reaches `x` also reaches `x`'s parent.
    pub proof fn lemma_chain_step(self, i: int, x: int, q: NodeId, f: nat)
        requires
            self.on_chain(i, x, f),
            self.node_at(x).parent == Some(q),
            self.occupied(q.index as int),
        ensures
            self.on_chain(i, q.index as int, f + 1),
        decreases f,
    {
        if i == x {
            assert(self.on_chain(q.index as int, q.index as int, f));
        } else {
            match self.node_at(i).parent {
                None => {
                },
                Some(p) => {
                    self.lemma_chain_step(p.index as int, x, q, (f - 1) as nat);
                },
            }
        }
    }

    /// A rooted node is never on the chain of its own parent: parent links
    /// cannot loop back.
    pub proof fn lemma_parent_not_desc(self, i: int, p: NodeId, h: nat, f: nat)
        requires
            self.rooted(i, f),
            self.node_at(i).parent == Some(p),
        ensures
            !self.on_chain(p.index as int, i, h),
        decreases f,
    {
        let pi = p.index as int;
        if self.on_chain(pi, i, h) {
            if pi == i {
                // a direct self-loop burns one unit of fuel per step
                assert(f > 0 && self.rooted(i, (f - 1) as nat));
                self.lemma_parent_not_desc(i, p, h, (f - 1) as nat);
                assert(false);
            } else {
                match self.node_at(pi).parent {
                    None => {
                        assert(false);
                    },
                    Some(q) => {
                        let qi = q.index as int;
                        assert(self.on_chain(qi, i, (h - 1) as nat));
                        self.lemma_chain_step(qi, i, p, (h - 1) as nat);
                        assert(self.on_chain(qi, pi, h));
                        assert(f > 0 && self.rooted(pi, (f - 1) as nat));
                        self.lemma_parent_not_desc(pi, q, h, (f - 1) as nat);
                        assert(false);
                    },
                }
            }
        }
    }

    /// Two slots on the same chain are ordered: one lies on the chain of the
    /// other.
    pub proof fn lemma_chain_linear(self, a: int, b: int, c: int, f: nat, g: nat)
        requires
            self.on_chain(a, b, f),
            self.on_chain(a, c, g),
        ensures
            self.on_chain(b, c, g) || self.on_chain(c, b, f),
        decreases f,
    {
        if a == b {
        } else if a == c {
            self.lemma_on_chain_mono(a, b, f, f);
        } else {
            match self.node_at(a).parent {
                None => {
                },
                Some(p) => {
                    self.lemma_chain_linear(p.index as int, b, c, (f - 1) as nat, (g - 1) as nat);
                    if self.on_chain(b, c, (g - 1) as nat) {
                        self.lemma_on_chain_mono(b, c, (g - 1) as nat, g);
                    } else {
                        self.lemma_on_chain_mono(c, b, (f - 1) as nat, f);
                    }
                },
            }
        }
    }

    /// A chain that reaches `c` from elsewhere passes a slot whose parent
    /// link names `c`.
    pub proof fn lemma_reach_via(self, i: int, c: int, f: nat)
        requires
            self.on_chain(i, c, f),
            i != c,
        ensures
            exists|d: int|
                #[trigger] self.on_chain(i, d, f) && (match self.node_at(d).parent {
                    Some(p) => p.index as int == c,
                    None => false,
                }),
        decreases f,
    {
        match self.node_at(i).parent {
            None => {
            },
            Some(p) => {
                let pi = p.index as int;
                if pi == c {
                    assert(self.on_chain(i, i, f));
                } else {
                    assert(self.on_chain(pi, c, (f - 1) as nat));
                    self.lemma_reach_via(pi, c, (f - 1) as nat);
                    let d = choose|d: int|
                        #[trigger] self.on_chain(pi, d, (f - 1) as nat) && (
                        match self.node_at(d).parent {
                            Some(q) => q.index as int == c,
                            None => false,
                        });
                    assert(self.on_chain(i, d, f));
                }
            },
        }
    }

    /// Like `lemma_chain_frame_to`, but only asks the two trees to agree on
    /// the part of the chain before `c`.
    pub proof fn lemma_chain_frame_prefix(self, other: Self, i: int, c: int, f: nat)
        requires
            self.on_chain(i, c, f),
            forall|j: int|
                #[trigger] self.on_chain(i, j, f) && self.on_chain(j, c, f) && j != c
                    ==> other.occupied(j) && other.node_at(j).parent == self.node_at(j).parent,
            other.occupied(c),
        ensures
            other.on_chain(i, c, f),
        decreases f,
    {
        if i != c {
            assert(self.on_chain(i, i, f));
            match self.node_at(i).parent {
                None => {
                },
                Some(p) => {
                    let pi = p.index as int;
                    assert(self.on_chain(pi, c, (f - 1) as nat));
                    assert forall|j: int|
                        #[trigger] self.on_chain(pi, j, (f - 1) as nat) && self.on_chain(
                            j,
                            c,
                            (f - 1) as nat,
                        ) && j != c implies other.occupied(j) && other.node_at(j).parent
                        == self.node_at(j).parent by {
                        assert(self.on_chain(i, j, f));
                        self.lemma_on_chain_mono(j, c, (f - 1) as nat, f);
                    }
                    self.lemma_chain_frame_prefix(other, pi, c, (f - 1) as nat);
                },
            }
        }
    }

    /// The two-target form of `lemma_rooted_redirect`.
    pub proof fn lemma_rooted_redirect2(
        t0: Self,
        t1: Self,
        tg1: NodeId,
        tg2: NodeId,
        g: nat,
        i: int,
        f: nat,
    )
        requires
            t0.rooted(i, f),
            t1.occupied(i),
            t1.rooted(tg1.index as int, g),
            t1.rooted(tg2.index as int, g),
            forall|j: int|
                #[trigger] t1.occupied(j) ==> {
                    ||| t1.node_at(j).parent is None
                    ||| t1.node_at(j).parent == Some(tg1)
                    ||| t1.node_at(j).parent == Some(tg2)
                    ||| (t1.node_at(j).parent == t0.node_at(j).parent && t0.occupied(j) && (
                    match t0.node_at(j).parent {
                        Some(p) => t1.occupied(p.index as int),
                        None => true,
                    }))
                },
        ensures
            t1.rooted(i, f + g + 1),
        decreases f,
    {
        match t1.node_at(i).parent {
            None => {
            },
            Some(p) => {
                if p == tg1 || p == tg2 {
                    t1.lemma_rooted_mono(p.index as int, g, (f + g + 1 - 1) as nat);
                } else {
                    assert(t1.node_at(i).parent == t0.node_at(i).parent);
                    assert(f > 0 && t0.rooted(p.index as int, (f - 1) as nat));
                    Self::lemma_rooted_redirect2(t0, t1, tg1, tg2, g, p.index as int, (f - 1) as nat);
                }
            },
        }
    }

    /// Every slot on a rooted chain is itself rooted.
    pub proof fn lemma_rooted_suffix(self, i: int, j: int, f: nat, g: nat)
        requires
            self.rooted(i, f),
            self.on_chain(i, j, g),
        ensures
            self.rooted(j, f),
        decreases g,
    {
        if i != j {
            match self.node_at(i).parent {
                None => {
                },
                Some(p) => {
                    self.lemma_rooted_suffix(p.index as int, j, (f - 1) as nat, (g - 1) as nat);
                    self.lemma_rooted_mono(j, (f - 1) as nat, f);
                },
            }
        }
    }

    /// A rooted node is not its own parent.
    pub proof fn lemma_no_self_parent(self, i: int, f: nat)
        requires
            self.rooted(i, f),
        ensures
            forall|p: NodeId|
                self.node_at(i).parent == Some(p) ==> p.index as int != i,
        decreases f,
    {
        match self.node_at(i).parent {
            None => {
            },
            Some(p) => {
                if p.index as int == i {
                    assert(f > 0 && self.rooted(i, (f - 1) as nat));
                    self.lemma_no_self_parent(i, (f - 1) as nat);
                    assert(false);
                }
            },
        }
    }

    /// If every alive node of `t1` either kept its parent (with that parent
    /// still alive), lost it, or was redirected to `target` (which is rooted
    /// in `t1`), then every node rooted in `t0` is rooted in `t1`.
    pub proof fn lemma_rooted_redirect(
        t0: Self,
        t1: Self,
        target: Option<NodeId>,
        g: nat,
        i: int,
        f: nat,
    )
        requires
            t0.rooted(i, f),
            t1.occupied(i),
            target matches Some(tg) ==> t1.rooted(tg.index as int, g),
            forall|j: int|
                #[trigger] t1.occupied(j) ==> {
                    ||| t1.node_at(j).parent is None
                    ||| (target matches Some(tg) && t1.node_at(j).parent == Some(tg))
                    ||| (t1.node_at(j).parent == t0.node_at(j).parent && t0.occupied(j) && (
                    match t0.node_at(j).parent {
                        Some(p) => t1.occupied(p.index as int),
                        None => true,
                    }))
                },
        ensures
            t1.rooted(i, f + g + 1),
        decreases f,
    {
        match t1.node_at(i).parent {
            None => {
            },
            Some(p) => {
                if target == Some(p) {
                    t1.lemma_rooted_mono(p.index as int, g, (f + g + 1 - 1) as nat);
                } else {
                    assert(t1.node_at(i).parent == t0.node_at(i).parent);
                    assert(f > 0 && t0.rooted(p.index as int, (f - 1) as nat));
                    Self::lemma_rooted_redirect(t0, t1, target, g, p.index as int, (f - 1) as nat);
                }
            },
        }
    }

    /// Two slots that lie on each other's chains are the same slot.
    pub proof fn lemma_chain_antisym(self, i: int, j: int, f: nat, g: nat, h: nat)
        requires
            self.rooted(i, h),
            self.on_chain(i, j, f),
            self.on_chain(j, i, g),
        ensures
            i == j,
    {
        if i != j {
            match self.node_at(i).parent {
                None => {
                    assert(false);
                },
                Some(p) => {
                    let pi = p.index as int;
                    assert(self.on_chain(pi, j, (f - 1) as nat));
                    self.lemma_chain_trans(pi, j, i, (f - 1) as nat, g);
                    self.lemma_parent_not_desc(i, p, ((f - 1) + g) as nat, h);
                    assert(false);
                },
            }
        }
    }
}

} // verus!
