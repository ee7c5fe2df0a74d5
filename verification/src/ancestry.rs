//! Acyclicity of the parent/child forest.
//!
//! The facade's invariant includes `acyclic`: no live entity is its own
//! ancestor, at any distance. The lemmas here carry that fact across every
//! operation: most operations leave parent links of live entities alone,
//! destroying or detaching only ever removes links, and `set_parent` first
//! checks, walking at most one step per live entity, that the new parent
//! does not descend from the child.

use vstd::prelude::*;

use crate::entity::Entity;
use crate::store::Store;

verus! {

impl<C, R> Store<C, R> {
    /// The k-th ancestor of an entity along parent links, if the chain
    /// goes that far.
    pub(crate) open spec fn nth_ancestor(self, e: Entity, k: nat) -> Option<Entity>
        decreases k,
    {
        if k == 0 {
            Some(e)
        } else {
            match self.nth_ancestor(e, (k - 1) as nat) {
                None => None,
                Some(a) => self.parent_of(a),
            }
        }
    }

    /// No live entity is its own ancestor, at any distance.
    pub(crate) open spec fn acyclic(self) -> bool {
        forall|e: Entity, f: nat| self.live(e) ==> !(#[trigger] self.reaches_within(e, e, f))
    }

    /// One step along the chain is the parent link.
    pub(crate) proof fn lemma_nth_one(self, from: Entity)
        ensures
            self.nth_ancestor(from, 1) == self.parent_of(from),
    {
        assert(self.nth_ancestor(from, 0) == Some(from));
    }

    /// Reachability within some fuel is having the target as the k-th
    /// ancestor for some step count within that fuel.
    pub(crate) proof fn lemma_reaches_iff_nth(self, from: Entity, target: Entity, f: nat)
        ensures
            self.reaches_within(from, target, f) <==> exists|k: nat|
                1 <= k <= f && self.nth_ancestor(from, k) == Some(target),
        decreases f,
    {
        if f > 0 {
            match self.parent_of(from) {
                None => {
                    assert forall|k: nat| 1 <= k <= f implies self.nth_ancestor(from, k)
                        != Some(target) by {
                        self.lemma_nth_one(from);
                        self.lemma_nth_none(from, 1, k);
                    }
                },
                Some(p) => {
                    self.lemma_reaches_iff_nth(p, target, (f - 1) as nat);
                    if self.reaches_within(from, target, f) {
                        if p == target {
                            self.lemma_nth_one(from);
                            assert(self.nth_ancestor(from, 1) == Some(target));
                        } else {
                            let k = choose|k: nat|
                                1 <= k <= f - 1 && self.nth_ancestor(p, k) == Some(target);
                            self.lemma_nth_step(from, p, k);
                            assert(self.nth_ancestor(from, k + 1) == Some(target));
                        }
                    }
                    if exists|k: nat| 1 <= k <= f && self.nth_ancestor(from, k) == Some(target) {
                        let k = choose|k: nat|
                            1 <= k <= f && self.nth_ancestor(from, k) == Some(target);
                        if k == 1 {
                            self.lemma_nth_one(from);
                        } else {
                            self.lemma_nth_step(from, p, (k - 1) as nat);
                            assert(self.nth_ancestor(p, (k - 1) as nat) == Some(target));
                            if p != target {
                                assert(self.reaches_within(p, target, (f - 1) as nat));
                            }
                        }
                    }
                },
            }
        } else {
            assert forall|k: nat| 1 <= k <= f implies self.nth_ancestor(from, k)
                != Some(target) by {}
        }
    }

    /// Walking one step first: the k-th ancestor of the parent is the
    /// (k+1)-th ancestor of the child.
    pub(crate) proof fn lemma_nth_step(self, from: Entity, p: Entity, k: nat)
        requires
            self.parent_of(from) == Some(p),
        ensures
            self.nth_ancestor(from, k + 1) == self.nth_ancestor(p, k),
        decreases k,
    {
        if k == 0 {
            self.lemma_nth_one(from);
        } else {
            self.lemma_nth_step(from, p, (k - 1) as nat);
            assert(self.nth_ancestor(from, k + 1) == match self.nth_ancestor(from, k) {
                None => None::<Entity>,
                Some(a) => self.parent_of(a),
            });
            assert(self.nth_ancestor(p, k) == match self.nth_ancestor(p, (k - 1) as nat) {
                None => None::<Entity>,
                Some(a) => self.parent_of(a),
            });
        }
    }

    /// Once the chain has ended, it stays ended.
    pub(crate) proof fn lemma_nth_none(self, from: Entity, k1: nat, k2: nat)
        requires
            k1 <= k2,
            self.nth_ancestor(from, k1) is None,
        ensures
            self.nth_ancestor(from, k2) is None,
        decreases k2,
    {
        if k2 > k1 {
            self.lemma_nth_none(from, k1, (k2 - 1) as nat);
        }
    }

    /// Ancestor chains compose by adding step counts.
    pub(crate) proof fn lemma_nth_compose(self, from: Entity, a: nat, b: nat)
        ensures
            self.nth_ancestor(from, a + b) == match self.nth_ancestor(from, a) {
                None => None::<Entity>,
                Some(y) => self.nth_ancestor(y, b),
            },
        decreases b,
    {
        if b == 0 {
        } else {
            self.lemma_nth_compose(from, a, (b - 1) as nat);
            assert(a + b == (a + (b - 1) as nat) + 1);
        }
    }

    /// Every ancestor of a live entity is live, in a well-formed store.
    pub(crate) proof fn lemma_nth_live(self, from: Entity, k: nat)
        requires
            self.wf(),
            self.live(from),
            self.nth_ancestor(from, k) is Some,
        ensures
            self.live(self.nth_ancestor(from, k).unwrap()),
        decreases k,
    {
        if k > 0 {
            self.lemma_nth_live(from, (k - 1) as nat);
        }
    }

    /// In a well-formed acyclic store, whatever is reachable at all is
    /// reachable within one step per live entity: an acyclic chain never
    /// repeats a node, and there are only as many live nodes as the store
    /// holds.
    pub(crate) proof fn lemma_reach_bound(self, from: Entity, target: Entity, f: nat)
        requires
            self.wf(),
            self.acyclic(),
            self.live(from),
            self.reaches_within(from, target, f),
        ensures
            self.reaches_within(from, target, self.entities().len()),
    {
        let n = self.entities().len();
        self.lemma_reaches_iff_nth(from, target, f);
        let k = choose|k: nat| 1 <= k <= f && self.nth_ancestor(from, k) == Some(target);
        if k <= n {
            self.lemma_reaches_iff_nth(from, target, n);
        } else {
            // The first n + 1 chain nodes are all live and pairwise
            // distinct, yet only n entities are live: impossible.
            let nodes = Seq::<Entity>::new(n + 1, |i: int| self.nth_ancestor(from, i as nat).unwrap());
            assert forall|i: int| 0 <= i <= n implies self.nth_ancestor(from, i as nat) is Some
                && self.live(nodes[i]) && self.entities().contains(nodes[i]) by {
                if self.nth_ancestor(from, i as nat) is None {
                    self.lemma_nth_none(from, i as nat, k);
                }
                self.lemma_nth_live(from, i as nat);
            }
            assert(nodes.no_duplicates()) by {
                assert forall|i: int, j: int|
                    0 <= i < nodes.len() && 0 <= j < nodes.len() && i != j implies nodes[i]
                    != nodes[j] by {
                    let (a, b) = if i < j {
                        (i, j)
                    } else {
                        (j, i)
                    };
                    if nodes[a] == nodes[b] {
                        self.lemma_nth_compose(from, a as nat, (b - a) as nat);
                        assert(self.nth_ancestor(nodes[a], (b - a) as nat) == Some(nodes[a]));
                        self.lemma_reaches_iff_nth(nodes[a], nodes[a], (b - a) as nat);
                        assert(self.reaches_within(nodes[a], nodes[a], (b - a) as nat));
                    }
                }
            }
            nodes.unique_seq_to_set();
            vstd::seq_lib::seq_to_set_is_finite(self.entities());
            assert(nodes.to_set().subset_of(self.entities().to_set())) by {
                assert forall|x: Entity| nodes.to_set().contains(x) implies self.entities().to_set().contains(x) by {
                    assert(nodes.contains(x));
                    let i = choose|i: int| 0 <= i < nodes.len() && nodes[i] == x;
                    assert(self.entities().contains(nodes[i]));
                }
            }
            vstd::set_lib::lemma_len_subset(nodes.to_set(), self.entities().to_set());
            self.entities().lemma_cardinality_of_set();
            assert(false);
        }
    }

    /// Reachability is unchanged between two stores that agree on liveness
    /// and on the parent links of live entities.
    pub(crate) proof fn lemma_reaches_same(pre: Self, post: Self, from: Entity, target: Entity, f: nat)
        requires
            pre.wf(),
            pre.live(from),
            forall|x: Entity| #[trigger] pre.live(x) ==> post.live(x),
            forall|x: Entity| #[trigger] pre.live(x) ==> post.parent_of(x) == pre.parent_of(x),
        ensures
            post.reaches_within(from, target, f) == pre.reaches_within(from, target, f),
        decreases f,
    {
        if f > 0 {
            match pre.parent_of(from) {
                None => {},
                Some(p) => {
                    assert(pre.live(p));
                    Self::lemma_reaches_same(pre, post, p, target, (f - 1) as nat);
                },
            }
        }
    }

    /// Removing links never creates reachability: whatever a link-pruned
    /// store can reach, the unpruned store reached too.
    pub(crate) proof fn lemma_reaches_subset(pre: Self, post: Self, from: Entity, target: Entity, f: nat)
        requires
            post.wf(),
            post.live(from),
            forall|x: Entity| #[trigger] post.live(x) ==> pre.live(x),
            forall|x: Entity| #[trigger] post.live(x) ==> (post.parent_of(x) == pre.parent_of(x)
                || post.parent_of(x) is None),
        ensures
            post.reaches_within(from, target, f) ==> pre.reaches_within(from, target, f),
        decreases f,
    {
        if f > 0 {
            match post.parent_of(from) {
                None => {},
                Some(p) => {
                    assert(post.live(p));
                    Self::lemma_reaches_subset(pre, post, p, target, (f - 1) as nat);
                },
            }
        }
    }

    /// After linking `child` under `parent`, a chain that starts at a live
    /// entity other than `child` and reaches `child` used only old links.
    pub(crate) proof fn lemma_reach_child_pre(
        pre: Self,
        post: Self,
        child: Entity,
        x: Entity,
        f: nat,
    )
        requires
            pre.wf(),
            pre.live(x),
            x != child,
            forall|y: Entity|
                #[trigger] pre.live(y) && y != child ==> post.parent_of(y) == pre.parent_of(y),
            post.reaches_within(x, child, f),
        ensures
            pre.reaches_within(x, child, f),
        decreases f,
    {
        if f > 0 {
            match post.parent_of(x) {
                None => {},
                Some(p) => {
                    assert(post.parent_of(x) == pre.parent_of(x));
                    assert(pre.live(p));
                    if p != child {
                        Self::lemma_reach_child_pre(pre, post, child, p, (f - 1) as nat);
                    }
                },
            }
        }
    }

    /// After linking `child` under `parent`, a chain that starts at a live
    /// entity and never passes through `child` is an old chain.
    pub(crate) proof fn lemma_chain_avoiding_child(
        pre: Self,
        post: Self,
        child: Entity,
        x: Entity,
        k: nat,
    )
        requires
            pre.wf(),
            pre.live(x),
            x != child,
            forall|y: Entity|
                #[trigger] pre.live(y) && y != child ==> post.parent_of(y) == pre.parent_of(y),
            forall|x2: Entity| #[trigger] post.live(x2) == pre.live(x2),
            forall|i: nat| 0 < i <= k ==> #[trigger] post.nth_ancestor(x, i) != Some(child),
        ensures
            post.nth_ancestor(x, k) == pre.nth_ancestor(x, k),
            pre.nth_ancestor(x, k) is Some ==> pre.live(pre.nth_ancestor(x, k).unwrap()),
        decreases k,
    {
        if k == 0 {
        } else {
            Self::lemma_chain_avoiding_child(pre, post, child, x, (k - 1) as nat);
            match pre.nth_ancestor(x, (k - 1) as nat) {
                None => {},
                Some(a) => {
                    assert(pre.live(a));
                    assert(a != child || k - 1 == 0 || post.nth_ancestor(x, (k - 1) as nat)
                        != Some(child));
                    assert(a != child);
                    assert(post.parent_of(a) == pre.parent_of(a));
                    match pre.parent_of(a) {
                        None => {},
                        Some(q) => {
                            assert(pre.live(q));
                        },
                    }
                },
            }
        }
    }

    /// The heart of cycle avoidance: if the store was acyclic and the
    /// ancestor walk found that `parent` does not descend from `child`,
    /// then linking `child` under `parent` leaves the store acyclic.
    pub(crate) proof fn lemma_set_parent_acyclic(pre: Self, post: Self, child: Entity, parent: Entity)
        requires
            pre.wf(),
            pre.acyclic(),
            post.wf(),
            pre.live(child),
            pre.live(parent),
            child != parent,
            !pre.reaches_within(parent, child, pre.entities().len()),
            post.parent_of(child) == Some(parent),
            forall|y: Entity|
                #[trigger] pre.live(y) && y != child ==> post.parent_of(y) == pre.parent_of(y),
            forall|x: Entity| #[trigger] post.live(x) == pre.live(x),
            post.entities() == pre.entities(),
        ensures
            post.acyclic(),
    {
        assert forall|e: Entity, f: nat| post.live(e) implies !(#[trigger] post.reaches_within(
            e,
            e,
            f,
        )) by {
            if post.reaches_within(e, e, f) {
                post.lemma_reaches_iff_nth(e, e, f);
                let k = choose|k: nat| 1 <= k <= f && post.nth_ancestor(e, k) == Some(e);
                if exists|i: nat| i <= k && post.nth_ancestor(e, i) == Some(child) {
                    // The cycle passes through the child, so it can be
                    // rotated into a cycle at the child; its first step is
                    // the new link, and the rest is an old chain from the
                    // parent back to the child, which the walk excluded.
                    let i = choose|i: nat| i <= k && post.nth_ancestor(e, i) == Some(child);
                    post.lemma_nth_compose(e, i, (k - i) as nat);
                    assert(post.nth_ancestor(child, (k - i) as nat) == Some(e));
                    post.lemma_nth_compose(child, (k - i) as nat, i);
                    assert(post.nth_ancestor(child, k) == Some(child));
                    post.lemma_nth_step(child, parent, (k - 1) as nat);
                    assert(post.nth_ancestor(parent, (k - 1) as nat) == Some(child));
                    if k == 1 {
                        assert(parent == child);
                    } else {
                        post.lemma_reaches_iff_nth(parent, child, (k - 1) as nat);
                        assert(post.reaches_within(parent, child, (k - 1) as nat));
                        Self::lemma_reach_child_pre(pre, post, child, parent, (k - 1) as nat);
                        assert(pre.reaches_within(parent, child, (k - 1) as nat));
                        pre.lemma_reach_bound(parent, child, (k - 1) as nat);
                    }
                } else {
                    // The cycle avoids the child entirely, so it was
                    // already a cycle before the link.
                    assert(e != child) by {
                        assert(post.nth_ancestor(e, 0) == Some(e));
                    }
                    assert forall|i: nat| 0 < i <= k implies #[trigger] post.nth_ancestor(e, i)
                        != Some(child) by {}
                    Self::lemma_chain_avoiding_child(pre, post, child, e, k);
                    assert(pre.nth_ancestor(e, k) == Some(e));
                    pre.lemma_reaches_iff_nth(e, e, k);
                    assert(pre.reaches_within(e, e, k));
                    assert(pre.live(e));
                }
            }
        }
    }
}

} // verus!
