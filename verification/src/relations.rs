//! The relationship layer: parent/child links between live entities.
//!
//! A child carries at most one parent link; a parent carries the list of its
//! children, in the order the links were made. The two directions are kept
//! consistent, and `set_parent` refuses a link that would close a cycle.

use vstd::prelude::*;

use crate::entity::Entity;
use crate::store::remove_entity_value;
use crate::store::Slot;
use crate::store::Store;

verus! {

/// Membership and shape facts about removing one occurrence of a value
/// from a duplicate-free sequence.
pub(crate) proof fn lemma_remove_value_props(s: Seq<Entity>, v: Entity)
    requires
        s.no_duplicates(),
    ensures
        forall|x: Entity| x != v ==> s.remove_value(v).contains(x) == s.contains(x),
        !s.remove_value(v).contains(v),
        s.remove_value(v).no_duplicates(),
{
    s.index_of_first_ensures(v);
    match s.index_of_first(v) {
        Some(i) => {
            let s2 = s.remove(i);
            assert forall|x: Entity| x != v implies s2.contains(x) == s.contains(x) by {
                if s2.contains(x) {
                    let j = choose|j: int| 0 <= j < s2.len() && s2[j] == x;
                    if j < i {
                        assert(s[j] == x);
                    } else {
                        assert(s[j + 1] == x);
                    }
                }
                if s.contains(x) {
                    let j = choose|j: int| 0 <= j < s.len() && s[j] == x;
                    if j < i {
                        assert(s2[j] == x);
                    } else if j > i {
                        assert(s2[j - 1] == x);
                    }
                }
            }
            assert(!s2.contains(v)) by {
                if s2.contains(v) {
                    let j = choose|j: int| 0 <= j < s2.len() && s2[j] == v;
                    if j < i {
                        assert(s[j] == v);
                        assert(s[i] == v);
                    } else {
                        assert(s[j + 1] == v);
                        assert(s[i] == v);
                    }
                }
            }
            assert(s2.no_duplicates()) by {
                assert forall|a: int, b: int|
                    0 <= a < s2.len() && 0 <= b < s2.len() && a != b implies s2[a] != s2[b] by {
                    let aa = if a < i {
                        a
                    } else {
                        a + 1
                    };
                    let bb = if b < i {
                        b
                    } else {
                        b + 1
                    };
                    assert(s2[a] == s[aa]);
                    assert(s2[b] == s[bb]);
                }
            }
        },
        None => {},
    }
}

pub(crate) proof fn lemma_push_no_dup(s: Seq<Entity>, v: Entity)
    requires
        s.no_duplicates(),
        !s.contains(v),
    ensures
        s.push(v).no_duplicates(),
        forall|x: Entity| s.push(v).contains(x) == (s.contains(x) || x == v),
{
    assert forall|a: int, b: int|
        0 <= a < s.push(v).len() && 0 <= b < s.push(v).len() && a != b implies s.push(v)[a]
        != s.push(v)[b] by {
        if a < s.len() && b < s.len() {
            assert(s.push(v)[a] == s[a]);
            assert(s.push(v)[b] == s[b]);
        } else if a < s.len() {
            assert(s.push(v)[a] == s[a]);
            assert(s.contains(s[a]));
        } else {
            assert(s.push(v)[b] == s[b]);
            assert(s.contains(s[b]));
        }
    }
    assert forall|x: Entity| s.push(v).contains(x) == (s.contains(x) || x == v) by {
        if s.push(v).contains(x) {
            let j = choose|j: int| 0 <= j < s.push(v).len() && s.push(v)[j] == x;
            if j < s.len() {
                assert(s[j] == x);
            }
        }
        if s.contains(x) {
            let j = choose|j: int| 0 <= j < s.len() && s[j] == x;
            assert(s.push(v)[j] == x);
        }
        if x == v {
            assert(s.push(v)[s.len() as int] == x);
        }
    }
}

impl<C, R> Store<C, R> {
    /// The ancestor chain from `from` reaches `target` in at most `fuel`
    /// parent steps.
    pub(crate) open spec fn reaches_within(self, from: Entity, target: Entity, fuel: nat) -> bool
        decreases fuel,
    {
        if fuel == 0 {
            false
        } else {
            match self.parent_of(from) {
                None => false,
                Some(p) => p == target || self.reaches_within(p, target, (fuel - 1) as nat),
            }
        }
    }

    /// The parent of a live entity, if it has one.
    pub(crate) fn get_parent(&self, entity: Entity) -> (r: Option<Entity>)
        requires
            self.wf(),
            self.live(entity),
        ensures
            r == self.parent_of(entity),
    {
        self.slots[entity.index].parent
    }

    /// The children of a live entity, in the order the links were made;
    /// empty when it has none.
    pub(crate) fn get_children(&self, entity: Entity) -> (r: Vec<Entity>)
        requires
            self.wf(),
            self.live(entity),
        ensures
            r@ == self.children_of(entity),
    {
        let list = &self.slots[entity.index].children;
        let mut r: Vec<Entity> = Vec::new();
        let mut k: usize = 0;
        while k < list.len()
            invariant
                k <= list@.len(),
                r@ == list@.subrange(0, k as int),
            decreases list@.len() - k,
        {
            r.push(list[k]);
            proof {
                assert(r@ =~= list@.subrange(0, k + 1));
            }
            k = k + 1;
        }
        proof {
            assert(r@ =~= list@);
        }
        r
    }

    /// Walks the ancestor chain upward from `from` for at most as many
    /// steps as there are live entities, looking for `target`.
    fn ancestor_reaches(&self, from: Entity, target: Entity) -> (r: bool)
        requires
            self.wf(),
            self.live(from),
        ensures
            r == self.reaches_within(from, target, self.entities().len()),
    {
        let ghost n = self.entities().len();
        let mut cur = from;
        let mut fuel = self.roster.len();
        while fuel > 0
            invariant
                self.wf(),
                self.live(cur),
                n == self.entities().len(),
                fuel <= n,
                self.reaches_within(from, target, n) == self.reaches_within(
                    cur,
                    target,
                    fuel as nat,
                ),
            decreases fuel,
        {
            let po = self.slots[cur.index].parent;
            match po {
                None => {
                    proof {
                        assert(!self.reaches_within(cur, target, fuel as nat));
                    }
                    return false;
                },
                Some(p) => {
                    if p == target {
                        proof {
                            assert(self.reaches_within(cur, target, fuel as nat));
                        }
                        return true;
                    }
                    proof {
                        assert(self.reaches_within(cur, target, fuel as nat)
                            == self.reaches_within(p, target, (fuel - 1) as nat));
                    }
                    cur = p;
                    fuel = fuel - 1;
                },
            }
        }
        proof {
            assert(!self.reaches_within(cur, target, 0));
        }
        false
    }

    /// Detaches a live entity from its parent, if it has one: the child
    /// becomes a root and leaves the parent's children list.
    pub(crate) fn remove_parent(&mut self, child: Entity)
        requires
            old(self).wf(),
            old(self).live(child),
        ensures
            final(self).wf(),
            final(self).parent_of(child) is None,
            forall|e2: Entity| #[trigger] final(self).live(e2) == old(self).live(e2),
            forall|e2: Entity|
                old(self).live(e2) ==> #[trigger] final(self).comps(e2) == old(self).comps(e2),
            forall|e2: Entity|
                old(self).live(e2) && e2 != child ==> #[trigger] final(self).parent_of(e2) == old(
                    self,
                ).parent_of(e2),
            forall|p: Entity|
                old(self).live(p) ==> #[trigger] final(self).children_of(p) == if old(
                    self,
                ).parent_of(child) == Some(p) {
                    old(self).children_of(p).remove_value(child)
                } else {
                    old(self).children_of(p)
                },
            final(self).entities() == old(self).entities(),
            final(self).index@ == old(self).index@,
            final(self).resources@ == old(self).resources@,
            final(self).retired@ == old(self).retired@,
    {
        let ghost pre = *self;
        let po = self.slots[child.index].parent;
        match po {
            None => {
                proof {
                    assert forall|p: Entity|
                        pre.live(p) implies #[trigger] self.children_of(p) == if pre.parent_of(
                        child,
                    ) == Some(p) {
                        pre.children_of(p).remove_value(child)
                    } else {
                        pre.children_of(p)
                    } by {}
                }
            },
            Some(p) => {
                proof {
                    assert(pre.live(p) && p != child && pre.children_of(p).contains(child));
                    lemma_remove_value_props(pre.children_of(p), child);
                }
                let sp = &mut self.slots[p.index];
                remove_entity_value_in(sp, child);
                let sc = &mut self.slots[child.index];
                sc.parent = None;
                proof {
                    let post = *self;
                    assert(post.slots@.len() == pre.slots@.len());
                    assert(forall|i: int|
                        0 <= i < post.slots@.len() && i != p.index && i != child.index
                            ==> post.slots@[i] == pre.slots@[i]);
                    assert(post.slots@[p.index as int].children@ == pre.slots@[p.index
                        as int].children@.remove_value(child));
                    assert(post.slots@[p.index as int].parent == pre.slots@[p.index
                        as int].parent);
                    assert(post.slots@[p.index as int].alive == pre.slots@[p.index as int].alive);
                    assert(post.slots@[p.index as int].generation == pre.slots@[p.index
                        as int].generation);
                    assert(post.slots@[p.index as int].comps == pre.slots@[p.index as int].comps);
                    assert(post.slots@[child.index as int].parent is None);
                    assert(post.slots@[child.index as int].children == pre.slots@[child.index
                        as int].children);
                    assert(post.slots@[child.index as int].alive == pre.slots@[child.index
                        as int].alive);
                    assert(post.slots@[child.index as int].generation == pre.slots@[child.index
                        as int].generation);
                    assert(post.slots@[child.index as int].comps == pre.slots@[child.index
                        as int].comps);
                    assert(forall|e2: Entity| #[trigger] post.live(e2) == pre.live(e2));
                    assert forall|e2: Entity|
                        pre.live(e2) implies #[trigger] post.comps(e2) == pre.comps(e2) by {}
                    assert(post.wf_slots()) by {
                        assert forall|i: int| 0 <= i < post.slots@.len() implies {
                            let s = #[trigger] post.slots@[i];
                            if s.alive {
                                s.generation < u64::MAX
                            } else {
                                s.comps@ =~= Map::<u64, C>::empty() && s.parent is None
                                    && s.children@.len() == 0
                            }
                        } by {
                            if i == p.index {
                                assert(pre.slots@[i].alive);
                            } else if i == child.index {
                                assert(pre.slots@[i].alive);
                            }
                        }
                    }
                    assert(post.wf_index()) by {
                        assert(forall|t: u64, e2: Entity|
                            #[trigger] post.has_comp(e2, t) == pre.has_comp(e2, t));
                        assert forall|t: u64, k: int|
                            post.index@.dom().contains(t) && 0 <= k
                                < post.index@[t]@.len() implies post.has_comp(
                            #[trigger] post.index@[t]@[k],
                            t,
                        ) by {
                            assert(pre.has_comp(pre.index@[t]@[k], t));
                        }
                        assert forall|t: u64, e2: Entity|
                            #[trigger] post.has_comp(e2, t) implies post.index@.dom().contains(t)
                            && post.index@[t]@.contains(e2) by {
                            assert(pre.has_comp(e2, t));
                        }
                    }
                    assert(post.wf_rel()) by {
                        lemma_remove_value_props(pre.children_of(p), child);
                        assert forall|c: Entity|
                            #[trigger] post.live(c) implies match post.parent_of(c) {
                            Some(q) => q != c && post.live(q) && post.children_of(q).contains(c),
                            None => true,
                        } by {
                            assert(pre.live(c));
                            if c != child {
                                assert(post.parent_of(c) == pre.parent_of(c));
                                match pre.parent_of(c) {
                                    Some(q) => {
                                        if q == p {
                                            assert(c != child);
                                            assert(post.children_of(q).contains(c));
                                        } else {
                                            assert(post.children_of(q) == pre.children_of(q));
                                        }
                                    },
                                    None => {},
                                }
                            }
                        }
                        assert forall|q: Entity, k: int|
                            post.live(q) && 0 <= k < post.children_of(q).len() implies {
                            let c = #[trigger] post.children_of(q)[k];
                            c != q && post.live(c) && post.parent_of(c) == Some(q)
                        } by {
                            assert(pre.live(q));
                            if q == p {
                                let c = post.children_of(q)[k];
                                assert(post.children_of(q).contains(c));
                                assert(c != child);
                                assert(pre.children_of(q).contains(c));
                                let j = choose|j: int|
                                    0 <= j < pre.children_of(q).len() && pre.children_of(q)[j]
                                        == c;
                                assert(pre.children_of(q)[j] == c);
                            } else {
                                assert(post.children_of(q) == pre.children_of(q));
                                assert(pre.children_of(q)[k] == post.children_of(q)[k]);
                            }
                        }
                        assert forall|q: Entity| #[trigger] post.live(q) implies post.children_of(
                            q,
                        ).no_duplicates() by {
                            assert(pre.live(q));
                            if q != p {
                                assert(post.children_of(q) == pre.children_of(q));
                            }
                        }
                    }
                    assert forall|q: Entity|
                        pre.live(q) implies #[trigger] post.children_of(q) == if pre.parent_of(
                        child,
                    ) == Some(q) {
                        pre.children_of(q).remove_value(child)
                    } else {
                        pre.children_of(q)
                    } by {
                        if q != p {
                            assert(post.children_of(q) == pre.children_of(q));
                        }
                    }
                }
            },
        }
    }

    /// Makes `parent` the parent of `child`. Returns false and changes
    /// nothing when the two are the same entity or when `parent` already
    /// descends from `child`; otherwise the child leaves its old parent,
    /// joins the new parent's children, and the call returns true.
    pub(crate) fn set_parent(&mut self, child: Entity, parent: Entity) -> (r: bool)
        requires
            old(self).wf(),
            old(self).live(child),
            old(self).live(parent),
        ensures
            final(self).wf(),
            r == (child != parent && !old(self).reaches_within(
                parent,
                child,
                old(self).entities().len(),
            )),
            !r ==> *final(self) == *old(self),
            r ==> final(self).parent_of(child) == Some(parent),
            r ==> final(self).children_of(parent) == old(self).children_of(parent).remove_value(
                child,
            ).push(child),
            r ==> forall|e2: Entity|
                old(self).live(e2) && e2 != child ==> #[trigger] final(self).parent_of(e2) == old(
                    self,
                ).parent_of(e2),
            r ==> forall|q: Entity|
                old(self).live(q) && q != parent ==> #[trigger] final(self).children_of(q) == if
                    old(self).parent_of(child) == Some(q) {
                    old(self).children_of(q).remove_value(child)
                } else {
                    old(self).children_of(q)
                },
            forall|e2: Entity| #[trigger] final(self).live(e2) == old(self).live(e2),
            forall|e2: Entity|
                old(self).live(e2) ==> #[trigger] final(self).comps(e2) == old(self).comps(e2),
            final(self).entities() == old(self).entities(),
            final(self).index@ == old(self).index@,
            final(self).resources@ == old(self).resources@,
            final(self).retired@ == old(self).retired@,
    {
        if child == parent {
            return false;
        }
        if self.ancestor_reaches(parent, child) {
            return false;
        }
        let ghost pre = *self;
        self.remove_parent(child);
        let ghost mid = *self;
        proof {
            assert(!mid.children_of(parent).contains(child)) by {
                if mid.children_of(parent).contains(child) {
                    let k = choose|k: int|
                        0 <= k < mid.children_of(parent).len() && mid.children_of(parent)[k]
                            == child;
                    assert(mid.children_of(parent)[k] == child);
                    assert(mid.parent_of(child) == Some(parent));
                }
            }
            assert(mid.children_of(parent).no_duplicates());
            lemma_push_no_dup(mid.children_of(parent), child);
        }
        let sp = &mut self.slots[parent.index];
        push_child_in(sp, child);
        let sc = &mut self.slots[child.index];
        sc.parent = Some(parent);
        proof {
            let post = *self;
            assert(post.slots@.len() == mid.slots@.len());
            assert(forall|i: int|
                0 <= i < post.slots@.len() && i != parent.index && i != child.index
                    ==> post.slots@[i] == mid.slots@[i]);
            assert(post.slots@[parent.index as int].children@ == mid.slots@[parent.index
                as int].children@.push(child));
            assert(post.slots@[parent.index as int].parent == mid.slots@[parent.index
                as int].parent);
            assert(post.slots@[parent.index as int].alive == mid.slots@[parent.index
                as int].alive);
            assert(post.slots@[parent.index as int].generation == mid.slots@[parent.index
                as int].generation);
            assert(post.slots@[parent.index as int].comps == mid.slots@[parent.index
                as int].comps);
            assert(post.slots@[child.index as int].parent == Some(parent));
            assert(post.slots@[child.index as int].children == mid.slots@[child.index
                as int].children);
            assert(post.slots@[child.index as int].alive == mid.slots@[child.index
                as int].alive);
            assert(post.slots@[child.index as int].generation == mid.slots@[child.index
                as int].generation);
            assert(post.slots@[child.index as int].comps == mid.slots@[child.index
                as int].comps);
            assert(forall|e2: Entity| #[trigger] post.live(e2) == mid.live(e2));
            assert(forall|e2: Entity|
                mid.live(e2) ==> #[trigger] post.comps(e2) == mid.comps(e2));
            assert(post.wf_slots()) by {
                assert forall|i: int| 0 <= i < post.slots@.len() implies {
                    let s = #[trigger] post.slots@[i];
                    if s.alive {
                        s.generation < u64::MAX
                    } else {
                        s.comps@ =~= Map::<u64, C>::empty() && s.parent is None && s.children@.len()
                            == 0
                    }
                } by {
                    if i == parent.index || i == child.index {
                        assert(mid.slots@[i].alive);
                    }
                }
            }
            assert(post.wf_index()) by {
                assert(forall|t: u64, e2: Entity|
                    #[trigger] post.has_comp(e2, t) == mid.has_comp(e2, t));
                assert forall|t: u64, k: int|
                    post.index@.dom().contains(t) && 0 <= k < post.index@[t]@.len() implies post
                    .has_comp(#[trigger] post.index@[t]@[k], t) by {
                    assert(mid.has_comp(mid.index@[t]@[k], t));
                }
                assert forall|t: u64, e2: Entity| #[trigger] post.has_comp(e2, t) implies post
                    .index@.dom().contains(t) && post.index@[t]@.contains(e2) by {
                    assert(mid.has_comp(e2, t));
                }
            }
            assert(post.wf_rel()) by {
                lemma_push_no_dup(mid.children_of(parent), child);
                assert forall|c: Entity| #[trigger] post.live(c) implies match post.parent_of(c) {
                    Some(q) => q != c && post.live(q) && post.children_of(q).contains(c),
                    None => true,
                } by {
                    assert(mid.live(c));
                    if c == child {
                        assert(post.parent_of(c) == Some(parent));
                        assert(post.children_of(parent).contains(child));
                    } else {
                        assert(post.parent_of(c) == mid.parent_of(c));
                        match mid.parent_of(c) {
                            Some(q) => {
                                if q == parent {
                                    assert(mid.children_of(q).contains(c));
                                    assert(post.children_of(q).contains(c));
                                } else {
                                    assert(post.children_of(q) == mid.children_of(q));
                                }
                            },
                            None => {},
                        }
                    }
                }
                assert forall|q: Entity, k: int|
                    post.live(q) && 0 <= k < post.children_of(q).len() implies {
                    let c = #[trigger] post.children_of(q)[k];
                    c != q && post.live(c) && post.parent_of(c) == Some(q)
                } by {
                    assert(mid.live(q));
                    if q == parent {
                        let c = post.children_of(q)[k];
                        if k < mid.children_of(q).len() {
                            assert(c == mid.children_of(q)[k]);
                            assert(c != child);
                        } else {
                            assert(c == child);
                        }
                    } else {
                        assert(post.children_of(q) == mid.children_of(q));
                        assert(mid.children_of(q)[k] == post.children_of(q)[k]);
                    }
                }
                assert forall|q: Entity| #[trigger] post.live(q) implies post.children_of(
                    q,
                ).no_duplicates() by {
                    assert(mid.live(q));
                    if q != parent {
                        assert(post.children_of(q) == mid.children_of(q));
                    }
                }
            }
            assert(post.children_of(parent) == pre.children_of(parent).remove_value(child).push(
                child,
            )) by {
                assert(mid.children_of(parent) == if pre.parent_of(child) == Some(parent) {
                    pre.children_of(parent).remove_value(child)
                } else {
                    pre.children_of(parent)
                });
                if pre.parent_of(child) != Some(parent) {
                    assert(!pre.children_of(parent).contains(child)) by {
                        if pre.children_of(parent).contains(child) {
                            let k = choose|k: int|
                                0 <= k < pre.children_of(parent).len() && pre.children_of(
                                    parent,
                                )[k] == child;
                            assert(pre.children_of(parent)[k] == child);
                        }
                    }
                    pre.children_of(parent).index_of_first_ensures(child);
                    assert(pre.children_of(parent).remove_value(child) == pre.children_of(parent));
                }
            }
        }
        true
    }

    /// All live entities that currently have at least one child.
    pub(crate) fn get_entities_with_children(&self) -> (r: Vec<Entity>)
        requires
            self.wf(),
        ensures
            forall|e: Entity|
                #[trigger] r@.contains(e) <==> self.live(e) && self.children_of(e).len() > 0,
            r@.no_duplicates(),
    {
        self.collect_by_link(true)
    }

    /// All live entities that currently have a parent.
    pub(crate) fn get_entities_with_parent(&self) -> (r: Vec<Entity>)
        requires
            self.wf(),
        ensures
            forall|e: Entity|
                #[trigger] r@.contains(e) <==> self.live(e) && self.parent_of(e) is Some,
            r@.no_duplicates(),
    {
        self.collect_by_link(false)
    }

    /// Collects the live entities that carry the chosen kind of link:
    /// children when `want_children`, a parent otherwise.
    fn collect_by_link(&self, want_children: bool) -> (r: Vec<Entity>)
        requires
            self.wf(),
        ensures
            forall|e: Entity|
                #[trigger] r@.contains(e) <==> self.live(e) && if want_children {
                    self.children_of(e).len() > 0
                } else {
                    self.parent_of(e) is Some
                },
            r@.no_duplicates(),
    {
        let mut r: Vec<Entity> = Vec::new();
        let mut k: usize = 0;
        while k < self.roster.len()
            invariant
                self.wf(),
                k <= self.roster@.len(),
                forall|j: int|
                    0 <= j < k ==> ((if want_children {
                        self.children_of(#[trigger] self.roster@[j]).len() > 0
                    } else {
                        self.parent_of(self.roster@[j]) is Some
                    }) <==> r@.contains(self.roster@[j])),
                forall|i: int|
                    0 <= i < r@.len() ==> (if want_children {
                        self.children_of(#[trigger] r@[i]).len() > 0
                    } else {
                        self.parent_of(r@[i]) is Some
                    }) && self.roster@.subrange(0, k as int).contains(r@[i]),
                r@.no_duplicates(),
            decreases self.roster@.len() - k,
        {
            let e = self.roster[k];
            let hit: bool;
            {
                let s = &self.slots[e.index];
                if want_children {
                    hit = s.children.len() > 0;
                } else {
                    hit = s.parent.is_some();
                }
            }
            proof {
                assert(self.live(e));
            }
            if hit {
                proof {
                    assert(!r@.contains(e)) by {
                        if r@.contains(e) {
                            let i = choose|i: int| 0 <= i < r@.len() && r@[i] == e;
                            assert(self.roster@.subrange(0, k as int).contains(r@[i]));
                            let j = choose|j: int|
                                0 <= j < k && self.roster@.subrange(0, k as int)[j] == e;
                            assert(self.roster@[j] == e);
                            assert(self.roster@[k as int] == e);
                            assert(self.roster@[j].index < self.roster@[k as int].index);
                        }
                    }
                    lemma_push_no_dup(r@, e);
                }
                r.push(e);
            }
            k = k + 1;
            proof {
                let sub_old = self.roster@.subrange(0, k - 1);
                let sub_new = self.roster@.subrange(0, k as int);
                assert(sub_new[k - 1] == e);
                assert forall|i: int|
                    0 <= i < r@.len() implies (if want_children {
                    self.children_of(#[trigger] r@[i]).len() > 0
                } else {
                    self.parent_of(r@[i]) is Some
                }) && sub_new.contains(r@[i]) by {
                    if i < r@.len() - 1 || !hit {
                        assert(sub_old.contains(r@[i]));
                        let j = choose|j: int| 0 <= j < sub_old.len() && sub_old[j] == r@[i];
                        assert(sub_new[j] == r@[i]);
                    } else {
                        assert(r@[i] == e);
                    }
                }
                assert forall|j: int|
                    0 <= j < k implies ((if want_children {
                    self.children_of(#[trigger] self.roster@[j]).len() > 0
                } else {
                    self.parent_of(self.roster@[j]) is Some
                }) <==> r@.contains(self.roster@[j])) by {
                    if j == k - 1 {
                        if hit {
                            assert(r@[r@.len() - 1] == e);
                        } else {
                            if r@.contains(e) {
                                let i = choose|i: int| 0 <= i < r@.len() && r@[i] == e;
                            }
                        }
                    } else {
                        if hit && self.roster@[j] == e {
                            assert(self.roster@[j].index < self.roster@[k - 1].index);
                        }
                    }
                }
            }
        }
        proof {
            assert(self.roster@.subrange(0, self.roster@.len() as int) =~= self.roster@);
            assert forall|e: Entity|
                #[trigger] r@.contains(e) <==> self.live(e) && if want_children {
                self.children_of(e).len() > 0
            } else {
                self.parent_of(e) is Some
            } by {
                if r@.contains(e) {
                    let i = choose|i: int| 0 <= i < r@.len() && r@[i] == e;
                    assert(self.roster@.contains(e));
                }
                if self.live(e) && (if want_children {
                    self.children_of(e).len() > 0
                } else {
                    self.parent_of(e) is Some
                }) {
                    assert(self.roster@.contains(e));
                    let j = choose|j: int| 0 <= j < self.roster@.len() && self.roster@[j] == e;
                    assert(r@.contains(self.roster@[j]));
                }
            }
        }
        r
    }
}

/// Removes one occurrence of a handle from a slot's children list.
fn remove_entity_value_in<C>(slot: &mut Slot<C>, e: Entity)
    ensures
        final(slot).children@ == old(slot).children@.remove_value(e),
        final(slot).parent == old(slot).parent,
        final(slot).alive == old(slot).alive,
        final(slot).generation == old(slot).generation,
        final(slot).comps == old(slot).comps,
{
    remove_entity_value(&mut slot.children, e);
}

/// Appends a handle to a slot's children list.
fn push_child_in<C>(slot: &mut Slot<C>, e: Entity)
    ensures
        final(slot).children@ == old(slot).children@.push(e),
        final(slot).parent == old(slot).parent,
        final(slot).alive == old(slot).alive,
        final(slot).generation == old(slot).generation,
        final(slot).comps == old(slot).comps,
{
    slot.children.push(e);
}

} // verus!
