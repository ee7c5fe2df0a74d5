//! The storage core: generation-checked slots, per-entity component rows,
//! the tag index, parent/child links and resource records.
//!
//! `Store` carries an explicit well-formedness predicate; the public facade
//! wraps it behind a type invariant, so every value reachable from outside
//! the crate is well formed.

use vstd::prelude::*;

use crate::entity::Entity;
use crate::tag_map::TagMap;

verus! {

/// Entities in strictly increasing slot order; such a sequence has no
/// duplicates and its order is determined by its members.
pub(crate) open spec fn sorted_by_index(s: Seq<Entity>) -> bool {
    forall|a: int, b: int| 0 <= a < b < s.len() ==> s[a].index < s[b].index
}

/// Whether a list holds this exact handle.
pub(crate) fn contains_entity(list: &Vec<Entity>, e: Entity) -> (r: bool)
    ensures
        r == list@.contains(e),
{
    let mut k: usize = 0;
    while k < list.len()
        invariant
            k <= list@.len(),
            forall|j: int| 0 <= j < k ==> list@[j] != e,
        decreases list@.len() - k,
    {
        if list[k] == e {
            return true;
        }
        k = k + 1;
    }
    false
}

/// Inserts a handle into a list kept in increasing slot order.
pub(crate) fn insert_entity_sorted(list: &mut Vec<Entity>, e: Entity)
    requires
        sorted_by_index(old(list)@),
        forall|j: int| 0 <= j < old(list)@.len() ==> old(list)@[j].index != e.index,
    ensures
        sorted_by_index(final(list)@),
        final(list)@.len() == old(list)@.len() + 1,
        forall|x: Entity| final(list)@.contains(x) <==> old(list)@.contains(x) || x == e,
        exists|k: int|
            0 <= k <= old(list)@.len() && final(list)@ == old(list)@.insert(k, e),
{
    let ghost pre = old(list)@;
    let mut k: usize = 0;
    while k < list.len()
        invariant_except_break
            k <= list@.len(),
            list@ == pre,
            sorted_by_index(pre),
            forall|j: int| 0 <= j < k ==> pre[j].index < e.index,
            forall|j: int| 0 <= j < pre.len() ==> pre[j].index != e.index,
        ensures
            k <= pre.len(),
            list@ == pre,
            sorted_by_index(pre),
            forall|j: int| 0 <= j < k ==> pre[j].index < e.index,
            forall|j: int| 0 <= j < pre.len() ==> pre[j].index != e.index,
            k < pre.len() ==> pre[k as int].index >= e.index,
        decreases list@.len() - k,
    {
        if list[k].index >= e.index {
            break;
        }
        k = k + 1;
    }
    proof {
        assert forall|j: int| k <= j < pre.len() implies e.index < pre[j].index by {
            if k < j {
                assert(pre[k as int].index < pre[j].index);
            }
        }
    }
    list.insert(k, e);
    proof {
        let post = list@;
        assert(post == pre.insert(k as int, e));
        assert forall|a: int, b: int| 0 <= a < b < post.len() implies post[a].index
            < post[b].index by {
            if a < k && b < k {
                assert(post[a] == pre[a]);
                assert(post[b] == pre[b]);
            } else if a < k && b == k {
                assert(post[a] == pre[a]);
            } else if a < k {
                assert(post[a] == pre[a]);
                assert(post[b] == pre[b - 1]);
            } else if a == k {
                assert(post[b] == pre[b - 1]);
            } else {
                assert(post[a] == pre[a - 1]);
                assert(post[b] == pre[b - 1]);
            }
        }
        assert forall|x: Entity| final(list)@.contains(x) <==> pre.contains(x) || x == e by {
            if post.contains(x) {
                let j = choose|j: int| 0 <= j < post.len() && post[j] == x;
                if j < k {
                    assert(pre[j] == x);
                } else if j > k {
                    assert(pre[j - 1] == x);
                }
            }
            if pre.contains(x) {
                let j = choose|j: int| 0 <= j < pre.len() && pre[j] == x;
                if j < k {
                    assert(post[j] == x);
                } else {
                    assert(post[j + 1] == x);
                }
            }
            if x == e {
                assert(post[k as int] == x);
            }
        }
    }
}

/// Removes one occurrence of a handle from a list, if present.
pub(crate) fn remove_entity_value(list: &mut Vec<Entity>, e: Entity)
    ensures
        final(list)@ == old(list)@.remove_value(e),
{
    let mut k: usize = 0;
    while k < list.len()
        invariant
            k <= list@.len(),
            list@ == old(list)@,
            forall|j: int| 0 <= j < k ==> list@[j] != e,
        decreases list@.len() - k,
    {
        if list[k] == e {
            proof {
                list@.index_of_first_ensures(e);
                assert(list@[k as int] == e);
                assert(list@.index_of_first(e) == Some(k as int));
            }
            list.remove(k);
            return ;
        }
        k = k + 1;
    }
    proof {
        assert(!list@.contains(e)) by {
            if list@.contains(e) {
                let j = choose|j: int| 0 <= j < list@.len() && list@[j] == e;
                assert(list@[j] != e);
            }
        }
        list@.index_of_first_ensures(e);
    }
}

pub(crate) proof fn lemma_sorted_no_dup(s: Seq<Entity>)
    requires
        sorted_by_index(s),
    ensures
        s.no_duplicates(),
{
    assert forall|i: int, j: int|
        0 <= i < s.len() && 0 <= j < s.len() && i != j implies s[i] != s[j] by {
        if i < j {
            assert(s[i].index < s[j].index);
        } else {
            assert(s[j].index < s[i].index);
        }
    }
}

pub(crate) proof fn lemma_remove_value_sorted(s: Seq<Entity>, v: Entity)
    requires
        sorted_by_index(s),
    ensures
        sorted_by_index(s.remove_value(v)),
{
    s.index_of_first_ensures(v);
    match s.index_of_first(v) {
        Some(i) => {
            let s2 = s.remove(i);
            assert forall|a: int, b: int| 0 <= a < b < s2.len() implies s2[a].index
                < s2[b].index by {
                let aa = if a < i {
                    a
                } else {
                    a + 1
                };
                let bb = if b < i {
                    b
                } else {
                    b + 1
                };
                assert(s2[a] == s[aa]);
                assert(s2[b] == s[bb]);
            }
        },
        None => {},
    }
}

pub(crate) struct Slot<C> {
    pub(crate) alive: bool,
    pub(crate) generation: u64,
    pub(crate) comps: TagMap<C>,
    pub(crate) parent: Option<Entity>,
    pub(crate) children: Vec<Entity>,
}

pub(crate) struct Store<C, R> {
    pub(crate) slots: Vec<Slot<C>>,
    pub(crate) free: Vec<usize>,
    pub(crate) roster: Vec<Entity>,
    pub(crate) index: TagMap<Vec<Entity>>,
    pub(crate) resources: TagMap<R>,
    pub(crate) retired: Ghost<Set<Entity>>,
}

impl<C, R> Store<C, R> {
    /// A handle is live: its slot exists, is occupied, and carries the
    /// handle's generation.
    pub(crate) open spec fn live(self, e: Entity) -> bool {
        &&& e.index < self.slots@.len()
        &&& self.slots@[e.index as int].alive
        &&& self.slots@[e.index as int].generation == e.generation
    }

    /// The component records of an entity, by tag.
    pub(crate) open spec fn comps(self, e: Entity) -> Map<u64, C> {
        self.slots@[e.index as int].comps@
    }

    /// The parent link of an entity.
    pub(crate) open spec fn parent_of(self, e: Entity) -> Option<Entity> {
        self.slots@[e.index as int].parent
    }

    /// The children list of an entity; an entity with no children has the
    /// empty list.
    pub(crate) open spec fn children_of(self, e: Entity) -> Seq<Entity> {
        self.slots@[e.index as int].children@
    }

    /// All live entities, ordered by slot index.
    pub(crate) open spec fn entities(self) -> Seq<Entity> {
        self.roster@
    }

    /// Handles that were destroyed; they never become live again.
    pub(crate) open spec fn destroyed(self, e: Entity) -> bool {
        self.retired@.contains(e)
    }

    /// A live entity holds a component with this tag.
    pub(crate) open spec fn has_comp(self, e: Entity, t: u64) -> bool {
        self.live(e) && self.comps(e).dom().contains(t)
    }

    /// The entities holding a component with this tag, ordered by slot index.
    pub(crate) open spec fn with_tag(self, t: u64) -> Seq<Entity> {
        if self.index@.dom().contains(t) {
            self.index@[t]@
        } else {
            Seq::<Entity>::empty()
        }
    }

    /// A freed slot is waiting for reuse.
    pub(crate) open spec fn can_recycle(self) -> bool {
        self.free@.len() > 0
    }

    pub(crate) open spec fn wf_free(self) -> bool {
        &&& forall|k: int|
            0 <= k < self.free@.len() ==> {
                &&& (#[trigger] self.free@[k]) < self.slots@.len()
                &&& !self.slots@[self.free@[k] as int].alive
                &&& self.slots@[self.free@[k] as int].generation < u64::MAX
            }
        &&& forall|a: int, b: int|
            0 <= a < b < self.free@.len() ==> self.free@[a] != self.free@[b]
    }

    pub(crate) open spec fn wf_slots(self) -> bool {
        forall|i: int|
            0 <= i < self.slots@.len() ==> {
                let s = #[trigger] self.slots@[i];
                if s.alive {
                    s.generation < u64::MAX
                } else {
                    s.comps@ =~= Map::<u64, C>::empty() && s.parent is None && s.children@.len()
                        == 0
                }
            }
    }

    pub(crate) open spec fn wf_roster(self) -> bool {
        &&& forall|k: int|
            0 <= k < self.roster@.len() ==> self.live(#[trigger] self.roster@[k])
        &&& forall|e: Entity| #[trigger] self.live(e) ==> self.roster@.contains(e)
        &&& sorted_by_index(self.roster@)
    }

    pub(crate) open spec fn wf_index(self) -> bool {
        &&& forall|t: u64, k: int|
            self.index@.dom().contains(t) && 0 <= k < self.index@[t]@.len() ==> self.has_comp(
                #[trigger] self.index@[t]@[k],
                t,
            )
        &&& forall|t: u64, e: Entity| #[trigger] self.has_comp(e, t) ==> self.index@.dom().contains(
            t,
        ) && self.index@[t]@.contains(e)
        &&& forall|t: u64|
            self.index@.dom().contains(t) ==> sorted_by_index(#[trigger] self.index@[t]@)
    }

    pub(crate) open spec fn wf_rel(self) -> bool {
        &&& forall|c: Entity| #[trigger] self.live(c) ==> match self.parent_of(c) {
            Some(p) => p != c && self.live(p) && self.children_of(p).contains(c),
            None => true,
        }
        &&& forall|p: Entity, k: int|
            self.live(p) && 0 <= k < self.children_of(p).len() ==> {
                let c = #[trigger] self.children_of(p)[k];
                c != p && self.live(c) && self.parent_of(c) == Some(p)
            }
        &&& forall|p: Entity| #[trigger] self.live(p) ==> self.children_of(p).no_duplicates()
    }

    pub(crate) open spec fn wf_retired(self) -> bool {
        forall|e: Entity| #[trigger] self.retired@.contains(e) ==> e.index < self.slots@.len()
            && e.generation < self.slots@[e.index as int].generation
    }

    pub(crate) open spec fn wf(self) -> bool {
        &&& self.wf_free()
        &&& self.wf_slots()
        &&& self.wf_roster()
        &&& self.wf_index()
        &&& self.wf_rel()
        &&& self.wf_retired()
    }

    /// Both stores agree on this entity: liveness, components and links.
    pub(crate) open spec fn same_entity(pre: Self, post: Self, e: Entity) -> bool {
        &&& post.live(e) == pre.live(e)
        &&& post.comps(e) == pre.comps(e)
        &&& post.parent_of(e) == pre.parent_of(e)
        &&& post.children_of(e) == pre.children_of(e)
    }

    pub(crate) fn empty() -> (r: Self)
        ensures
            r.wf(),
            r.entities() =~= Seq::<Entity>::empty(),
            r.resources@ =~= Map::<u64, R>::empty(),
            r.index@ =~= Map::<u64, Vec<Entity>>::empty(),
            r.retired@ =~= Set::<Entity>::empty(),
            r.slots@.len() == 0,
    {
        Store {
            slots: Vec::new(),
            free: Vec::new(),
            roster: Vec::new(),
            index: TagMap::new(),
            resources: TagMap::new(),
            retired: Ghost(Set::empty()),
        }
    }

    /// The position in the roster where a handle with this slot index
    /// belongs, keeping the roster sorted.
    fn roster_position(&self, idx: usize) -> (k: usize)
        requires
            forall|a: int, b: int|
                0 <= a < b < self.roster@.len() ==> self.roster@[a].index < self.roster@[b].index,
        ensures
            k <= self.roster@.len(),
            forall|j: int| 0 <= j < k ==> self.roster@[j].index < idx,
            forall|j: int| k <= j < self.roster@.len() ==> idx <= self.roster@[j].index,
    {
        let mut k: usize = 0;
        while k < self.roster.len()
            invariant
                k <= self.roster@.len(),
                forall|j: int| 0 <= j < k ==> self.roster@[j].index < idx,
                forall|a: int, b: int|
                    0 <= a < b < self.roster@.len() ==> self.roster@[a].index
                        < self.roster@[b].index,
            decreases self.roster@.len() - k,
        {
            if self.roster[k].index >= idx {
                proof {
                    assert forall|j: int|
                        k <= j < self.roster@.len() implies idx <= self.roster@[j].index by {
                        if k < j {
                            assert(self.roster@[k as int].index < self.roster@[j].index);
                        }
                    }
                }
                return k;
            }
            k = k + 1;
        }
        k
    }

    /// Allocates a fresh entity: an empty slot is reused under its bumped
    /// generation, or a new slot is appended.
    #[verifier::rlimit(100)]
    pub(crate) fn add_entity(&mut self) -> (e: Entity)
        requires
            old(self).wf(),
        ensures
            final(self).wf(),
            final(self).live(e),
            !old(self).live(e),
            !old(self).destroyed(e),
            final(self).comps(e) =~= Map::<u64, C>::empty(),
            final(self).parent_of(e) is None,
            final(self).children_of(e) =~= Seq::<Entity>::empty(),
            forall|e2: Entity|
                e2 != e ==> #[trigger] final(self).live(e2) == old(self).live(e2),
            forall|e2: Entity|
                e2 != e && old(self).live(e2) ==> Self::same_entity(*old(self), *final(self), e2),
            final(self).index@ == old(self).index@,
            final(self).resources@ == old(self).resources@,
            final(self).retired@ == old(self).retired@,
            exists|k: int|
                0 <= k <= old(self).entities().len() && final(self).entities()
                    == old(self).entities().insert(k, e),
            !old(self).can_recycle() ==> final(self).entities() == old(self).entities().push(e),
    {
        proof {
            assert(forall|e2: Entity|
                old(self).live(e2) ==> #[trigger] old(self).roster@.contains(e2));
        }
        let e: Entity;
        let popped = self.free.pop();
        match popped {
            Some(i) => {
                let g = self.slots[i].generation;
                e = Entity { index: i, generation: g };
                let s = &mut self.slots[i];
                s.alive = true;
            },
            None => {
                let i = self.slots.len();
                e = Entity { index: i, generation: 0 };
                self.slots.push(
                    Slot {
                        alive: true,
                        generation: 0,
                        comps: TagMap::new(),
                        parent: None,
                        children: Vec::new(),
                    },
                );
            },
        }
        let pos = self.roster_position(e.index);
        self.roster.insert(pos, e);
        proof {
            let pre = *old(self);
            let post = *self;
            assert(post.live(e));
            assert(!pre.live(e));
            assert(forall|e2: Entity| e2 != e ==> post.live(e2) == pre.live(e2)) by {
                assert(forall|e2: Entity|
                    e2 != e && e2.index == e.index ==> !(#[trigger] post.live(e2)));
            }
            assert forall|k: int|
                0 <= k < post.roster@.len() implies post.live(#[trigger] post.roster@[k]) by {
                if k < pos {
                    assert(post.roster@[k] == pre.roster@[k]);
                } else if k > pos {
                    assert(post.roster@[k] == pre.roster@[k - 1]);
                }
            }
            assert forall|e2: Entity| #[trigger] post.live(e2) implies post.roster@.contains(
                e2,
            ) by {
                if e2 == e {
                    assert(post.roster@[pos as int] == e);
                } else {
                    let j = choose|j: int| 0 <= j < pre.roster@.len() && pre.roster@[j] == e2;
                    if j < pos {
                        assert(post.roster@[j] == e2);
                    } else {
                        assert(post.roster@[j + 1] == e2);
                    }
                }
            }
            assert forall|a: int, b: int|
                0 <= a < b < post.roster@.len() implies post.roster@[a].index
                < post.roster@[b].index by {
                assert forall|j: int|
                    0 <= j < pre.roster@.len() implies pre.roster@[j].index != e.index by {
                    assert(pre.live(pre.roster@[j]));
                }
                if a < pos && b > pos {
                    assert(post.roster@[a] == pre.roster@[a]);
                    assert(post.roster@[b] == pre.roster@[b - 1]);
                } else if a < pos && b == pos {
                    assert(post.roster@[a] == pre.roster@[a]);
                } else if a == pos {
                    assert(post.roster@[b] == pre.roster@[b - 1]);
                } else if b < pos {
                    assert(post.roster@[a] == pre.roster@[a]);
                    assert(post.roster@[b] == pre.roster@[b]);
                } else {
                    assert(post.roster@[a] == pre.roster@[a - 1]);
                    assert(post.roster@[b] == pre.roster@[b - 1]);
                }
            }
            assert(post.wf_index()) by {
                assert forall|t: u64, e2: Entity| #[trigger] post.has_comp(e2, t) implies post
                    .index@.dom().contains(t) && post.index@[t]@.contains(e2) by {
                    assert(pre.has_comp(e2, t));
                }
                assert forall|t: u64, k: int|
                    post.index@.dom().contains(t) && 0 <= k < post.index@[t]@.len() implies post
                    .has_comp(#[trigger] post.index@[t]@[k], t) by {
                    assert(pre.has_comp(pre.index@[t]@[k], t));
                }
            }
            assert(post.wf_rel()) by {
                assert forall|c: Entity| #[trigger] post.live(c) implies match post.parent_of(c) {
                    Some(p) => p != c && post.live(p) && post.children_of(p).contains(c),
                    None => true,
                } by {
                    if c != e {
                        assert(pre.live(c));
                    }
                }
                assert forall|p: Entity, k: int|
                    post.live(p) && 0 <= k < post.children_of(p).len() implies {
                    let c = #[trigger] post.children_of(p)[k];
                    c != p && post.live(c) && post.parent_of(c) == Some(p)
                } by {
                    if p != e {
                        assert(pre.live(p));
                        assert(pre.children_of(p)[k] == post.children_of(p)[k]);
                    }
                }
                assert forall|p: Entity| #[trigger] post.live(p) implies post.children_of(
                    p,
                ).no_duplicates() by {
                    if p != e {
                        assert(pre.live(p));
                    }
                }
            }
            assert(post.entities() == pre.entities().insert(pos as int, e)) by {
                assert(post.entities() =~= pre.entities().insert(pos as int, e));
            }
            if pre.free@.len() == 0 {
                assert(pos == pre.roster@.len()) by {
                    if pos < pre.roster@.len() {
                        assert(pre.live(pre.roster@[pos as int]));
                    }
                }
                assert(post.entities() =~= pre.entities().push(e));
            }
        }
        e
    }

    /// Whether this handle is live; a destroyed or never-issued handle
    /// answers false, even if its slot was reused.
    pub(crate) fn does_entity_exist(&self, entity: Entity) -> (r: bool)
        ensures
            r == self.live(entity),
    {
        if entity.index < self.slots.len() {
            let s = &self.slots[entity.index];
            s.alive && s.generation == entity.generation
        } else {
            false
        }
    }

    pub(crate) fn get_entity_count(&self) -> (r: usize)
        ensures
            r == self.entities().len(),
    {
        self.roster.len()
    }

    pub(crate) fn get_entities(&self) -> (r: Vec<Entity>)
        ensures
            r@ == self.entities(),
    {
        let mut r: Vec<Entity> = Vec::new();
        let mut k: usize = 0;
        while k < self.roster.len()
            invariant
                k <= self.roster@.len(),
                r@ == self.roster@.subrange(0, k as int),
            decreases self.roster@.len() - k,
        {
            r.push(self.roster[k]);
            proof {
                assert(r@ =~= self.roster@.subrange(0, k + 1));
            }
            k = k + 1;
        }
        proof {
            assert(r@ =~= self.roster@);
        }
        r
    }

    pub(crate) fn get_nth_entity(&self, n: usize) -> (r: Option<Entity>)
        ensures
            n < self.entities().len() ==> r == Some(self.entities()[n as int]),
            n >= self.entities().len() ==> r is None,
    {
        if n < self.roster.len() {
            Some(self.roster[n])
        } else {
            None
        }
    }

    /// Two live handles with the same slot index are the same handle.
    proof fn lemma_live_same_index(self, a: Entity, b: Entity)
        requires
            self.live(a),
            self.live(b),
            a.index == b.index,
        ensures
            a == b,
    {
    }

    /// Attaches a component record to a live entity, replacing any record
    /// already stored under the same tag, and indexes the entity under it.
    pub(crate) fn add_component(&mut self, entity: Entity, tag: u64, value: C)
        requires
            old(self).wf(),
            old(self).live(entity),
        ensures
            final(self).wf(),
            final(self).comps(entity) == old(self).comps(entity).insert(tag, value),
            forall|e2: Entity| #[trigger] final(self).live(e2) == old(self).live(e2),
            forall|e2: Entity|
                e2 != entity && old(self).live(e2) ==> Self::same_entity(
                    *old(self),
                    *final(self),
                    e2,
                ),
            final(self).parent_of(entity) == old(self).parent_of(entity),
            final(self).children_of(entity) == old(self).children_of(entity),
            final(self).entities() == old(self).entities(),
            final(self).resources@ == old(self).resources@,
            final(self).retired@ == old(self).retired@,
            forall|t: u64, e2: Entity|
                #[trigger] final(self).with_tag(t).contains(e2) <==> old(self).with_tag(
                    t,
                ).contains(e2) || (t == tag && e2 == entity),
    {
        let ghost pre = *self;
        let s = &mut self.slots[entity.index];
        s.comps.insert(tag, value);
        proof {
            assert(self.slots@.len() == pre.slots@.len());
            assert(forall|i: int|
                0 <= i < self.slots@.len() && i != entity.index ==> self.slots@[i]
                    == pre.slots@[i]);
            assert(self.slots@[entity.index as int].parent == pre.slots@[entity.index
                as int].parent);
            assert(self.slots@[entity.index as int].children == pre.slots@[entity.index
                as int].children);
            assert(self.slots@[entity.index as int].alive == pre.slots@[entity.index
                as int].alive);
            assert(self.slots@[entity.index as int].generation == pre.slots@[entity.index
                as int].generation);
            assert(forall|e2: Entity| #[trigger] self.live(e2) == pre.live(e2));
            assert(self.comps(entity) == pre.comps(entity).insert(tag, value));
            assert forall|t: u64, e2: Entity| #[trigger] self.has_comp(e2, t) == (pre.has_comp(
                e2,
                t,
            ) || (t == tag && e2 == entity)) by {
                if self.live(e2) {
                    if e2.index != entity.index {
                        assert(self.comps(e2) == pre.comps(e2));
                    } else {
                        self.lemma_live_same_index(e2, entity);
                    }
                }
            }
        }
        let ghost mid = *self;
        let mut list = match self.index.remove(tag) {
            Some(l) => l,
            None => Vec::new(),
        };
        let ghost prelist = list@;
        proof {
            if pre.index@.dom().contains(tag) {
                assert(prelist == pre.with_tag(tag));
            } else {
                assert(prelist =~= pre.with_tag(tag));
            }
            assert(sorted_by_index(prelist));
        }
        let present = contains_entity(&list, entity);
        if !present {
            proof {
                assert forall|j: int| 0 <= j < prelist.len() implies prelist[j].index
                    != entity.index by {
                    assert(pre.has_comp(prelist[j], tag));
                    if prelist[j].index == entity.index {
                        pre.lemma_live_same_index(prelist[j], entity);
                    }
                }
            }
            insert_entity_sorted(&mut list, entity);
        }
        proof {
            assert forall|x: Entity| list@.contains(x) <==> (prelist.contains(x) || x
                == entity) by {
                if present {
                    assert(list@ == prelist);
                }
            }
            assert(sorted_by_index(list@)) by {
                if present {
                    assert(list@ == prelist);
                }
            }
        }
        self.index.insert(tag, list);
        proof {
            let post = *self;
            assert(post.index@ =~= pre.index@.insert(tag, list));
            assert(post.slots == mid.slots);
            assert forall|t: u64, e2: Entity| #[trigger] post.has_comp(e2, t) == (pre.has_comp(
                e2,
                t,
            ) || (t == tag && e2 == entity)) by {
                assert(post.has_comp(e2, t) == mid.has_comp(e2, t));
                assert(mid.has_comp(e2, t) == (pre.has_comp(e2, t) || (t == tag && e2 == entity)));
            }
            assert(forall|e2: Entity| #[trigger] post.live(e2) == pre.live(e2));
            assert(forall|e2: Entity|
                e2 != entity && pre.live(e2) ==> Self::same_entity(pre, post, e2));
            assert forall|t: u64, e2: Entity|
                #[trigger] post.with_tag(t).contains(e2) <==> (pre.with_tag(t).contains(e2) || (t
                == tag && e2 == entity)) by {
                if t == tag {
                    assert(post.with_tag(t) == list@);
                } else {
                    if pre.index@.dom().contains(t) {
                        assert(post.with_tag(t) == pre.with_tag(t));
                    } else {
                        assert(post.with_tag(t) =~= pre.with_tag(t));
                    }
                }
            }
            assert(post.wf_index()) by {
                assert forall|t: u64, k: int|
                    post.index@.dom().contains(t) && 0 <= k < post.index@[t]@.len() implies post
                    .has_comp(#[trigger] post.index@[t]@[k], t) by {
                    let e2 = post.index@[t]@[k];
                    assert(post.with_tag(t).contains(e2));
                    assert(post.has_comp(e2, t) == (pre.has_comp(e2, t) || (t == tag && e2
                        == entity)));
                }
                assert forall|t: u64, e2: Entity| #[trigger] post.has_comp(e2, t) implies post
                    .index@.dom().contains(t) && post.index@[t]@.contains(e2) by {
                    if t == tag {
                        assert(post.index@[t]@ == list@);
                        if e2 != entity {
                            assert(pre.has_comp(e2, t));
                            assert(prelist.contains(e2));
                        }
                        assert(list@.contains(e2));
                    } else {
                        assert(pre.has_comp(e2, t));
                        assert(pre.index@.dom().contains(t));
                        assert(pre.index@[t]@.contains(e2));
                        assert(post.index@[t]@ == pre.index@[t]@);
                    }
                }
                assert forall|t: u64|
                    post.index@.dom().contains(t) implies sorted_by_index(
                    #[trigger] post.index@[t]@,
                ) by {
                    if t != tag {
                        assert(post.index@[t]@ == pre.index@[t]@);
                        assert(pre.index@.dom().contains(t));
                    }
                }
            }
            assert(post.wf_rel()) by {
                assert(forall|e2: Entity|
                    #[trigger] post.live(e2) ==> post.parent_of(e2) == pre.parent_of(e2)
                        && post.children_of(e2) == pre.children_of(e2));
                assert forall|c: Entity| #[trigger] post.live(c) implies match post.parent_of(c) {
                    Some(p) => p != c && post.live(p) && post.children_of(p).contains(c),
                    None => true,
                } by {
                    assert(pre.live(c));
                }
                assert forall|p: Entity, k: int|
                    post.live(p) && 0 <= k < post.children_of(p).len() implies {
                    let c = #[trigger] post.children_of(p)[k];
                    c != p && post.live(c) && post.parent_of(c) == Some(p)
                } by {
                    assert(pre.live(p));
                    assert(pre.children_of(p)[k] == post.children_of(p)[k]);
                }
                assert forall|p: Entity| #[trigger] post.live(p) implies post.children_of(
                    p,
                ).no_duplicates() by {
                    assert(pre.live(p));
                }
            }
        }
    }

    /// Detaches and returns the component record stored under a tag on a
    /// live entity, unindexing the entity from it.
    #[verifier::rlimit(100)]
    pub(crate) fn take_component(&mut self, entity: Entity, tag: u64) -> (r: Option<C>)
        requires
            old(self).wf(),
            old(self).live(entity),
        ensures
            final(self).wf(),
            final(self).comps(entity) == old(self).comps(entity).remove(tag),
            match r {
                Some(v) => old(self).comps(entity).dom().contains(tag) && v == old(self).comps(
                    entity,
                )[tag],
                None => !old(self).comps(entity).dom().contains(tag),
            },
            forall|e2: Entity| #[trigger] final(self).live(e2) == old(self).live(e2),
            forall|e2: Entity|
                e2 != entity && old(self).live(e2) ==> Self::same_entity(
                    *old(self),
                    *final(self),
                    e2,
                ),
            final(self).parent_of(entity) == old(self).parent_of(entity),
            final(self).children_of(entity) == old(self).children_of(entity),
            final(self).entities() == old(self).entities(),
            final(self).resources@ == old(self).resources@,
            final(self).retired@ == old(self).retired@,
            forall|t: u64, e2: Entity|
                #[trigger] final(self).with_tag(t).contains(e2) <==> old(self).with_tag(
                    t,
                ).contains(e2) && !(t == tag && e2 == entity),
    {
        let ghost pre = *self;
        let s = &mut self.slots[entity.index];
        let r = s.comps.remove(tag);
        proof {
            assert(self.slots@.len() == pre.slots@.len());
            assert(forall|i: int|
                0 <= i < self.slots@.len() && i != entity.index ==> self.slots@[i]
                    == pre.slots@[i]);
            assert(self.slots@[entity.index as int].parent == pre.slots@[entity.index
                as int].parent);
            assert(self.slots@[entity.index as int].children == pre.slots@[entity.index
                as int].children);
            assert(self.slots@[entity.index as int].alive == pre.slots@[entity.index
                as int].alive);
            assert(self.slots@[entity.index as int].generation == pre.slots@[entity.index
                as int].generation);
            assert(forall|e2: Entity| #[trigger] self.live(e2) == pre.live(e2));
            assert(self.comps(entity) == pre.comps(entity).remove(tag));
            assert forall|t: u64, e2: Entity| #[trigger] self.has_comp(e2, t) == (pre.has_comp(
                e2,
                t,
            ) && !(t == tag && e2 == entity)) by {
                if self.live(e2) {
                    if e2.index != entity.index {
                        assert(self.comps(e2) == pre.comps(e2));
                    } else {
                        self.lemma_live_same_index(e2, entity);
                    }
                }
            }
        }
        let ghost mid = *self;
        let mut list = match self.index.remove(tag) {
            Some(l) => l,
            None => Vec::new(),
        };
        let ghost prelist = list@;
        proof {
            if pre.index@.dom().contains(tag) {
                assert(prelist == pre.with_tag(tag));
            } else {
                assert(prelist =~= pre.with_tag(tag));
            }
            assert(sorted_by_index(prelist));
            prelist.index_of_first_ensures(entity);
        }
        remove_entity_value(&mut list, entity);
        proof {
            lemma_sorted_no_dup(prelist);
            crate::relations::lemma_remove_value_props(prelist, entity);
            lemma_remove_value_sorted(prelist, entity);
            assert(forall|x: Entity|
                list@.contains(x) <==> (prelist.contains(x) && x != entity));
        }
        self.index.insert(tag, list);
        proof {
            let post = *self;
            assert(post.index@ =~= pre.index@.insert(tag, list));
            assert(post.slots == mid.slots);
            assert forall|t: u64, e2: Entity| #[trigger] post.has_comp(e2, t) == (pre.has_comp(
                e2,
                t,
            ) && !(t == tag && e2 == entity)) by {
                assert(post.has_comp(e2, t) == mid.has_comp(e2, t));
                assert(mid.has_comp(e2, t) == (pre.has_comp(e2, t) && !(t == tag && e2 == entity)));
            }
            assert(forall|e2: Entity| #[trigger] post.live(e2) == pre.live(e2));
            assert(forall|e2: Entity|
                e2 != entity && pre.live(e2) ==> Self::same_entity(pre, post, e2));
            assert forall|t: u64, e2: Entity|
                #[trigger] post.with_tag(t).contains(e2) <==> (pre.with_tag(t).contains(e2) && !(t
                == tag && e2 == entity)) by {
                if t == tag {
                    assert(post.with_tag(t) == list@);
                } else {
                    if pre.index@.dom().contains(t) {
                        assert(post.with_tag(t) == pre.with_tag(t));
                    } else {
                        assert(post.with_tag(t) =~= pre.with_tag(t));
                    }
                }
            }
            assert(post.wf_index()) by {
                assert forall|t: u64, k: int|
                    post.index@.dom().contains(t) && 0 <= k < post.index@[t]@.len() implies post
                    .has_comp(#[trigger] post.index@[t]@[k], t) by {
                    let e2 = post.index@[t]@[k];
                    assert(post.with_tag(t).contains(e2));
                }
                assert forall|t: u64, e2: Entity| #[trigger] post.has_comp(e2, t) implies post
                    .index@.dom().contains(t) && post.index@[t]@.contains(e2) by {
                    assert(pre.has_comp(e2, t));
                    if t == tag {
                        assert(post.index@[t]@ == list@);
                        assert(prelist.contains(e2));
                        assert(list@.contains(e2));
                    } else {
                        assert(pre.index@.dom().contains(t));
                        assert(pre.index@[t]@.contains(e2));
                        assert(post.index@[t]@ == pre.index@[t]@);
                    }
                }
                assert forall|t: u64|
                    post.index@.dom().contains(t) implies sorted_by_index(
                    #[trigger] post.index@[t]@,
                ) by {
                    if t != tag {
                        assert(post.index@[t]@ == pre.index@[t]@);
                        assert(pre.index@.dom().contains(t));
                    }
                }
            }
            assert(post.wf_rel()) by {
                assert(forall|e2: Entity|
                    #[trigger] post.live(e2) ==> post.parent_of(e2) == pre.parent_of(e2)
                        && post.children_of(e2) == pre.children_of(e2));
                assert forall|c: Entity| #[trigger] post.live(c) implies match post.parent_of(c) {
                    Some(p) => p != c && post.live(p) && post.children_of(p).contains(c),
                    None => true,
                } by {
                    assert(pre.live(c));
                }
                assert forall|p: Entity, k: int|
                    post.live(p) && 0 <= k < post.children_of(p).len() implies {
                    let c = #[trigger] post.children_of(p)[k];
                    c != p && post.live(c) && post.parent_of(c) == Some(p)
                } by {
                    assert(pre.live(p));
                    assert(pre.children_of(p)[k] == post.children_of(p)[k]);
                }
                assert forall|p: Entity| #[trigger] post.live(p) implies post.children_of(
                    p,
                ).no_duplicates() by {
                    assert(pre.live(p));
                }
            }
        }
        r
    }

    /// The component record stored under a tag on a live entity, if any.
    pub(crate) fn try_get_component(&self, entity: Entity, tag: u64) -> (r: Option<&C>)
        requires
            self.wf(),
            self.live(entity),
        ensures
            match r {
                Some(v) => self.comps(entity).dom().contains(tag) && *v == self.comps(entity)[tag],
                None => !self.comps(entity).dom().contains(tag),
            },
    {
        self.slots[entity.index].comps.get(tag)
    }

    /// The tags under which a live entity holds component records, each
    /// exactly once.
    pub(crate) fn component_tags(&self, entity: Entity) -> (r: Vec<u64>)
        requires
            self.wf(),
            self.live(entity),
        ensures
            r@.no_duplicates(),
            forall|t: u64| r@.contains(t) <==> self.comps(entity).dom().contains(t),
    {
        self.slots[entity.index].comps.tags()
    }

    /// Whether a live entity holds a component record under a tag.
    pub(crate) fn has_component(&self, entity: Entity, tag: u64) -> (r: bool)
        requires
            self.wf(),
            self.live(entity),
        ensures
            r == self.comps(entity).dom().contains(tag),
    {
        self.slots[entity.index].comps.contains_tag(tag)
    }

    /// The entities currently holding a component under a tag, in slot
    /// order; empty when the tag was never used.
    pub(crate) fn get_entities_with_component(&self, tag: u64) -> (r: Vec<Entity>)
        requires
            self.wf(),
        ensures
            r@ == self.with_tag(tag),
    {
        match self.index.get(tag) {
            Some(list) => {
                let mut r: Vec<Entity> = Vec::new();
                let mut k: usize = 0;
                while k < list.len()
                    invariant
                        k <= list@.len(),
                        r@ == list@.subrange(0, k as int),
                    decreases list@.len() - k,
                {
                    r.push(list[k]);
                    proof {
                        assert(r@ =~= list@.subrange(0, k + 1));
                    }
                    k = k + 1;
                }
                proof {
                    assert(r@ =~= list@);
                }
                r
            },
            None => Vec::new(),
        }
    }

    pub(crate) fn get_entity_count_with_component(&self, tag: u64) -> (r: usize)
        requires
            self.wf(),
        ensures
            r == self.with_tag(tag).len(),
    {
        match self.index.get(tag) {
            Some(list) => list.len(),
            None => 0,
        }
    }

    /// The n-th entity holding a component under a tag, in slot order.
    pub(crate) fn get_entity_with_component(&self, tag: u64, n: usize) -> (r: Option<Entity>)
        requires
            self.wf(),
        ensures
            n < self.with_tag(tag).len() ==> r == Some(self.with_tag(tag)[n as int]),
            n >= self.with_tag(tag).len() ==> r is None,
    {
        match self.index.get(tag) {
            Some(list) => {
                if n < list.len() {
                    Some(list[n])
                } else {
                    None
                }
            },
            None => None,
        }
    }

    /// Destroys a live entity: it is detached from its parent, its children
    /// become roots, it leaves the tag index everywhere, and its slot is
    /// freed under a bumped generation, so the handle is stale forever.
    #[verifier::rlimit(100)]
    pub(crate) fn remove_entity(&mut self, entity: Entity)
        requires
            old(self).wf(),
            old(self).live(entity),
        ensures
            final(self).wf(),
            !final(self).live(entity),
            final(self).destroyed(entity),
            final(self).retired@ == old(self).retired@.insert(entity),
            forall|e2: Entity|
                e2 != entity ==> #[trigger] final(self).live(e2) == old(self).live(e2),
            forall|e2: Entity|
                e2 != entity && old(self).live(e2) ==> #[trigger] final(self).comps(e2) == old(
                    self,
                ).comps(e2),
            forall|e2: Entity|
                e2 != entity && old(self).live(e2) ==> #[trigger] final(self).parent_of(e2) == if
                    old(self).parent_of(e2) == Some(entity) {
                    None::<Entity>
                } else {
                    old(self).parent_of(e2)
                },
            forall|q: Entity|
                q != entity && old(self).live(q) ==> #[trigger] final(self).children_of(q) == if
                    old(self).parent_of(entity) == Some(q) {
                    old(self).children_of(q).remove_value(entity)
                } else {
                    old(self).children_of(q)
                },
            final(self).entities() == old(self).entities().remove_value(entity),
            forall|t: u64|
                #[trigger] final(self).with_tag(t) == old(self).with_tag(t).remove_value(entity),
            final(self).resources@ == old(self).resources@,
    {
        let ghost pre = *self;
        // Leave the old parent's children list.
        self.remove_parent(entity);
        let ghost base1 = *self;
        // Detach every child; each becomes a root.
        loop
            invariant
                self.wf(),
                self.live(entity),
                self.parent_of(entity) == base1.parent_of(entity),
                forall|e2: Entity| #[trigger] self.live(e2) == base1.live(e2),
                forall|e2: Entity|
                    base1.live(e2) ==> #[trigger] self.comps(e2) == base1.comps(e2),
                forall|e2: Entity|
                    base1.live(e2) && e2 != entity ==> #[trigger] self.parent_of(e2) == if
                        base1.parent_of(e2) == Some(entity) {
                        if self.children_of(entity).contains(e2) {
                            Some(entity)
                        } else {
                            None::<Entity>
                        }
                    } else {
                        base1.parent_of(e2)
                    },
                forall|q: Entity|
                    base1.live(q) && q != entity ==> #[trigger] self.children_of(q)
                        == base1.children_of(q),
                self.entities() == base1.entities(),
                self.index@ == base1.index@,
                self.resources@ == base1.resources@,
                self.retired@ == base1.retired@,
            ensures
                self.wf(),
                self.live(entity),
                self.children_of(entity).len() == 0,
                self.parent_of(entity) == base1.parent_of(entity),
                forall|e2: Entity| #[trigger] self.live(e2) == base1.live(e2),
                forall|e2: Entity|
                    base1.live(e2) ==> #[trigger] self.comps(e2) == base1.comps(e2),
                forall|e2: Entity|
                    base1.live(e2) && e2 != entity ==> #[trigger] self.parent_of(e2) == if
                        base1.parent_of(e2) == Some(entity) {
                        None::<Entity>
                    } else {
                        base1.parent_of(e2)
                    },
                forall|q: Entity|
                    base1.live(q) && q != entity ==> #[trigger] self.children_of(q)
                        == base1.children_of(q),
                self.entities() == base1.entities(),
                self.index@ == base1.index@,
                self.resources@ == base1.resources@,
                self.retired@ == base1.retired@,
            decreases self.children_of(entity).len(),
        {
            let more: bool;
            {
                let s = &self.slots[entity.index];
                more = s.children.len() > 0;
            }
            if !more {
                break ;
            }
            let c: Entity;
            {
                let s = &self.slots[entity.index];
                c = s.children[0];
            }
            proof {
                assert(self.children_of(entity)[0] == c);
                assert(c != entity && self.live(c) && self.parent_of(c) == Some(entity));
            }
            let ghost snap = *self;
            self.remove_parent(c);
            proof {
                assert(snap.children_of(entity).no_duplicates());
                crate::relations::lemma_remove_value_props(snap.children_of(entity), c);
                snap.children_of(entity).index_of_first_ensures(c);
                assert(self.children_of(entity) == snap.children_of(entity).remove_value(c));
                assert(self.children_of(entity).len() < snap.children_of(entity).len());
                assert(!self.children_of(entity).contains(c));
                assert forall|e2: Entity|
                    base1.live(e2) && e2 != entity implies #[trigger] self.parent_of(e2) == if
                    base1.parent_of(e2) == Some(entity) {
                    if self.children_of(entity).contains(e2) {
                        Some(entity)
                    } else {
                        None::<Entity>
                    }
                } else {
                    base1.parent_of(e2)
                } by {
                    if e2 != c {
                        assert(self.parent_of(e2) == snap.parent_of(e2));
                        assert(self.children_of(entity).contains(e2) == snap.children_of(
                            entity,
                        ).contains(e2));
                    }
                }
            }
        }
        let ghost base2 = *self;
        // Leave the tag index under every tag this entity holds.
        let tags: Vec<u64>;
        {
            let s = &self.slots[entity.index];
            tags = s.comps.tags();
        }
        let mut j: usize = 0;
        while j < tags.len()
            invariant
                j <= tags@.len(),
                base2.wf(),
                base2.live(entity),
                tags@.no_duplicates(),
                forall|t: u64| #[trigger] tags@.contains(t) <==> base2.comps(entity).dom().contains(
                    t,
                ),
                self.slots == base2.slots,
                self.roster == base2.roster,
                self.free == base2.free,
                self.resources == base2.resources,
                self.retired == base2.retired,
                forall|t: u64|
                    #[trigger] self.index@.dom().contains(t) == base2.index@.dom().contains(t),
                forall|t: u64|
                    tags@.subrange(0, j as int).contains(t) ==> #[trigger] self.with_tag(t)
                        == base2.with_tag(t).remove_value(entity),
                forall|t: u64|
                    !tags@.subrange(0, j as int).contains(t) ==> #[trigger] self.with_tag(t)
                        == base2.with_tag(t),
                forall|t: u64|
                    self.index@.dom().contains(t) ==> sorted_by_index(#[trigger] self.index@[t]@),
            decreases tags@.len() - j,
        {
            let ghost entry = *self;
            let t = tags[j];
            proof {
                assert(tags@[j as int] == t);
                assert(tags@.contains(t));
                assert(base2.has_comp(entity, t));
                assert(base2.index@.dom().contains(t));
                let sub = tags@.subrange(0, j as int);
                assert(!sub.contains(t)) by {
                    if sub.contains(t) {
                        let a = choose|a: int| 0 <= a < sub.len() && sub[a] == t;
                        assert(tags@[a] == t);
                        assert(tags@[j as int] == t);
                    }
                }
                assert(entry.with_tag(t) == base2.with_tag(t));
                assert(entry.index@.dom().contains(t));
            }
            let mut list = match self.index.remove(t) {
                Some(l) => l,
                None => Vec::new(),
            };
            proof {
                assert(self.index@ == entry.index@.remove(t));
                assert(list@ == entry.index@[t]@);
                assert(list@ == base2.with_tag(t));
            }
            remove_entity_value(&mut list, entity);
            let ghost newlist = list@;
            proof {
                assert(newlist == base2.with_tag(t).remove_value(entity));
                lemma_remove_value_sorted(base2.with_tag(t), entity);
                assert(sorted_by_index(newlist));
            }
            self.index.insert(t, list);
            j = j + 1;
            proof {
                assert(self.index@[t]@ == newlist);
                assert(self.index@.dom().contains(t));
                assert forall|t2: u64|
                    #[trigger] self.index@.dom().contains(t2) == base2.index@.dom().contains(
                    t2,
                ) by {
                    if t2 != t {
                        assert(self.index@.dom().contains(t2) == entry.index@.dom().contains(t2));
                    }
                }
                assert forall|t2: u64|
                    t2 != t implies #[trigger] self.with_tag(t2) == entry.with_tag(t2) by {
                    if entry.index@.dom().contains(t2) {
                        assert(self.index@[t2] == entry.index@[t2]);
                    }
                }
                assert(self.with_tag(t) == newlist);
                let sub_new = tags@.subrange(0, j as int);
                let sub_old = tags@.subrange(0, j - 1);
                assert(sub_new =~= sub_old.push(t));
                assert forall|t2: u64|
                    sub_new.contains(t2) implies #[trigger] self.with_tag(t2) == base2.with_tag(
                    t2,
                ).remove_value(entity) by {
                    if t2 == t {
                        assert(self.with_tag(t2) == newlist);
                    } else {
                        assert(sub_old.contains(t2)) by {
                            let a = choose|a: int| 0 <= a < sub_new.len() && sub_new[a] == t2;
                            assert(sub_new[a] == t2);
                            assert(a < sub_new.len() - 1);
                            assert(sub_old[a] == t2);
                        }
                        assert(entry.with_tag(t2) == base2.with_tag(t2).remove_value(entity));
                        assert(self.with_tag(t2) == entry.with_tag(t2));
                    }
                }
                assert forall|t2: u64|
                    !sub_new.contains(t2) implies #[trigger] self.with_tag(t2) == base2.with_tag(
                    t2,
                ) by {
                    assert(sub_new[sub_new.len() - 1] == t);
                    assert(t2 != t);
                    assert(!sub_old.contains(t2)) by {
                        if sub_old.contains(t2) {
                            let a = choose|a: int| 0 <= a < sub_old.len() && sub_old[a] == t2;
                            assert(sub_new[a] == t2);
                        }
                    }
                    assert(entry.with_tag(t2) == base2.with_tag(t2));
                    assert(self.with_tag(t2) == entry.with_tag(t2));
                }
                assert forall|t2: u64|
                    self.index@.dom().contains(t2) implies sorted_by_index(
                    #[trigger] self.index@[t2]@,
                ) by {
                    if t2 == t {
                        assert(self.index@[t2]@ == newlist);
                    } else {
                        assert(self.index@[t2] == entry.index@[t2]);
                        assert(entry.index@.dom().contains(t2));
                    }
                }
            }
        }
        let ghost base3 = *self;
        proof {
            assert(tags@.subrange(0, tags@.len() as int) =~= tags@);
            assert forall|t: u64|
                #[trigger] base3.with_tag(t) == base2.with_tag(t).remove_value(entity) by {
                if !tags@.contains(t) {
                    assert(base3.with_tag(t) == base2.with_tag(t));
                    assert(!base2.with_tag(t).contains(entity)) by {
                        if base2.with_tag(t).contains(entity) {
                            if base2.index@.dom().contains(t) {
                                let k = choose|k: int|
                                    0 <= k < base2.index@[t]@.len() && base2.index@[t]@[k]
                                        == entity;
                                assert(base2.has_comp(base2.index@[t]@[k], t));
                                assert(base2.comps(entity).dom().contains(t));
                                assert(tags@.contains(t));
                            } else {
                                assert(base2.with_tag(t) =~= Seq::<Entity>::empty());
                            }
                        }
                    }
                    base2.with_tag(t).index_of_first_ensures(entity);
                }
            }
            assert(forall|e2: Entity| #[trigger] base3.live(e2) == base2.live(e2));
            assert(forall|e2: Entity|
                base3.live(e2) ==> #[trigger] base3.comps(e2) == base2.comps(e2));
            assert(forall|e2: Entity|
                base3.live(e2) ==> #[trigger] base3.parent_of(e2) == base2.parent_of(e2)
                    && base3.children_of(e2) == base2.children_of(e2));
            assert forall|t: u64, e2: Entity| #[trigger] base3.has_comp(e2, t) == base2.has_comp(
                e2,
                t,
            ) by {
                if base3.live(e2) {
                    assert(base3.comps(e2) == base2.comps(e2));
                }
            }
        }
        // Clear the row, free the slot under a bumped generation, and leave
        // the roster.
        let g: u64;
        {
            let s = &mut self.slots[entity.index];
            g = s.generation;
            s.comps = TagMap::new();
            s.alive = false;
            s.generation = g + 1;
        }
        if g < u64::MAX - 1 {
            self.free.push(entity.index);
        }
        proof {
            lemma_sorted_no_dup(self.roster@);
        }
        remove_entity_value(&mut self.roster, entity);
        proof {
            self.retired@ = self.retired@.insert(entity);
        }
        proof {
            let post = *self;
            assert(post.slots@.len() == base3.slots@.len());
            assert(forall|i: int|
                0 <= i < post.slots@.len() && i != entity.index ==> post.slots@[i]
                    == base3.slots@[i]);
            assert(!post.slots@[entity.index as int].alive);
            assert(post.slots@[entity.index as int].generation == g + 1);
            assert(post.slots@[entity.index as int].comps@ =~= Map::<u64, C>::empty());
            assert(post.slots@[entity.index as int].parent is None);
            assert(post.slots@[entity.index as int].children@.len() == 0);
            assert(!post.live(entity));
            assert(post.index@ == base3.index@);
            assert forall|e2: Entity|
                e2 != entity implies #[trigger] post.live(e2) == base3.live(e2) by {
                if e2.index == entity.index {
                    if base3.live(e2) {
                        base3.lemma_live_same_index(e2, entity);
                    }
                    assert(!post.live(e2));
                }
            }
            assert forall|e2: Entity|
                e2 != entity && base3.live(e2) implies #[trigger] post.comps(e2) == base3.comps(e2)
                && post.parent_of(e2) == base3.parent_of(e2) && post.children_of(e2)
                == base3.children_of(e2) by {
                base3.lemma_live_same_index(e2, e2);
                if e2.index == entity.index {
                    base3.lemma_live_same_index(e2, entity);
                }
            }
            assert forall|t: u64, e2: Entity| #[trigger] post.has_comp(e2, t) == (base2.has_comp(
                e2,
                t,
            ) && e2 != entity) by {
                if e2 == entity {
                    assert(!post.live(e2));
                } else if post.live(e2) {
                    assert(base3.live(e2));
                    assert(post.comps(e2) == base3.comps(e2));
                } else {
                    assert(!base3.live(e2));
                }
            }
            assert(post.wf_free()) by {
                assert forall|k: int| 0 <= k < post.free@.len() implies {
                    &&& (#[trigger] post.free@[k]) < post.slots@.len()
                    &&& !post.slots@[post.free@[k] as int].alive
                    &&& post.slots@[post.free@[k] as int].generation < u64::MAX
                } by {
                    if k < base3.free@.len() {
                        assert(base3.free@[k] == post.free@[k]);
                        assert(base3.wf_free());
                        assert(base3.free@[k] != entity.index) by {
                            assert(!base3.slots@[base3.free@[k] as int].alive);
                            assert(base3.slots@[entity.index as int].alive);
                        }
                    }
                }
                assert forall|a: int, b: int|
                    0 <= a < b < post.free@.len() implies post.free@[a] != post.free@[b] by {
                    assert(base3.wf_free());
                    if b >= base3.free@.len() {
                        assert(post.free@[b] == entity.index);
                        assert(!base3.slots@[base3.free@[a] as int].alive);
                        assert(base3.slots@[entity.index as int].alive);
                    }
                }
            }
            assert(post.wf_slots()) by {
                assert(base3.wf_slots());
                assert forall|i: int| 0 <= i < post.slots@.len() implies {
                    let s = #[trigger] post.slots@[i];
                    if s.alive {
                        s.generation < u64::MAX
                    } else {
                        s.comps@ =~= Map::<u64, C>::empty() && s.parent is None && s.children@.len()
                            == 0
                    }
                } by {
                    if i != entity.index {
                        assert(post.slots@[i] == base3.slots@[i]);
                    }
                }
            }
            assert(post.roster@ == base3.roster@.remove_value(entity));
            assert(sorted_by_index(base3.roster@));
            lemma_sorted_no_dup(base3.roster@);
            crate::relations::lemma_remove_value_props(base3.roster@, entity);
            lemma_remove_value_sorted(base3.roster@, entity);
            assert(post.wf_roster()) by {
                assert forall|k: int|
                    0 <= k < post.roster@.len() implies post.live(#[trigger] post.roster@[k]) by {
                    assert(post.roster@.contains(post.roster@[k]));
                    assert(base3.roster@.contains(post.roster@[k]));
                    assert(post.roster@[k] != entity);
                    assert(base3.live(post.roster@[k]));
                }
                assert forall|e2: Entity| #[trigger] post.live(e2) implies post.roster@.contains(
                    e2,
                ) by {
                    assert(e2 != entity);
                    assert(base3.live(e2));
                    assert(base3.roster@.contains(e2));
                }
            }
            assert(post.wf_index()) by {
                assert forall|t: u64, k: int|
                    post.index@.dom().contains(t) && 0 <= k < post.index@[t]@.len() implies post
                    .has_comp(#[trigger] post.index@[t]@[k], t) by {
                    let e2 = post.index@[t]@[k];
                    assert(post.with_tag(t).contains(e2));
                    assert(base3.with_tag(t).contains(e2));
                    assert(base2.with_tag(t).remove_value(entity).contains(e2));
                    assert(base2.index@.dom().contains(t));
                    assert(sorted_by_index(base2.with_tag(t)));
                    lemma_sorted_no_dup(base2.with_tag(t));
                    crate::relations::lemma_remove_value_props(base2.with_tag(t), entity);
                    assert(e2 != entity);
                    assert(base2.with_tag(t).contains(e2));
                    let kk = choose|kk: int|
                        0 <= kk < base2.index@[t]@.len() && base2.index@[t]@[kk] == e2;
                    assert(base2.has_comp(base2.index@[t]@[kk], t));
                    assert(base2.has_comp(e2, t));
                }
                assert forall|t: u64, e2: Entity| #[trigger] post.has_comp(e2, t) implies post
                    .index@.dom().contains(t) && post.index@[t]@.contains(e2) by {
                    assert(base2.has_comp(e2, t) && e2 != entity);
                    assert(base2.index@.dom().contains(t));
                    assert(base2.index@[t]@.contains(e2));
                    assert(base2.with_tag(t).contains(e2));
                    assert(sorted_by_index(base2.with_tag(t)));
                    lemma_sorted_no_dup(base2.with_tag(t));
                    crate::relations::lemma_remove_value_props(base2.with_tag(t), entity);
                    assert(base2.with_tag(t).remove_value(entity).contains(e2));
                    assert(base3.with_tag(t).contains(e2));
                    assert(post.index@.dom().contains(t));
                }
                assert forall|t: u64|
                    post.index@.dom().contains(t) implies sorted_by_index(
                    #[trigger] post.index@[t]@,
                ) by {
                    assert(post.index@[t]@ == base3.index@[t]@);
                }
            }
            assert(post.wf_rel()) by {
                assert forall|c: Entity| #[trigger] post.live(c) implies match post.parent_of(c) {
                    Some(p) => p != c && post.live(p) && post.children_of(p).contains(c),
                    None => true,
                } by {
                    assert(c != entity);
                    assert(base2.live(c));
                    assert(post.parent_of(c) == base2.parent_of(c));
                    match base2.parent_of(c) {
                        Some(p) => {
                            assert(p != entity) by {
                                if p == entity {
                                    assert(base2.children_of(entity).contains(c));
                                }
                            }
                            assert(post.children_of(p) == base2.children_of(p));
                        },
                        None => {},
                    }
                }
                assert forall|p: Entity, k: int|
                    post.live(p) && 0 <= k < post.children_of(p).len() implies {
                    let c = #[trigger] post.children_of(p)[k];
                    c != p && post.live(c) && post.parent_of(c) == Some(p)
                } by {
                    assert(p != entity);
                    assert(base2.live(p));
                    assert(post.children_of(p) == base2.children_of(p));
                    assert(base2.children_of(p)[k] == post.children_of(p)[k]);
                    let c = post.children_of(p)[k];
                    assert(c != entity) by {
                        if c == entity {
                            assert(base2.parent_of(entity) == Some(p));
                            assert(base2.parent_of(entity) == base1.parent_of(entity));
                            assert(base1.parent_of(entity) is None);
                        }
                    }
                }
                assert forall|p: Entity| #[trigger] post.live(p) implies post.children_of(
                    p,
                ).no_duplicates() by {
                    assert(p != entity);
                    assert(base2.live(p));
                    assert(post.children_of(p) == base2.children_of(p));
                }
            }
            assert(post.wf_retired()) by {
                assert forall|e2: Entity| #[trigger] post.retired@.contains(e2) implies e2.index
                    < post.slots@.len() && e2.generation < post.slots@[e2.index
                    as int].generation by {
                    if e2 == entity {
                    } else {
                        assert(base3.retired@.contains(e2));
                        assert(base3.wf_retired());
                        if e2.index == entity.index {
                            assert(e2.generation < base3.slots@[e2.index as int].generation);
                        }
                    }
                }
            }
            assert forall|t: u64|
                #[trigger] post.with_tag(t) == pre.with_tag(t).remove_value(entity) by {
                assert(post.with_tag(t) == base3.with_tag(t));
                assert(base2.with_tag(t) == base1.with_tag(t));
                assert(base1.with_tag(t) == pre.with_tag(t));
            }
            assert forall|e2: Entity|
                e2 != entity && pre.live(e2) implies #[trigger] post.parent_of(e2) == if
                pre.parent_of(e2) == Some(entity) {
                None::<Entity>
            } else {
                pre.parent_of(e2)
            } by {
                assert(base1.live(e2));
                assert(base1.parent_of(e2) == pre.parent_of(e2));
                assert(base3.live(e2));
                assert(post.parent_of(e2) == base3.parent_of(e2));
                assert(base3.parent_of(e2) == base2.parent_of(e2));
            }
            assert forall|q: Entity|
                q != entity && pre.live(q) implies #[trigger] post.children_of(q) == if
                pre.parent_of(entity) == Some(q) {
                pre.children_of(q).remove_value(entity)
            } else {
                pre.children_of(q)
            } by {
                assert(base1.live(q));
                assert(base3.live(q));
                assert(post.children_of(q) == base3.children_of(q));
                assert(base3.children_of(q) == base2.children_of(q));
                assert(base2.children_of(q) == base1.children_of(q));
            }
            assert(post.entities() == pre.entities().remove_value(entity)) by {
                assert(base3.roster@ == pre.roster@);
            }
        }
    }
    /// Allocates a fresh entity already carrying the given tagged component
    /// records, in order; a later record under the same tag replaces an
    /// earlier one, exactly as repeated `add_component` calls would.
    pub(crate) fn add_entity_with(&mut self, comps: Vec<(u64, C)>) -> (e: Entity)
        requires
            old(self).wf(),
        ensures
            final(self).wf(),
            final(self).live(e),
            !old(self).live(e),
            !old(self).destroyed(e),
            final(self).comps(e) == crate::tag_map::map_of(comps@),
            final(self).parent_of(e) is None,
            final(self).children_of(e) =~= Seq::<Entity>::empty(),
            forall|e2: Entity|
                e2 != e ==> #[trigger] final(self).live(e2) == old(self).live(e2),
            forall|e2: Entity|
                e2 != e && old(self).live(e2) ==> Self::same_entity(*old(self), *final(self), e2),
            final(self).resources@ == old(self).resources@,
            final(self).retired@ == old(self).retired@,
            exists|k: int|
                0 <= k <= old(self).entities().len() && final(self).entities()
                    == old(self).entities().insert(k, e),
            !old(self).can_recycle() ==> final(self).entities() == old(self).entities().push(e),
            forall|t: u64, e2: Entity|
                #[trigger] final(self).with_tag(t).contains(e2) <==> old(self).with_tag(
                    t,
                ).contains(e2) || (e2 == e && crate::tag_map::map_of(comps@).dom().contains(t)),
    {
        let ghost pre = *self;
        let ghost orig = comps@;
        let e = self.add_entity();
        let ghost base = *self;
        let mut comps = comps;
        let ghost mut done: int = 0;
        proof {
            assert(self.comps(e) =~= crate::tag_map::map_of(orig.subrange(0, 0)));
            assert(comps@ == orig.skip(0));
        }
        while comps.len() > 0
            invariant
                self.wf(),
                self.live(e),
                0 <= done <= orig.len(),
                comps@ == orig.skip(done),
                self.comps(e) == crate::tag_map::map_of(orig.subrange(0, done)),
                self.parent_of(e) == base.parent_of(e),
                self.children_of(e) == base.children_of(e),
                forall|e2: Entity| #[trigger] self.live(e2) == base.live(e2),
                forall|e2: Entity|
                    e2 != e && base.live(e2) ==> Self::same_entity(base, *self, e2),
                self.entities() == base.entities(),
                self.resources@ == base.resources@,
                self.retired@ == base.retired@,
                forall|t: u64, e2: Entity|
                    #[trigger] self.with_tag(t).contains(e2) <==> base.with_tag(t).contains(e2) || (
                    e2 == e && crate::tag_map::map_of(orig.subrange(0, done)).dom().contains(t)),
            decreases comps@.len(),
        {
            let ghost entry = *self;
            let pair = comps.remove(0);
            proof {
                assert(orig.skip(done)[0] == pair);
                assert(orig[done] == pair);
                assert(comps@ =~= orig.skip(done + 1));
            }
            self.add_component(e, pair.0, pair.1);
            proof {
                assert(orig.subrange(0, done + 1) =~= orig.subrange(0, done).push(orig[done]));
                crate::tag_map::lemma_map_of_push(orig.subrange(0, done), pair.0, pair.1);
                assert(self.comps(e) == crate::tag_map::map_of(orig.subrange(0, done + 1)));
                done = done + 1;
                assert forall|e2: Entity|
                    e2 != e && base.live(e2) implies Self::same_entity(base, *self, e2) by {
                    assert(Self::same_entity(entry, *self, e2));
                }
            }
        }
        proof {
            assert(orig.subrange(0, done) =~= orig);
            assert(forall|e2: Entity|
                e2 != e && pre.live(e2) ==> Self::same_entity(pre, *self, e2)) by {
                assert(forall|e2: Entity|
                    e2 != e && pre.live(e2) ==> Self::same_entity(pre, base, e2)
                        && Self::same_entity(base, *self, e2));
            }
        }
        e
    }
}

} // verus!
