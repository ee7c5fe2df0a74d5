//! Resource records: one instance per type tag, independent of entities,
//! each ticked once at the start of every world tick.

use vstd::prelude::*;

use crate::entity::Entity;
use crate::store::sorted_by_index;
use crate::store::Store;

verus! {

/// A resource is a record that lives outside any entity and is ticked once
/// per frame, before any system runs.
///
/// `updated` is the specification of one tick; `update` must realise it.
/// An implementation written outside this crate is compiled without proof,
/// so the library's tick contract holds of it only as far as the
/// implementation honours this trait's stated contract.
pub trait Resource: Sized {
    /// The value this resource takes after one tick of its hook.
    spec fn updated(self) -> Self;

    /// The lifecycle hook, called once per tick.
    fn update(&mut self)
        ensures
            *final(self) == old(self).updated(),
    ;
}

impl Resource for () {
    open spec fn updated(self) -> Self {
        ()
    }

    fn update(&mut self) {
    }
}

impl<C, R> Store<C, R> {
    /// Well-formedness does not depend on the resource registry.
    pub(crate) proof fn lemma_wf_resources_irrelevant(pre: Self, post: Self)
        requires
            pre.wf(),
            post.slots == pre.slots,
            post.free == pre.free,
            post.roster == pre.roster,
            post.index == pre.index,
            post.retired == pre.retired,
        ensures
            post.wf(),
    {
        assert(forall|e2: Entity| #[trigger] post.live(e2) == pre.live(e2));
        assert(post.wf_free()) by {
            assert forall|k: int| 0 <= k < post.free@.len() implies {
                &&& (#[trigger] post.free@[k]) < post.slots@.len()
                &&& !post.slots@[post.free@[k] as int].alive
                &&& post.slots@[post.free@[k] as int].generation < u64::MAX
            } by {
                assert(pre.free@[k] == post.free@[k]);
            }
            assert forall|a: int, b: int|
                0 <= a < b < post.free@.len() implies post.free@[a] != post.free@[b] by {
                assert(pre.free@[a] == post.free@[a]);
                assert(pre.free@[b] == post.free@[b]);
            }
        }
        assert(post.wf_slots()) by {
            assert forall|i: int| 0 <= i < post.slots@.len() implies {
                let s = #[trigger] post.slots@[i];
                if s.alive {
                    s.generation < u64::MAX
                } else {
                    s.comps@ =~= Map::<u64, C>::empty() && s.parent is None && s.children@.len()
                        == 0
                }
            } by {
                assert(pre.slots@[i] == post.slots@[i]);
            }
        }
        assert(post.wf_roster()) by {
            assert forall|k: int|
                0 <= k < post.roster@.len() implies post.live(#[trigger] post.roster@[k]) by {
                assert(pre.roster@[k] == post.roster@[k]);
                assert(pre.live(pre.roster@[k]));
            }
            assert forall|e2: Entity| #[trigger] post.live(e2) implies post.roster@.contains(
                e2,
            ) by {
                assert(pre.live(e2));
            }
            assert forall|a: int, b: int|
                0 <= a < b < post.roster@.len() implies post.roster@[a].index
                < post.roster@[b].index by {
                assert(pre.roster@[a] == post.roster@[a]);
                assert(pre.roster@[b] == post.roster@[b]);
            }
        }
        assert(forall|e2: Entity, t: u64|
            #[trigger] post.has_comp(e2, t) == pre.has_comp(e2, t));
        assert(post.wf_index()) by {
            assert forall|t: u64, k: int|
                post.index@.dom().contains(t) && 0 <= k < post.index@[t]@.len() implies post
                .has_comp(#[trigger] post.index@[t]@[k], t) by {
                assert(pre.has_comp(pre.index@[t]@[k], t));
            }
            assert forall|t: u64, e2: Entity| #[trigger] post.has_comp(e2, t) implies post
                .index@.dom().contains(t) && post.index@[t]@.contains(e2) by {
                assert(pre.has_comp(e2, t));
            }
            assert forall|t: u64|
                post.index@.dom().contains(t) implies sorted_by_index(
                #[trigger] post.index@[t]@,
            ) by {
                assert(pre.index@.dom().contains(t));
            }
        }
        assert(post.wf_rel()) by {
            assert(forall|e2: Entity|
                #[trigger] post.live(e2) ==> post.parent_of(e2) == pre.parent_of(e2)
                    && post.children_of(e2) == pre.children_of(e2));
            assert forall|c: Entity| #[trigger] post.live(c) implies match post.parent_of(c) {
                Some(p) => p != c && post.live(p) && post.children_of(p).contains(c),
                None => true,
            } by {
                assert(pre.live(c));
            }
            assert forall|p: Entity, k: int|
                post.live(p) && 0 <= k < post.children_of(p).len() implies {
                let c = #[trigger] post.children_of(p)[k];
                c != p && post.live(c) && post.parent_of(c) == Some(p)
            } by {
                assert(pre.live(p));
                assert(pre.children_of(p)[k] == post.children_of(p)[k]);
            }
            assert forall|p: Entity| #[trigger] post.live(p) implies post.children_of(
                p,
            ).no_duplicates() by {
                assert(pre.live(p));
            }
        }
        assert(post.wf_retired()) by {
            assert forall|e2: Entity| #[trigger] post.retired@.contains(e2) implies e2.index
                < post.slots@.len() && e2.generation < post.slots@[e2.index
                as int].generation by {
                assert(pre.retired@.contains(e2));
            }
        }
    }

    /// Stores a resource under a tag, replacing any resource already there.
    pub(crate) fn add_resource(&mut self, tag: u64, resource: R)
        requires
            old(self).wf(),
        ensures
            final(self).wf(),
            final(self).resources@ == old(self).resources@.insert(tag, resource),
            final(self).slots == old(self).slots,
            final(self).roster == old(self).roster,
            final(self).free == old(self).free,
            final(self).index == old(self).index,
            final(self).retired == old(self).retired,
    {
        self.resources.insert(tag, resource);
        proof {
            Self::lemma_wf_resources_irrelevant(*old(self), *self);
        }
    }

    /// Removes and returns the resource stored under a tag, if any.
    pub(crate) fn remove_resource(&mut self, tag: u64) -> (r: Option<R>)
        requires
            old(self).wf(),
        ensures
            final(self).wf(),
            final(self).resources@ == old(self).resources@.remove(tag),
            match r {
                Some(v) => old(self).resources@.dom().contains(tag) && v == old(
                    self,
                ).resources@[tag],
                None => !old(self).resources@.dom().contains(tag),
            },
            final(self).slots == old(self).slots,
            final(self).roster == old(self).roster,
            final(self).free == old(self).free,
            final(self).index == old(self).index,
            final(self).retired == old(self).retired,
    {
        let r = self.resources.remove(tag);
        proof {
            Self::lemma_wf_resources_irrelevant(*old(self), *self);
        }
        r
    }

    /// The resource stored under a tag, if any.
    pub(crate) fn get_resource(&self, tag: u64) -> (r: Option<&R>)
        requires
            self.wf(),
        ensures
            match r {
                Some(v) => self.resources@.dom().contains(tag) && *v == self.resources@[tag],
                None => !self.resources@.dom().contains(tag),
            },
    {
        self.resources.get(tag)
    }
}

impl<C, R: Resource> Store<C, R> {
    /// Ticks every resource exactly once: each stored record is replaced by
    /// its `updated` value; nothing else changes.
    pub(crate) fn update_resources(&mut self)
        requires
            old(self).wf(),
        ensures
            final(self).wf(),
            final(self).resources@.dom() == old(self).resources@.dom(),
            forall|t: u64|
                old(self).resources@.dom().contains(t) ==> #[trigger] final(self).resources@[t]
                    == old(self).resources@[t].updated(),
            final(self).slots == old(self).slots,
            final(self).roster == old(self).roster,
            final(self).free == old(self).free,
            final(self).index == old(self).index,
            final(self).retired == old(self).retired,
    {
        let ghost base = *self;
        let tags = self.resources.tags();
        let mut j: usize = 0;
        while j < tags.len()
            invariant
                j <= tags@.len(),
                tags@.no_duplicates(),
                forall|t: u64| #[trigger] tags@.contains(t) <==> base.resources@.dom().contains(t),
                self.slots == base.slots,
                self.roster == base.roster,
                self.free == base.free,
                self.index == base.index,
                self.retired == base.retired,
                self.resources@.dom() == base.resources@.dom(),
                forall|t: u64|
                    tags@.subrange(0, j as int).contains(t) ==> #[trigger] self.resources@[t]
                        == base.resources@[t].updated(),
                forall|t: u64|
                    base.resources@.dom().contains(t) && !tags@.subrange(0, j as int).contains(t)
                        ==> #[trigger] self.resources@[t] == base.resources@[t],
            decreases tags@.len() - j,
        {
            let ghost entry = *self;
            let t = tags[j];
            proof {
                assert(tags@[j as int] == t);
                assert(tags@.contains(t));
                assert(base.resources@.dom().contains(t));
                let sub = tags@.subrange(0, j as int);
                assert(!sub.contains(t)) by {
                    if sub.contains(t) {
                        let a = choose|a: int| 0 <= a < sub.len() && sub[a] == t;
                        assert(tags@[a] == t);
                        assert(tags@[j as int] == t);
                    }
                }
                assert(entry.resources@[t] == base.resources@[t]);
            }
            let taken = self.resources.remove(t);
            let mut resource = taken.unwrap();
            resource.update();
            self.resources.insert(t, resource);
            j = j + 1;
            proof {
                assert(self.resources@[t] == base.resources@[t].updated());
                assert(self.resources@.dom() =~= base.resources@.dom());
                let sub_new = tags@.subrange(0, j as int);
                let sub_old = tags@.subrange(0, j - 1);
                assert(sub_new =~= sub_old.push(t));
                assert forall|t2: u64|
                    sub_new.contains(t2) implies #[trigger] self.resources@[t2]
                    == base.resources@[t2].updated() by {
                    if t2 != t {
                        assert(sub_old.contains(t2)) by {
                            let a = choose|a: int| 0 <= a < sub_new.len() && sub_new[a] == t2;
                            assert(a < sub_new.len() - 1);
                            assert(sub_old[a] == t2);
                        }
                        assert(self.resources@[t2] == entry.resources@[t2]);
                    }
                }
                assert forall|t2: u64|
                    base.resources@.dom().contains(t2) && !sub_new.contains(t2) implies
                    #[trigger] self.resources@[t2] == base.resources@[t2] by {
                    assert(sub_new[sub_new.len() - 1] == t);
                    assert(t2 != t);
                    assert(!sub_old.contains(t2)) by {
                        if sub_old.contains(t2) {
                            let a = choose|a: int| 0 <= a < sub_old.len() && sub_old[a] == t2;
                            assert(sub_new[a] == t2);
                        }
                    }
                    assert(self.resources@[t2] == entry.resources@[t2]);
                }
            }
        }
        proof {
            assert(tags@.subrange(0, tags@.len() as int) =~= tags@);
            Self::lemma_wf_resources_irrelevant(base, *self);
        }
    }
}

} // verus!
