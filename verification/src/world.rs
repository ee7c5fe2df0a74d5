//! The scheduler: a world owns the store and an ordered list of systems and
//! runs one tick in ordered phases.
//!
//! One `run` call is one tick: first every resource is ticked once, then
//! every system that opts into the prestep phase reads the shared store,
//! then every system that opts into the per-entity phase is applied to each
//! entity through an entity-scoped accessor, and finally every system's
//! full-access step runs in registration order.

use vstd::prelude::*;

use crate::accessor::EntitiesAndComponents;
use crate::resources::Resource;
use crate::single::SingleMutEntity;

verus! {

/// Names one registered system, for later removal.
#[derive(Clone, Copy, PartialEq, Eq, Structural, Hash, Debug)]
pub struct SystemHandle {
    id: u64,
}

impl SystemHandle {
    /// The registration number behind this handle.
    pub closed spec fn id_of(self) -> u64 {
        self.id
    }
}

/// A behaviour unit invoked once per tick in up to three roles. Every role
/// has a no-op default; a system opts into the prestep and per-entity roles
/// by answering true from the matching `implements_` method.
pub trait System<C, R>: Sized {
    /// The type tag this system registers under; `remove_all_systems_of_type`
    /// matches against it.
    spec fn kind_spec(self) -> u64;

    /// The type tag this system registers under.
    fn kind(&self) -> (r: u64)
        ensures
            r == self.kind_spec(),
    ;

    /// Read-only look at the whole store before the per-entity phase; may
    /// cache data in the system's own state.
    fn prestep(&mut self, _engine: &EntitiesAndComponents<C, R>) {
    }

    /// Whether `prestep` should be called each tick.
    fn implements_prestep(&self) -> bool {
        false
    }

    /// Applied once per entity, with access scoped to that entity alone.
    fn single_entity_step(&self, _entity: &mut SingleMutEntity<C, R>) {
    }

    /// Whether `single_entity_step` should be called each tick.
    fn implements_single_entity_step(&self) -> bool {
        false
    }

    /// Full, exclusive access to the store; runs in registration order
    /// after the other phases.
    fn run(&mut self, _engine: &mut EntitiesAndComponents<C, R>) {
    }
}

impl<C, R> System<C, R> for () {
    open spec fn kind_spec(self) -> u64 {
        0
    }

    fn kind(&self) -> u64 {
        0
    }
}

/// The store together with an ordered collection of systems.
pub struct World<C, R, S> {
    /// The entities, components, links and resources this world owns.
    pub entities_and_components: EntitiesAndComponents<C, R>,
    systems: Vec<(u64, S)>,
    next_system_id: u64,
}

impl<C, R, S> World<C, R, S> {
    /// The store this world owns (spec-level view of the public field).
    pub closed spec fn ec(self) -> EntitiesAndComponents<C, R> {
        self.entities_and_components
    }

    /// The registered systems with their registration numbers, in order.
    pub closed spec fn sys_seq(self) -> Seq<(u64, S)> {
        self.systems@
    }

    /// The registration numbers of the systems, in order.
    pub open spec fn sys_ids(self) -> Seq<u64> {
        self.sys_seq().map_values(|p: (u64, S)| p.0)
    }

    /// The next registration number to be handed out; every registered
    /// number lies below it.
    pub closed spec fn sys_bound(self) -> u64 {
        self.next_system_id
    }

    /// Registration numbers never reach the bound, so a fresh handle never
    /// collides with a registered one.
    pub open spec fn sys_wf(self) -> bool {
        forall|i: int|
            0 <= i < self.sys_seq().len() ==> (#[trigger] self.sys_seq()[i]).0 < self.sys_bound()
    }

    /// Creates a world with an empty store and no systems.
    pub fn new() -> (r: Self)
        ensures
            r.sys_seq() =~= Seq::<(u64, S)>::empty(),
            r.sys_wf(),
            r.ec().entity_list() =~= Seq::<crate::entity::Entity>::empty(),
            r.ec().resources() =~= Map::<u64, R>::empty(),
            forall|e: crate::entity::Entity| !(#[trigger] r.ec().live(e)),
            forall|e: crate::entity::Entity| !(#[trigger] r.ec().destroyed(e)),
            forall|t: u64|
                #[trigger] r.ec().with_component(t) =~= Seq::<
                    crate::entity::Entity,
                >::empty(),
    {
        World {
            entities_and_components: EntitiesAndComponents::new(),
            systems: Vec::new(),
            next_system_id: 0,
        }
    }

    /// Registers a system; the handle names it for later removal and is
    /// distinct from the handle of every system registered so far.
    pub fn add_system(&mut self, system: S) -> (h: SystemHandle)
        requires
            old(self).sys_bound() < u64::MAX,
        ensures
            final(self).sys_seq() == old(self).sys_seq().push((h.id_of(), system)),
            final(self).ec() == old(self).ec(),
            h.id_of() == old(self).sys_bound(),
            final(self).sys_bound() == old(self).sys_bound() + 1,
            old(self).sys_wf() ==> final(self).sys_wf(),
            old(self).sys_wf() ==> forall|i: int|
                0 <= i < old(self).sys_seq().len() ==> (#[trigger] old(self).sys_seq()[i]).0
                    != h.id_of(),
    {
        let h = SystemHandle { id: self.next_system_id };
        self.systems.push((self.next_system_id, system));
        self.next_system_id = self.next_system_id + 1;
        proof {
            if old(self).sys_wf() {
                assert forall|i: int|
                    0 <= i < self.sys_seq().len() implies (#[trigger] self.sys_seq()[i]).0
                    < self.sys_bound() by {
                    if i < self.sys_seq().len() - 1 {
                        assert(self.sys_seq()[i] == old(self).sys_seq()[i]);
                    }
                }
            }
        }
        h
    }

    /// Unregisters the first system registered under this handle's number,
    /// if one is present; registration order of the rest is kept.
    pub fn remove_system(&mut self, system: SystemHandle)
        ensures
            final(self).ec() == old(self).ec(),
            final(self).sys_bound() == old(self).sys_bound(),
            old(self).sys_wf() ==> final(self).sys_wf(),
            (exists|i: int|
                {
                    &&& 0 <= i < old(self).sys_seq().len()
                    &&& old(self).sys_seq()[i].0 == system.id_of()
                    &&& (forall|j: int|
                        0 <= j < i ==> (#[trigger] old(self).sys_seq()[j]).0 != system.id_of())
                    &&& final(self).sys_seq() == old(self).sys_seq().remove(i)
                }) || ((forall|j: int|
                0 <= j < old(self).sys_seq().len() ==> (#[trigger] old(self).sys_seq()[j]).0
                    != system.id_of()) && final(self).sys_seq() == old(self).sys_seq()),
    {
        let mut k: usize = 0;
        while k < self.systems.len()
            invariant
                k <= self.systems@.len(),
                self.systems@ == old(self).systems@,
                self.next_system_id == old(self).next_system_id,
                self.entities_and_components == old(self).entities_and_components,
                forall|j: int| 0 <= j < k ==> (#[trigger] self.systems@[j]).0 != system.id,
            decreases self.systems@.len() - k,
        {
            let hit: bool;
            {
                let item = &self.systems[k];
                hit = item.0 == system.id;
            }
            if hit {
                self.systems.remove(k);
                proof {
                    assert(0 <= k < old(self).sys_seq().len());
                    assert(old(self).sys_seq()[k as int].0 == system.id_of());
                    assert(self.sys_seq() == old(self).sys_seq().remove(k as int));
                    if old(self).sys_wf() {
                        assert forall|i: int|
                            0 <= i < self.sys_seq().len() implies (#[trigger] self.sys_seq()[i]).0
                            < self.sys_bound() by {
                            if i < k {
                                assert(self.sys_seq()[i] == old(self).sys_seq()[i]);
                            } else {
                                assert(self.sys_seq()[i] == old(self).sys_seq()[i + 1]);
                            }
                        }
                    }
                }
                return ;
            }
            k = k + 1;
        }
    }

    /// Unregisters every system.
    pub fn remove_all_systems(&mut self)
        ensures
            final(self).sys_seq() =~= Seq::<(u64, S)>::empty(),
            final(self).ec() == old(self).ec(),
            final(self).sys_bound() == old(self).sys_bound(),
            final(self).sys_wf(),
    {
        self.systems.clear();
    }
}

impl<C, R, S: System<C, R>> World<C, R, S> {
    /// Unregisters every system registered under this kind tag; the rest
    /// keep their order.
    pub fn remove_all_systems_of_type(&mut self, kind: u64)
        ensures
            final(self).ec() == old(self).ec(),
            final(self).sys_seq() == old(self).sys_seq().filter(
                |p: (u64, S)| p.1.kind_spec() != kind,
            ),
            final(self).sys_bound() == old(self).sys_bound(),
            old(self).sys_wf() ==> final(self).sys_wf(),
    {
        let ghost pred = |p: (u64, S)| p.1.kind_spec() != kind;
        let ghost orig = self.systems@;
        let mut rest = Vec::new();
        std::mem::swap(&mut rest, &mut self.systems);
        let mut kept: Vec<(u64, S)> = Vec::new();
        let ghost mut done: int = 0;
        proof {
            assert(kept@ =~= orig.subrange(0, 0).filter(pred)) by {
                reveal(Seq::filter);
            }
            assert(rest@ =~= orig.skip(0));
        }
        while rest.len() > 0
            invariant
                0 <= done <= orig.len(),
                rest@ == orig.skip(done),
                kept@ == orig.subrange(0, done).filter(pred),
                pred == (|p: (u64, S)| p.1.kind_spec() != kind),
                self.entities_and_components == old(self).entities_and_components,
                self.next_system_id == old(self).next_system_id,
                orig == old(self).systems@,
                old(self).sys_wf() ==> forall|i: int|
                    0 <= i < kept@.len() ==> (#[trigger] kept@[i]).0 < old(self).sys_bound(),
            decreases rest@.len(),
        {
            let item = rest.remove(0);
            proof {
                assert(orig.skip(done)[0] == item);
                assert(orig[done] == item);
                assert(rest@ =~= orig.skip(done + 1));
            }
            let keep_it = item.1.kind() != kind;
            if keep_it {
                proof {
                    if old(self).sys_wf() {
                        assert(old(self).sys_seq()[done].0 < old(self).sys_bound());
                    }
                }
                kept.push(item);
            }
            proof {
                let sub_old = orig.subrange(0, done);
                let sub_new = orig.subrange(0, done + 1);
                assert(sub_new.drop_last() =~= sub_old);
                assert(sub_new.last() == orig[done]);
                assert(sub_new.filter(pred) == if pred(orig[done]) {
                    sub_old.filter(pred).push(orig[done])
                } else {
                    sub_old.filter(pred)
                }) by {
                    reveal(Seq::filter);
                }
                done = done + 1;
            }
        }
        proof {
            assert(orig.subrange(0, orig.len() as int) =~= orig);
        }
        self.systems = kept;
    }

    /// The registration-number bound never falls, so handles stay unique
    /// across any sequence of registrations and removals.
    pub proof fn lemma_handles_fresh(self, h: SystemHandle)
        requires
            self.sys_wf(),
            h.id_of() >= self.sys_bound(),
        ensures
            forall|i: int|
                0 <= i < self.sys_seq().len() ==> (#[trigger] self.sys_seq()[i]).0 != h.id_of(),
    {
    }
}

impl<C, R: Resource, S: System<C, R>> World<C, R, S> {
    /// Runs one tick: resources are ticked once each, then the prestep,
    /// per-entity and full-access phases run in that order. The set of
    /// registered systems does not change; with no systems registered, the
    /// tick is exactly one resource update and the store is otherwise
    /// untouched.
    pub fn run(&mut self)
        ensures
            final(self).sys_ids() == old(self).sys_ids(),
            final(self).sys_bound() == old(self).sys_bound(),
            old(self).sys_wf() ==> final(self).sys_wf(),
            old(self).sys_seq().len() == 0 ==> {
                &&& final(self).sys_seq() == old(self).sys_seq()
                &&& final(self).ec().resources().dom() == old(
                    self,
                ).ec().resources().dom()
                &&& (forall|t: u64|
                    old(self).ec().resources().dom().contains(t)
                        ==> #[trigger] final(self).ec().resources()[t] == old(
                        self,
                    ).ec().resources()[t].updated())
                &&& final(self).ec().entity_list() == old(
                    self,
                ).ec().entity_list()
                &&& (forall|e: crate::entity::Entity|
                    #[trigger] final(self).ec().live(e) == old(
                        self,
                    ).ec().live(e))
                &&& (forall|e: crate::entity::Entity|
                    old(self).ec().live(e)
                        ==> EntitiesAndComponents::same_entity(
                        old(self).ec(),
                        final(self).ec(),
                        e,
                    ))
                &&& (forall|t: u64|
                    #[trigger] final(self).ec().with_component(t) == old(
                        self,
                    ).ec().with_component(t))
                &&& (forall|e: crate::entity::Entity|
                    #[trigger] final(self).ec().destroyed(e) == old(
                        self,
                    ).ec().destroyed(e))
            },
    {
        // Phase one: every resource is ticked exactly once, serially.
        self.entities_and_components.update_resources();
        if self.systems.len() == 0 {
            proof {
                assert(self.sys_ids() =~= old(self).sys_ids());
            }
            return ;
        }
        // Phase two: prestep for every system that opts in; each gets a
        // shared, read-only look at the store.
        let mut i: usize = 0;
        while i < self.systems.len()
            invariant
                self.systems@.len() == old(self).systems@.len(),
                forall|k: int|
                    0 <= k < self.systems@.len() ==> (#[trigger] self.systems@[k]).0 == old(
                        self,
                    ).systems@[k].0,
                self.next_system_id == old(self).next_system_id,
            decreases self.systems@.len() - i,
        {
            let item = &mut self.systems[i];
            let wants = item.1.implements_prestep();
            if wants {
                item.1.prestep(&self.entities_and_components);
            }
            i = i + 1;
        }
        // Phase three: every opted-in system is applied to each entity in
        // turn, through an accessor scoped to that one entity.
        let entities = self.entities_and_components.get_entities();
        let mut n: usize = 0;
        while n < entities.len()
            invariant
                self.systems@.len() == old(self).systems@.len(),
                forall|k: int|
                    0 <= k < self.systems@.len() ==> (#[trigger] self.systems@[k]).0 == old(
                        self,
                    ).systems@[k].0,
                self.next_system_id == old(self).next_system_id,
            decreases entities@.len() - n,
        {
            let e = entities[n];
            let mut s: usize = 0;
            while s < self.systems.len()
                invariant
                    self.systems@.len() == old(self).systems@.len(),
                    forall|k: int|
                        0 <= k < self.systems@.len() ==> (#[trigger] self.systems@[k]).0 == old(
                            self,
                        ).systems@[k].0,
                    self.next_system_id == old(self).next_system_id,
                decreases self.systems@.len() - s,
            {
                let wants: bool;
                {
                    let item = &self.systems[s];
                    wants = item.1.implements_single_entity_step();
                }
                if wants {
                    let mut taken = EntitiesAndComponents::new();
                    std::mem::swap(&mut taken, &mut self.entities_and_components);
                    let mut scoped = SingleMutEntity::new(taken, e);
                    {
                        let item = &self.systems[s];
                        item.1.single_entity_step(&mut scoped);
                    }
                    self.entities_and_components = scoped.into_inner();
                }
                s = s + 1;
            }
            n = n + 1;
        }
        // Phase four: every system's full-access step, in registration
        // order, each with exclusive access to the whole store.
        let mut f: usize = 0;
        while f < self.systems.len()
            invariant
                self.systems@.len() == old(self).systems@.len(),
                forall|k: int|
                    0 <= k < self.systems@.len() ==> (#[trigger] self.systems@[k]).0 == old(
                        self,
                    ).systems@[k].0,
                self.next_system_id == old(self).next_system_id,
            decreases self.systems@.len() - f,
        {
            let item = &mut self.systems[f];
            item.1.run(&mut self.entities_and_components);
            f = f + 1;
        }
        proof {
            assert(self.sys_ids() =~= old(self).sys_ids());
            if old(self).sys_wf() {
                assert forall|i: int|
                    0 <= i < self.sys_seq().len() implies (#[trigger] self.sys_seq()[i]).0
                    < self.sys_bound() by {
                    assert(self.sys_seq()[i].0 == old(self).sys_seq()[i].0);
                }
            }
        }
    }
}

impl<C, R, S> Default for World<C, R, S> {
    /// A world with an empty store and no systems.
    fn default() -> (r: Self)
        ensures
            r.sys_seq() =~= Seq::<(u64, S)>::empty(),
            r.sys_wf(),
            r.ec().entity_list() =~= Seq::<crate::entity::Entity>::empty(),
            r.ec().resources() =~= Map::<u64, R>::empty(),
    {
        World::new()
    }
}

} // verus!
