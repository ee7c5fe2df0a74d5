//! Entity-scoped access for the per-entity step of a tick.
//!
//! A `SingleMutEntity` owns the whole store for the duration of one system
//! call but only offers operations on the one entity it was opened for, so
//! a per-entity step cannot reach any other entity's records. The scheduler
//! opens one per (entity, system) pair and takes the store back afterwards.

use vstd::prelude::*;

use crate::accessor::EntitiesAndComponents;
use crate::entity::Entity;

verus! {

/// Access to the components and resources of one entity.
pub struct SingleMutEntity<C, R> {
    ec: EntitiesAndComponents<C, R>,
    entity: Entity,
}

impl<C, R> SingleMutEntity<C, R> {
    /// The entity this accessor is scoped to.
    pub closed spec fn entity_spec(self) -> Entity {
        self.entity
    }

    /// The store this accessor currently owns.
    pub closed spec fn store(self) -> EntitiesAndComponents<C, R> {
        self.ec
    }

    /// Opens entity-scoped access over an owned store.
    pub fn new(ec: EntitiesAndComponents<C, R>, entity: Entity) -> (r: Self)
        ensures
            r.store() == ec,
            r.entity_spec() == entity,
    {
        SingleMutEntity { ec, entity }
    }

    /// Hands the store back.
    pub fn into_inner(self) -> (r: EntitiesAndComponents<C, R>)
        ensures
            r == self.store(),
    {
        self.ec
    }

    /// The entity this accessor is scoped to.
    pub fn get_entity(&self) -> (r: Entity)
        ensures
            r == self.entity_spec(),
    {
        self.entity
    }

    /// Whether the scoped entity is still live; false once `remove_entity`
    /// was called on this accessor.
    pub fn is_live(&self) -> (r: bool)
        ensures
            r == self.store().live(self.entity_spec()),
    {
        self.ec.does_entity_exist(self.entity)
    }

    /// The component record under a tag; the entity must be live and hold
    /// one.
    pub fn get_component(&self, tag: u64) -> (r: &C)
        requires
            self.store().live(self.entity_spec()),
            self.store().components_of(self.entity_spec()).dom().contains(tag),
        ensures
            *r == self.store().components_of(self.entity_spec())[tag],
    {
        self.ec.try_get_component(self.entity, tag).unwrap()
    }

    /// The component record under a tag, if the live entity holds one.
    pub fn try_get_component(&self, tag: u64) -> (r: Option<&C>)
        requires
            self.store().live(self.entity_spec()),
        ensures
            match r {
                Some(v) => self.store().components_of(self.entity_spec()).dom().contains(tag) && *v
                    == self.store().components_of(self.entity_spec())[tag],
                None => !self.store().components_of(self.entity_spec()).dom().contains(tag),
            },
    {
        self.ec.try_get_component(self.entity, tag)
    }

    /// References to the records under two distinct tags; both must be
    /// present on the live entity.
    pub fn get_components(&self, tag_a: u64, tag_b: u64) -> (r: (&C, &C))
        requires
            self.store().live(self.entity_spec()),
            tag_a != tag_b,
            self.store().components_of(self.entity_spec()).dom().contains(tag_a),
            self.store().components_of(self.entity_spec()).dom().contains(tag_b),
        ensures
            *r.0 == self.store().components_of(self.entity_spec())[tag_a],
            *r.1 == self.store().components_of(self.entity_spec())[tag_b],
    {
        self.ec.get_components(self.entity, tag_a, tag_b)
    }

    /// The records under two distinct tags, each `None` where absent.
    pub fn try_get_components(&self, tag_a: u64, tag_b: u64) -> (r: (Option<&C>, Option<&C>))
        requires
            self.store().live(self.entity_spec()),
            tag_a != tag_b,
        ensures
            match r.0 {
                Some(v) => self.store().components_of(self.entity_spec()).dom().contains(tag_a)
                    && *v == self.store().components_of(self.entity_spec())[tag_a],
                None => !self.store().components_of(self.entity_spec()).dom().contains(tag_a),
            },
            match r.1 {
                Some(v) => self.store().components_of(self.entity_spec()).dom().contains(tag_b)
                    && *v == self.store().components_of(self.entity_spec())[tag_b],
                None => !self.store().components_of(self.entity_spec()).dom().contains(tag_b),
            },
    {
        self.ec.try_get_components(self.entity, tag_a, tag_b)
    }

    /// Whether the live entity holds a component record under a tag.
    pub fn has_component(&self, tag: u64) -> (r: bool)
        requires
            self.store().live(self.entity_spec()),
        ensures
            r == self.store().components_of(self.entity_spec()).dom().contains(tag),
    {
        self.ec.try_get_component(self.entity, tag).is_some()
    }

    /// Attaches a component record to the live entity, replacing any record
    /// already stored under the same tag. No other entity changes.
    pub fn add_component(&mut self, tag: u64, component: C)
        requires
            old(self).store().live(old(self).entity_spec()),
        ensures
            final(self).entity_spec() == old(self).entity_spec(),
            final(self).store().components_of(final(self).entity_spec()) == old(
                self,
            ).store().components_of(old(self).entity_spec()).insert(tag, component),
            forall|e2: Entity|
                #[trigger] final(self).store().live(e2) == old(self).store().live(e2),
            forall|e2: Entity|
                e2 != old(self).entity_spec() && old(self).store().live(e2)
                    ==> EntitiesAndComponents::same_entity(
                    old(self).store(),
                    final(self).store(),
                    e2,
                ),
            final(self).store().entity_list() == old(self).store().entity_list(),
            final(self).store().resources() == old(self).store().resources(),
    {
        self.ec.add_component_to(self.entity, tag, component);
    }

    /// Detaches and returns the record under a tag from the live entity, if
    /// it holds one. No other entity changes.
    pub fn take_component(&mut self, tag: u64) -> (r: Option<C>)
        requires
            old(self).store().live(old(self).entity_spec()),
        ensures
            final(self).entity_spec() == old(self).entity_spec(),
            final(self).store().components_of(final(self).entity_spec()) == old(
                self,
            ).store().components_of(old(self).entity_spec()).remove(tag),
            match r {
                Some(v) => old(self).store().components_of(old(self).entity_spec()).dom().contains(
                    tag,
                ) && v == old(self).store().components_of(old(self).entity_spec())[tag],
                None => !old(self).store().components_of(old(self).entity_spec()).dom().contains(
                    tag,
                ),
            },
            forall|e2: Entity|
                #[trigger] final(self).store().live(e2) == old(self).store().live(e2),
            forall|e2: Entity|
                e2 != old(self).entity_spec() && old(self).store().live(e2)
                    ==> EntitiesAndComponents::same_entity(
                    old(self).store(),
                    final(self).store(),
                    e2,
                ),
            final(self).store().entity_list() == old(self).store().entity_list(),
            final(self).store().resources() == old(self).store().resources(),
    {
        self.ec.take_component(self.entity, tag)
    }

    /// Removes the record under a tag from the live entity, if it holds
    /// one. No other entity changes.
    pub fn remove_component(&mut self, tag: u64)
        requires
            old(self).store().live(old(self).entity_spec()),
        ensures
            final(self).entity_spec() == old(self).entity_spec(),
            final(self).store().components_of(final(self).entity_spec()) == old(
                self,
            ).store().components_of(old(self).entity_spec()).remove(tag),
            forall|e2: Entity|
                #[trigger] final(self).store().live(e2) == old(self).store().live(e2),
            forall|e2: Entity|
                e2 != old(self).entity_spec() && old(self).store().live(e2)
                    ==> EntitiesAndComponents::same_entity(
                    old(self).store(),
                    final(self).store(),
                    e2,
                ),
            final(self).store().entity_list() == old(self).store().entity_list(),
            final(self).store().resources() == old(self).store().resources(),
    {
        let _ = self.ec.take_component(self.entity, tag);
    }

    /// Destroys the scoped entity. The handle is stale afterwards, and the
    /// other operations of this accessor can no longer be used.
    pub fn remove_entity(&mut self)
        requires
            old(self).store().live(old(self).entity_spec()),
        ensures
            final(self).entity_spec() == old(self).entity_spec(),
            !final(self).store().live(old(self).entity_spec()),
            final(self).store().destroyed(old(self).entity_spec()),
            forall|e2: Entity|
                e2 != old(self).entity_spec() ==> #[trigger] final(self).store().live(e2) == old(
                    self,
                ).store().live(e2),
            final(self).store().resources() == old(self).store().resources(),
    {
        self.ec.remove_entity(self.entity);
    }
}

impl<C, R> SingleMutEntity<C, R> {
    /// The resource stored under a tag; it must be present.
    pub fn get_resource(&self, tag: u64) -> (r: &R)
        requires
            self.store().resources().dom().contains(tag),
        ensures
            *r == self.store().resources()[tag],
    {
        self.ec.get_resource(tag).unwrap()
    }

    /// The resource stored under a tag, if any.
    pub fn try_get_resource(&self, tag: u64) -> (r: Option<&R>)
        ensures
            match r {
                Some(v) => self.store().resources().dom().contains(tag) && *v
                    == self.store().resources()[tag],
                None => !self.store().resources().dom().contains(tag),
            },
    {
        self.ec.get_resource(tag)
    }
}

} // verus!
