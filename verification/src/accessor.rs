//! The accessor facade: the single owner of all entities, components,
//! links and resources.
//!
//! Every value of `EntitiesAndComponents` satisfies the storage invariant:
//! handles are generation-checked, the tag index mirrors the component rows
//! exactly, and parent/child links agree in both directions. The invariant
//! is carried as a type invariant, so callers never state it themselves.

use vstd::prelude::*;

use crate::entity::Entity;
use crate::resources::Resource;
use crate::store::Store;
use crate::tag_map::map_of;

verus! {

/// The store of all entities and their components, the tag index, the
/// parent/child links and the resource records.
pub struct EntitiesAndComponents<C, R> {
    store: Store<C, R>,
}

impl<C, R> EntitiesAndComponents<C, R> {
    /// The storage invariant; it holds of every reachable value. Besides
    /// well-formed storage it carries the forest law: no live entity is its
    /// own ancestor, at any distance.
    #[verifier::type_invariant]
    pub closed spec fn inv(self) -> bool {
        self.store.wf() && self.store.acyclic()
    }

    /// This handle is live: it names an occupied slot under the slot's
    /// current generation.
    pub closed spec fn live(self, e: Entity) -> bool {
        self.store.live(e)
    }

    /// This handle was destroyed; it can never be live again.
    pub closed spec fn destroyed(self, e: Entity) -> bool {
        self.store.destroyed(e)
    }

    /// The component records of a live entity, as a map from tag to value.
    pub closed spec fn components_of(self, e: Entity) -> Map<u64, C> {
        self.store.comps(e)
    }

    /// The parent link of a live entity.
    pub closed spec fn parent_of(self, e: Entity) -> Option<Entity> {
        self.store.parent_of(e)
    }

    /// The children of a live entity, in the order the links were made.
    pub closed spec fn children_of(self, e: Entity) -> Seq<Entity> {
        self.store.children_of(e)
    }

    /// All live entities, in slot order.
    pub closed spec fn entity_list(self) -> Seq<Entity> {
        self.store.entities()
    }

    /// The entities holding a component under this tag, in slot order.
    pub closed spec fn with_component(self, t: u64) -> Seq<Entity> {
        self.store.with_tag(t)
    }

    /// The resource records, as a map from tag to value.
    pub closed spec fn resources(self) -> Map<u64, R> {
        self.store.resources@
    }

    /// A freed slot is waiting to be reused by the next allocation.
    pub closed spec fn can_recycle(self) -> bool {
        self.store.can_recycle()
    }

    /// The ancestor chain from `from` reaches `target` in at most `fuel`
    /// parent steps.
    pub closed spec fn ancestor_within(self, from: Entity, target: Entity, fuel: nat) -> bool {
        self.store.reaches_within(from, target, fuel)
    }

    /// Both states agree on this entity: liveness, components and links.
    pub open spec fn same_entity(pre: Self, post: Self, e: Entity) -> bool {
        &&& post.live(e) == pre.live(e)
        &&& post.components_of(e) == pre.components_of(e)
        &&& post.parent_of(e) == pre.parent_of(e)
        &&& post.children_of(e) == pre.children_of(e)
    }

    /// Creates an empty store: no entities, no resources, nothing indexed.
    pub fn new() -> (r: Self)
        ensures
            r.entity_list() =~= Seq::<Entity>::empty(),
            r.resources() =~= Map::<u64, R>::empty(),
            forall|e: Entity| !(#[trigger] r.live(e)),
            forall|e: Entity| !(#[trigger] r.destroyed(e)),
            forall|t: u64| #[trigger] r.with_component(t) =~= Seq::<Entity>::empty(),
    {
        let store = Store::empty();
        proof {
            assert(forall|e: Entity| !(#[trigger] store.live(e)));
            assert(store.acyclic());
        }
        EntitiesAndComponents { store }
    }

    /// Adds an empty entity and returns its handle. The handle is fresh: it
    /// was never live before and was never destroyed.
    pub fn add_entity(&mut self) -> (e: Entity)
        ensures
            final(self).live(e),
            !old(self).live(e),
            !old(self).destroyed(e),
            final(self).components_of(e) =~= Map::<u64, C>::empty(),
            final(self).parent_of(e) is None,
            final(self).children_of(e) =~= Seq::<Entity>::empty(),
            forall|e2: Entity|
                e2 != e ==> #[trigger] final(self).live(e2) == old(self).live(e2),
            forall|e2: Entity|
                e2 != e && old(self).live(e2) ==> Self::same_entity(*old(self), *final(self), e2),
            forall|t: u64| #[trigger] final(self).with_component(t) == old(self).with_component(t),
            final(self).resources() == old(self).resources(),
            forall|e2: Entity|
                #[trigger] final(self).destroyed(e2) == old(self).destroyed(e2),
            exists|k: int|
                0 <= k <= old(self).entity_list().len() && final(self).entity_list() == old(
                    self,
                ).entity_list().insert(k, e),
            !old(self).can_recycle() ==> final(self).entity_list() == old(
                self,
            ).entity_list().push(e),
    {
        proof {
            use_type_invariant(&*self);
        }
        let mut store = Store::empty();
        std::mem::swap(&mut store, &mut self.store);
        let ghost spre = store;
        let e = store.add_entity();
        proof {
            lemma_acyclic_same_links(spre, store, e);
        }
        self.store = store;
        proof {
            let k = choose|k: int|
                0 <= k <= spre.entities().len() && self.store.entities() == spre.entities().insert(
                    k,
                    e,
                );
            assert(0 <= k <= old(self).entity_list().len() && self.entity_list() == old(
                self,
            ).entity_list().insert(k, e));
        }
        e
    }

    /// Adds an entity already carrying the given tagged component records;
    /// a later record under the same tag replaces an earlier one, exactly
    /// as repeated `add_component_to` calls would.
    pub fn add_entity_with(&mut self, components: Vec<(u64, C)>) -> (e: Entity)
        ensures
            final(self).live(e),
            !old(self).live(e),
            !old(self).destroyed(e),
            final(self).components_of(e) == map_of(components@),
            final(self).parent_of(e) is None,
            final(self).children_of(e) =~= Seq::<Entity>::empty(),
            forall|e2: Entity|
                e2 != e ==> #[trigger] final(self).live(e2) == old(self).live(e2),
            forall|e2: Entity|
                e2 != e && old(self).live(e2) ==> Self::same_entity(*old(self), *final(self), e2),
            final(self).resources() == old(self).resources(),
            forall|e2: Entity|
                #[trigger] final(self).destroyed(e2) == old(self).destroyed(e2),
            exists|k: int|
                0 <= k <= old(self).entity_list().len() && final(self).entity_list() == old(
                    self,
                ).entity_list().insert(k, e),
            !old(self).can_recycle() ==> final(self).entity_list() == old(
                self,
            ).entity_list().push(e),
            forall|t: u64, e2: Entity|
                #[trigger] final(self).with_component(t).contains(e2) <==> old(
                    self,
                ).with_component(t).contains(e2) || (e2 == e && map_of(components@).dom().contains(
                    t,
                )),
    {
        proof {
            use_type_invariant(&*self);
        }
        let mut store = Store::empty();
        std::mem::swap(&mut store, &mut self.store);
        let ghost spre = store;
        let e = store.add_entity_with(components);
        proof {
            lemma_acyclic_same_links(spre, store, e);
        }
        self.store = store;
        proof {
            let k = choose|k: int|
                0 <= k <= spre.entities().len() && self.store.entities() == spre.entities().insert(
                    k,
                    e,
                );
            assert(0 <= k <= old(self).entity_list().len() && self.entity_list() == old(
                self,
            ).entity_list().insert(k, e));
        }
        e
    }

    /// Destroys a live entity: it is detached from its parent, all of its
    /// children become roots, it leaves the index under every tag, and its
    /// handle is stale from here on, even if the slot is later reused.
    pub fn remove_entity(&mut self, entity: Entity)
        requires
            old(self).live(entity),
        ensures
            !final(self).live(entity),
            final(self).destroyed(entity),
            forall|e2: Entity|
                e2 != entity ==> #[trigger] final(self).destroyed(e2) == old(self).destroyed(e2),
            forall|e2: Entity|
                e2 != entity ==> #[trigger] final(self).live(e2) == old(self).live(e2),
            forall|e2: Entity|
                e2 != entity && old(self).live(e2) ==> #[trigger] final(self).components_of(e2)
                    == old(self).components_of(e2),
            forall|e2: Entity|
                e2 != entity && old(self).live(e2) ==> #[trigger] final(self).parent_of(e2) == if
                    old(self).parent_of(e2) == Some(entity) {
                    None::<Entity>
                } else {
                    old(self).parent_of(e2)
                },
            forall|q: Entity|
                q != entity && old(self).live(q) ==> #[trigger] final(self).children_of(q) == if
                    old(self).parent_of(entity) == Some(q) {
                    old(self).children_of(q).remove_value(entity)
                } else {
                    old(self).children_of(q)
                },
            final(self).entity_list() == old(self).entity_list().remove_value(entity),
            forall|t: u64|
                #[trigger] final(self).with_component(t) == old(self).with_component(
                    t,
                ).remove_value(entity),
            final(self).resources() == old(self).resources(),
    {
        proof {
            use_type_invariant(&*self);
        }
        let mut store = Store::empty();
        std::mem::swap(&mut store, &mut self.store);
        let ghost spre = store;
        store.remove_entity(entity);
        proof {
            lemma_acyclic_fewer_links(spre, store);
        }
        self.store = store;
    }

    /// All live entities, in slot order.
    pub fn get_entities(&self) -> (r: Vec<Entity>)
        ensures
            r@ == self.entity_list(),
    {
        proof {
            use_type_invariant(&*self);
        }
        self.store.get_entities()
    }

    /// The n-th live entity in slot order, if there are that many.
    pub fn get_nth_entity(&self, n: usize) -> (r: Option<Entity>)
        ensures
            n < self.entity_list().len() ==> r == Some(self.entity_list()[n as int]),
            n >= self.entity_list().len() ==> r is None,
    {
        proof {
            use_type_invariant(&*self);
        }
        self.store.get_nth_entity(n)
    }

    /// How many entities are live.
    pub fn get_entity_count(&self) -> (r: usize)
        ensures
            r == self.entity_list().len(),
    {
        proof {
            use_type_invariant(&*self);
        }
        self.store.get_entity_count()
    }

    /// Whether this handle is live. A destroyed handle answers false
    /// forever, even once its slot has been reused.
    pub fn does_entity_exist(&self, entity: Entity) -> (r: bool)
        ensures
            r == self.live(entity),
    {
        proof {
            use_type_invariant(&*self);
        }
        self.store.does_entity_exist(entity)
    }

    /// Attaches a component record under a tag, replacing any record the
    /// entity already holds under that tag.
    pub fn add_component_to(&mut self, entity: Entity, tag: u64, component: C)
        requires
            old(self).live(entity),
        ensures
            final(self).components_of(entity) == old(self).components_of(entity).insert(
                tag,
                component,
            ),
            forall|e2: Entity| #[trigger] final(self).live(e2) == old(self).live(e2),
            forall|e2: Entity|
                e2 != entity && old(self).live(e2) ==> Self::same_entity(
                    *old(self),
                    *final(self),
                    e2,
                ),
            final(self).parent_of(entity) == old(self).parent_of(entity),
            final(self).children_of(entity) == old(self).children_of(entity),
            final(self).entity_list() == old(self).entity_list(),
            final(self).resources() == old(self).resources(),
            forall|e2: Entity|
                #[trigger] final(self).destroyed(e2) == old(self).destroyed(e2),
            forall|t: u64, e2: Entity|
                #[trigger] final(self).with_component(t).contains(e2) <==> old(
                    self,
                ).with_component(t).contains(e2) || (t == tag && e2 == entity),
    {
        proof {
            use_type_invariant(&*self);
        }
        let mut store = Store::empty();
        std::mem::swap(&mut store, &mut self.store);
        let ghost spre = store;
        store.add_component(entity, tag, component);
        proof {
            lemma_acyclic_same_links(spre, store, entity);
        }
        self.store = store;
    }

    /// Detaches and returns the component record stored under a tag, if
    /// the entity holds one.
    pub fn take_component(&mut self, entity: Entity, tag: u64) -> (r: Option<C>)
        requires
            old(self).live(entity),
        ensures
            final(self).components_of(entity) == old(self).components_of(entity).remove(tag),
            match r {
                Some(v) => old(self).components_of(entity).dom().contains(tag) && v == old(
                    self,
                ).components_of(entity)[tag],
                None => !old(self).components_of(entity).dom().contains(tag),
            },
            forall|e2: Entity| #[trigger] final(self).live(e2) == old(self).live(e2),
            forall|e2: Entity|
                e2 != entity && old(self).live(e2) ==> Self::same_entity(
                    *old(self),
                    *final(self),
                    e2,
                ),
            final(self).parent_of(entity) == old(self).parent_of(entity),
            final(self).children_of(entity) == old(self).children_of(entity),
            final(self).entity_list() == old(self).entity_list(),
            final(self).resources() == old(self).resources(),
            forall|e2: Entity|
                #[trigger] final(self).destroyed(e2) == old(self).destroyed(e2),
            forall|t: u64, e2: Entity|
                #[trigger] final(self).with_component(t).contains(e2) <==> old(
                    self,
                ).with_component(t).contains(e2) && !(t == tag && e2 == entity),
    {
        proof {
            use_type_invariant(&*self);
        }
        let mut store = Store::empty();
        std::mem::swap(&mut store, &mut self.store);
        let ghost spre = store;
        let r = store.take_component(entity, tag);
        proof {
            lemma_acyclic_same_links(spre, store, entity);
        }
        self.store = store;
        r
    }

    /// Removes the component record stored under a tag; doing nothing when
    /// the entity holds none.
    pub fn remove_component_from(&mut self, entity: Entity, tag: u64)
        requires
            old(self).live(entity),
        ensures
            final(self).components_of(entity) == old(self).components_of(entity).remove(tag),
            forall|e2: Entity| #[trigger] final(self).live(e2) == old(self).live(e2),
            forall|e2: Entity|
                e2 != entity && old(self).live(e2) ==> Self::same_entity(
                    *old(self),
                    *final(self),
                    e2,
                ),
            final(self).parent_of(entity) == old(self).parent_of(entity),
            final(self).children_of(entity) == old(self).children_of(entity),
            final(self).entity_list() == old(self).entity_list(),
            final(self).resources() == old(self).resources(),
            forall|e2: Entity|
                #[trigger] final(self).destroyed(e2) == old(self).destroyed(e2),
            forall|t: u64, e2: Entity|
                #[trigger] final(self).with_component(t).contains(e2) <==> old(
                    self,
                ).with_component(t).contains(e2) && !(t == tag && e2 == entity),
    {
        let _ = self.take_component(entity, tag);
    }

    /// The tags under which a live entity currently holds component
    /// records, each exactly once; the debug affordance for inspecting an
    /// entity.
    pub fn component_tags(&self, entity: Entity) -> (r: Vec<u64>)
        requires
            self.live(entity),
        ensures
            r@.no_duplicates(),
            forall|t: u64| r@.contains(t) <==> self.components_of(entity).dom().contains(t),
    {
        proof {
            use_type_invariant(&*self);
        }
        self.store.component_tags(entity)
    }

    /// Whether a live entity holds a component record under a tag.
    pub fn has_component(&self, entity: Entity, tag: u64) -> (r: bool)
        requires
            self.live(entity),
        ensures
            r == self.components_of(entity).dom().contains(tag),
    {
        proof {
            use_type_invariant(&*self);
        }
        self.store.has_component(entity, tag)
    }

    /// The component record stored under a tag, if the entity holds one.
    pub fn try_get_component(&self, entity: Entity, tag: u64) -> (r: Option<&C>)
        requires
            self.live(entity),
        ensures
            match r {
                Some(v) => self.components_of(entity).dom().contains(tag) && *v
                    == self.components_of(entity)[tag],
                None => !self.components_of(entity).dom().contains(tag),
            },
    {
        proof {
            use_type_invariant(&*self);
        }
        self.store.try_get_component(entity, tag)
    }

    /// References to the records under two distinct tags; both must be
    /// present. Demanding distinct tags keeps one record from ever being
    /// handed out twice in one call.
    pub fn get_components(&self, entity: Entity, tag_a: u64, tag_b: u64) -> (r: (&C, &C))
        requires
            self.live(entity),
            tag_a != tag_b,
            self.components_of(entity).dom().contains(tag_a),
            self.components_of(entity).dom().contains(tag_b),
        ensures
            *r.0 == self.components_of(entity)[tag_a],
            *r.1 == self.components_of(entity)[tag_b],
    {
        proof {
            use_type_invariant(&*self);
        }
        let a = self.store.try_get_component(entity, tag_a);
        let b = self.store.try_get_component(entity, tag_b);
        (a.unwrap(), b.unwrap())
    }

    /// The records under two distinct tags, each `None` where absent.
    pub fn try_get_components(&self, entity: Entity, tag_a: u64, tag_b: u64) -> (r: (
        Option<&C>,
        Option<&C>,
    ))
        requires
            self.live(entity),
            tag_a != tag_b,
        ensures
            match r.0 {
                Some(v) => self.components_of(entity).dom().contains(tag_a) && *v
                    == self.components_of(entity)[tag_a],
                None => !self.components_of(entity).dom().contains(tag_a),
            },
            match r.1 {
                Some(v) => self.components_of(entity).dom().contains(tag_b) && *v
                    == self.components_of(entity)[tag_b],
                None => !self.components_of(entity).dom().contains(tag_b),
            },
    {
        proof {
            use_type_invariant(&*self);
        }
        (self.store.try_get_component(entity, tag_a), self.store.try_get_component(entity, tag_b))
    }

    /// The entities currently holding a component under this tag, in slot
    /// order; empty for a tag nobody holds.
    pub fn get_entities_with_component(&self, tag: u64) -> (r: Vec<Entity>)
        ensures
            r@ == self.with_component(tag),
    {
        proof {
            use_type_invariant(&*self);
        }
        self.store.get_entities_with_component(tag)
    }

    /// How many entities hold a component under this tag.
    pub fn get_entity_count_with_component(&self, tag: u64) -> (r: usize)
        ensures
            r == self.with_component(tag).len(),
    {
        proof {
            use_type_invariant(&*self);
        }
        self.store.get_entity_count_with_component(tag)
    }

    /// The n-th entity holding a component under this tag, in slot order.
    pub fn get_entity_with_component(&self, tag: u64, n: usize) -> (r: Option<Entity>)
        ensures
            n < self.with_component(tag).len() ==> r == Some(self.with_component(tag)[n as int]),
            n >= self.with_component(tag).len() ==> r is None,
    {
        proof {
            use_type_invariant(&*self);
        }
        self.store.get_entity_with_component(tag, n)
    }

    /// The resource stored under a tag, if any.
    pub fn get_resource(&self, tag: u64) -> (r: Option<&R>)
        ensures
            match r {
                Some(v) => self.resources().dom().contains(tag) && *v == self.resources()[tag],
                None => !self.resources().dom().contains(tag),
            },
    {
        proof {
            use_type_invariant(&*self);
        }
        self.store.get_resource(tag)
    }

    /// Stores a resource under a tag, replacing any resource already there.
    pub fn add_resource(&mut self, tag: u64, resource: R)
        ensures
            final(self).resources() == old(self).resources().insert(tag, resource),
            final(self).entity_list() == old(self).entity_list(),
            forall|e2: Entity| #[trigger] final(self).live(e2) == old(self).live(e2),
            forall|e2: Entity|
                old(self).live(e2) ==> Self::same_entity(*old(self), *final(self), e2),
            forall|t: u64| #[trigger] final(self).with_component(t) == old(self).with_component(t),
            forall|e2: Entity|
                #[trigger] final(self).destroyed(e2) == old(self).destroyed(e2),
    {
        proof {
            use_type_invariant(&*self);
        }
        let mut store = Store::empty();
        std::mem::swap(&mut store, &mut self.store);
        let ghost spre = store;
        store.add_resource(tag, resource);
        proof {
            lemma_acyclic_equal_slots(spre, store);
        }
        self.store = store;
    }

    /// Detaches and returns the resource stored under a tag, if any.
    pub fn take_resource(&mut self, tag: u64) -> (r: Option<R>)
        ensures
            final(self).resources() == old(self).resources().remove(tag),
            match r {
                Some(v) => old(self).resources().dom().contains(tag) && v == old(
                    self,
                ).resources()[tag],
                None => !old(self).resources().dom().contains(tag),
            },
            final(self).entity_list() == old(self).entity_list(),
            forall|e2: Entity| #[trigger] final(self).live(e2) == old(self).live(e2),
            forall|e2: Entity|
                old(self).live(e2) ==> Self::same_entity(*old(self), *final(self), e2),
            forall|t: u64| #[trigger] final(self).with_component(t) == old(self).with_component(t),
            forall|e2: Entity|
                #[trigger] final(self).destroyed(e2) == old(self).destroyed(e2),
    {
        proof {
            use_type_invariant(&*self);
        }
        let mut store = Store::empty();
        std::mem::swap(&mut store, &mut self.store);
        let ghost spre = store;
        let r = store.remove_resource(tag);
        proof {
            lemma_acyclic_equal_slots(spre, store);
        }
        self.store = store;
        r
    }

    /// Removes the resource stored under a tag, if any.
    pub fn remove_resource(&mut self, tag: u64)
        ensures
            final(self).resources() == old(self).resources().remove(tag),
            final(self).entity_list() == old(self).entity_list(),
            forall|e2: Entity| #[trigger] final(self).live(e2) == old(self).live(e2),
            forall|e2: Entity|
                old(self).live(e2) ==> Self::same_entity(*old(self), *final(self), e2),
            forall|t: u64| #[trigger] final(self).with_component(t) == old(self).with_component(t),
            forall|e2: Entity|
                #[trigger] final(self).destroyed(e2) == old(self).destroyed(e2),
    {
        let _ = self.take_resource(tag);
    }

    /// The children of a live entity, in the order the links were made;
    /// empty when it has none. An entity with no children stores nothing.
    pub fn get_children(&self, entity: Entity) -> (r: Vec<Entity>)
        requires
            self.live(entity),
        ensures
            r@ == self.children_of(entity),
    {
        proof {
            use_type_invariant(&*self);
        }
        self.store.get_children(entity)
    }

    /// The parent of a live entity; `None` for a root.
    pub fn get_parent(&self, entity: Entity) -> (r: Option<Entity>)
        requires
            self.live(entity),
        ensures
            r == self.parent_of(entity),
    {
        proof {
            use_type_invariant(&*self);
        }
        self.store.get_parent(entity)
    }

    /// Makes `parent_entity` the parent of `child_entity`. Returns false
    /// and changes nothing when the two are the same entity or when the new
    /// parent already descends from the child; otherwise the child leaves
    /// any old parent, joins the new parent's children, and true comes
    /// back.
    pub fn set_parent(&mut self, child_entity: Entity, parent_entity: Entity) -> (r: bool)
        requires
            old(self).live(child_entity),
            old(self).live(parent_entity),
        ensures
            r == (child_entity != parent_entity && !old(self).ancestor_within(
                parent_entity,
                child_entity,
                old(self).entity_list().len(),
            )),
            !r ==> *final(self) == *old(self),
            r ==> final(self).parent_of(child_entity) == Some(parent_entity),
            r ==> final(self).children_of(parent_entity) == old(self).children_of(
                parent_entity,
            ).remove_value(child_entity).push(child_entity),
            r ==> forall|e2: Entity|
                old(self).live(e2) && e2 != child_entity ==> #[trigger] final(self).parent_of(e2)
                    == old(self).parent_of(e2),
            r ==> forall|q: Entity|
                old(self).live(q) && q != parent_entity ==> #[trigger] final(self).children_of(q)
                    == if old(self).parent_of(child_entity) == Some(q) {
                    old(self).children_of(q).remove_value(child_entity)
                } else {
                    old(self).children_of(q)
                },
            forall|e2: Entity| #[trigger] final(self).live(e2) == old(self).live(e2),
            forall|e2: Entity|
                old(self).live(e2) ==> #[trigger] final(self).components_of(e2) == old(
                    self,
                ).components_of(e2),
            final(self).entity_list() == old(self).entity_list(),
            forall|t: u64| #[trigger] final(self).with_component(t) == old(self).with_component(t),
            final(self).resources() == old(self).resources(),
            forall|e2: Entity|
                #[trigger] final(self).destroyed(e2) == old(self).destroyed(e2),
    {
        proof {
            use_type_invariant(&*self);
        }
        let mut store = Store::empty();
        std::mem::swap(&mut store, &mut self.store);
        let ghost spre = store;
        let r = store.set_parent(child_entity, parent_entity);
        proof {
            if r {
                Store::lemma_set_parent_acyclic(spre, store, child_entity, parent_entity);
            }
        }
        self.store = store;
        r
    }

    /// Detaches a live entity from its parent, making it a root; removing
    /// the last child leaves the old parent with no children stored.
    pub fn remove_parent(&mut self, child_entity: Entity)
        requires
            old(self).live(child_entity),
        ensures
            final(self).parent_of(child_entity) is None,
            forall|e2: Entity| #[trigger] final(self).live(e2) == old(self).live(e2),
            forall|e2: Entity|
                old(self).live(e2) ==> #[trigger] final(self).components_of(e2) == old(
                    self,
                ).components_of(e2),
            forall|e2: Entity|
                old(self).live(e2) && e2 != child_entity ==> #[trigger] final(self).parent_of(e2)
                    == old(self).parent_of(e2),
            forall|p: Entity|
                old(self).live(p) ==> #[trigger] final(self).children_of(p) == if old(
                    self,
                ).parent_of(child_entity) == Some(p) {
                    old(self).children_of(p).remove_value(child_entity)
                } else {
                    old(self).children_of(p)
                },
            final(self).entity_list() == old(self).entity_list(),
            forall|t: u64| #[trigger] final(self).with_component(t) == old(self).with_component(t),
            final(self).resources() == old(self).resources(),
            forall|e2: Entity|
                #[trigger] final(self).destroyed(e2) == old(self).destroyed(e2),
    {
        proof {
            use_type_invariant(&*self);
        }
        let mut store = Store::empty();
        std::mem::swap(&mut store, &mut self.store);
        let ghost spre = store;
        store.remove_parent(child_entity);
        proof {
            lemma_acyclic_fewer_links(spre, store);
        }
        self.store = store;
    }

    /// All live entities that currently have at least one child.
    pub fn get_entities_with_children(&self) -> (r: Vec<Entity>)
        ensures
            forall|e: Entity|
                #[trigger] r@.contains(e) <==> self.live(e) && self.children_of(e).len() > 0,
            r@.no_duplicates(),
    {
        proof {
            use_type_invariant(&*self);
        }
        self.store.get_entities_with_children()
    }

    /// All live entities that currently have a parent.
    pub fn get_entities_with_parent(&self) -> (r: Vec<Entity>)
        ensures
            forall|e: Entity|
                #[trigger] r@.contains(e) <==> self.live(e) && self.parent_of(e) is Some,
            r@.no_duplicates(),
    {
        proof {
            use_type_invariant(&*self);
        }
        self.store.get_entities_with_parent()
    }
}

impl<C, R: Resource> EntitiesAndComponents<C, R> {
    /// Ticks every resource exactly once: each stored record is replaced
    /// by its `updated` value. Entities, components and links are
    /// untouched. The scheduler calls this at the start of every tick,
    /// before any system runs.
    pub fn update_resources(&mut self)
        ensures
            final(self).resources().dom() == old(self).resources().dom(),
            forall|t: u64|
                old(self).resources().dom().contains(t) ==> #[trigger] final(self).resources()[t]
                    == old(self).resources()[t].updated(),
            final(self).entity_list() == old(self).entity_list(),
            forall|e2: Entity| #[trigger] final(self).live(e2) == old(self).live(e2),
            forall|e2: Entity|
                old(self).live(e2) ==> Self::same_entity(*old(self), *final(self), e2),
            forall|t: u64| #[trigger] final(self).with_component(t) == old(self).with_component(t),
            forall|e2: Entity|
                #[trigger] final(self).destroyed(e2) == old(self).destroyed(e2),
    {
        proof {
            use_type_invariant(&*self);
        }
        let mut store = Store::empty();
        std::mem::swap(&mut store, &mut self.store);
        let ghost spre = store;
        store.update_resources();
        proof {
            lemma_acyclic_equal_slots(spre, store);
        }
        self.store = store;
    }
}

impl<C, R> EntitiesAndComponents<C, R> {
    /// Stale-handle law: a destroyed handle is never live again, even once
    /// its slot has been reused by a later entity. Every operation keeps
    /// `destroyed` handles destroyed, so this holds from the destroy on.
    pub proof fn lemma_destroyed_never_live(self, e: Entity)
        requires
            self.inv(),
            self.destroyed(e),
        ensures
            !self.live(e),
    {
        assert(e.generation < self.store.slots@[e.index as int].generation);
    }

    /// Type-index consistency law: an entity is listed under a tag exactly
    /// when it is live and holds a component record under that tag.
    pub proof fn lemma_index_consistent(self, e: Entity, tag: u64)
        requires
            self.inv(),
        ensures
            self.with_component(tag).contains(e) <==> (self.live(e) && self.components_of(
                e,
            ).dom().contains(tag)),
    {
        if self.with_component(tag).contains(e) {
            let k = choose|k: int|
                0 <= k < self.store.with_tag(tag).len() && self.store.with_tag(tag)[k] == e;
            assert(self.store.index@.dom().contains(tag));
            assert(self.store.has_comp(self.store.index@[tag]@[k], tag));
        }
        if self.live(e) && self.components_of(e).dom().contains(tag) {
            assert(self.store.has_comp(e, tag));
        }
    }

    /// Bidirectionality law: a live child points at its parent exactly when
    /// the live parent lists that child, in either direction.
    pub proof fn lemma_parent_child_bidirectional(self, p: Entity, c: Entity)
        requires
            self.inv(),
        ensures
            (self.live(c) && self.parent_of(c) == Some(p)) ==> (self.live(p) && self.children_of(
                p,
            ).contains(c)),
            (self.live(p) && self.children_of(p).contains(c)) ==> (self.live(c) && self.parent_of(
                c,
            ) == Some(p)),
    {
        if self.live(p) && self.children_of(p).contains(c) {
            let k = choose|k: int|
                0 <= k < self.store.children_of(p).len() && self.store.children_of(p)[k] == c;
            assert(self.store.children_of(p)[k] == c);
        }
    }

    /// Forest law: no live entity is ever its own ancestor, at any
    /// distance; the parent links always form a cycle-free forest.
    pub proof fn lemma_forest_acyclic(self, e: Entity, fuel: nat)
        requires
            self.inv(),
            self.live(e),
        ensures
            !self.ancestor_within(e, e, fuel),
    {
    }

    /// Cycle-rejection law: when a live entity already has a parent, asking
    /// `set_parent` to invert that very link is refused — the walk from the
    /// old child finds the old parent on its ancestor chain, so the call
    /// returns false and changes nothing.
    pub proof fn lemma_cycle_link_rejected(self, a: Entity, b: Entity)
        requires
            self.inv(),
            self.live(a),
            self.parent_of(a) == Some(b),
        ensures
            a != b,
            self.live(b),
            self.ancestor_within(a, b, self.entity_list().len()),
    {
        assert(self.store.roster@.contains(a));
        assert(self.entity_list().len() >= 1);
        assert(self.store.reaches_within(a, b, self.entity_list().len()));
    }
}

/// Acyclicity carries over to a store with the same liveness and the same
/// parent links on live entities; a possible extra entity may appear as
/// long as it has no parent link.
proof fn lemma_acyclic_same_links<C, R>(pre: Store<C, R>, post: Store<C, R>, fresh: Entity)
    requires
        pre.wf(),
        pre.acyclic(),
        forall|e2: Entity| pre.live(e2) ==> #[trigger] post.live(e2),
        forall|e2: Entity|
            #[trigger] post.live(e2) ==> pre.live(e2) || e2 == fresh,
        forall|e2: Entity|
            pre.live(e2) ==> #[trigger] post.parent_of(e2) == pre.parent_of(e2),
        post.live(fresh) && !pre.live(fresh) ==> post.parent_of(fresh) is None,
    ensures
        post.acyclic(),
{
    assert forall|e: Entity, f: nat| post.live(e) implies !(#[trigger] post.reaches_within(
        e,
        e,
        f,
    )) by {
        if pre.live(e) {
            Store::lemma_reaches_same(pre, post, e, e, f);
        } else {
            assert(post.parent_of(e) is None);
        }
    }
}

/// Acyclicity carries over to a store that only ever removed parent links.
proof fn lemma_acyclic_fewer_links<C, R>(pre: Store<C, R>, post: Store<C, R>)
    requires
        pre.acyclic(),
        post.wf(),
        forall|e2: Entity| #[trigger] post.live(e2) ==> pre.live(e2),
        forall|e2: Entity|
            #[trigger] post.live(e2) ==> (post.parent_of(e2) == pre.parent_of(e2)
                || post.parent_of(e2) is None),
    ensures
        post.acyclic(),
{
    assert forall|e: Entity, f: nat| post.live(e) implies !(#[trigger] post.reaches_within(
        e,
        e,
        f,
    )) by {
        Store::lemma_reaches_subset(pre, post, e, e, f);
    }
}

/// Acyclicity only reads the slots, so it carries over unchanged slots.
proof fn lemma_acyclic_equal_slots<C, R>(pre: Store<C, R>, post: Store<C, R>)
    requires
        pre.wf(),
        pre.acyclic(),
        post.slots == pre.slots,
    ensures
        post.acyclic(),
{
    assert(forall|e2: Entity| #[trigger] post.live(e2) == pre.live(e2));
    assert forall|e: Entity, f: nat| post.live(e) implies !(#[trigger] post.reaches_within(
        e,
        e,
        f,
    )) by {
        assert(forall|e2: Entity|
            pre.live(e2) ==> #[trigger] post.parent_of(e2) == pre.parent_of(e2));
        Store::lemma_reaches_same(pre, post, e, e, f);
    }
}

/// Overwrite law: storing a record twice under one tag leaves exactly one
/// record there, carrying the second value. `add_component_to` models each
/// store as a map insert, so two inserts collapse to the later one.
pub proof fn lemma_component_overwrite<C>(m: Map<u64, C>, tag: u64, first: C, second: C)
    ensures
        m.insert(tag, first).insert(tag, second) == m.insert(tag, second),
        m.insert(tag, second)[tag] == second,
        m.insert(tag, second).dom() =~= m.dom().insert(tag),
{
    assert(m.insert(tag, first).insert(tag, second) =~= m.insert(tag, second));
}

} // verus!
