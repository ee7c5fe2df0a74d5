//! An in-memory entity-component store with a tick scheduler.
//!
//! Entities are generation-checked handles; each entity carries an open set
//! of component records keyed by a caller-chosen type tag, a secondary index
//! answers "all entities holding tag T", and parent/child links form a
//! cycle-free forest. A world owns the store together with an ordered list
//! of systems and runs one tick in ordered phases.

use vstd::prelude::*;

mod accessor;
mod ancestry;
mod entity;
mod relations;
mod resources;
mod single;
mod store;
mod tag_map;
mod world;

pub use accessor::lemma_component_overwrite;
pub use accessor::EntitiesAndComponents;
pub use entity::Entity;
pub use resources::Resource;
pub use single::SingleMutEntity;
pub use tag_map::map_of;
pub use tag_map::TagMap;
pub use world::System;
pub use world::SystemHandle;
pub use world::World;

verus! {

/// Marker for component record types. Any sized type can serve as the
/// component payload; the store keys records by the caller's type tag, not
/// by this trait.
pub trait Component {

}

impl<T> Component for T {

}

} // verus!
