//! Entity handles: a slot index paired with a generation counter.

use vstd::prelude::*;

verus! {

/// An entity is a unique identifier for an object in the store.
/// It holds no data of its own; it is a key into the component store.
///
/// A handle is live only while the slot it names still carries the same
/// generation; destroying the entity bumps the slot's generation, so every
/// handle taken out earlier becomes detectably stale, even after the slot
/// is reused.
#[derive(Clone, Copy, PartialEq, Eq, Structural, Hash, Debug, PartialOrd, Ord)]
pub struct Entity {
    pub(crate) index: usize,
    pub(crate) generation: u64,
}

} // verus!
