//! Entity identifiers.
//!
//! An entity is an opaque identity issued by the store: a slot index plus a
//! generation counter.  This core never creates or destroys entities; it only
//! uses them as keys into component storages.  Storage slots are addressed by
//! the index alone, so a stale entity writes to whatever identity currently
//! occupies its slot — callers must keep entity slices fresh.

use vstd::prelude::*;

verus! {

/// An opaque entity identity: a storage slot index and a generation counter.
#[derive(Clone, Copy, PartialEq, Eq, Structural, Debug)]
pub struct Entity {
    /// The storage slot this entity occupies.
    pub index: u32,
    /// How many identities have occupied the slot before this one.
    pub gen: u32,
}

impl Entity {
    /// Builds an entity from its slot index and generation counter.
    pub fn new(index: u32, gen: u32) -> (e: Entity)
        ensures
            e == (Entity { index, gen }),
    {
        Entity { index, gen }
    }
}

/// Whether no two entities of the slice share a storage slot.
pub open spec fn distinct_indices(entities: Seq<Entity>) -> bool {
    forall|i: int, j: int|
        0 <= i < j < entities.len() ==> #[trigger] entities[i].index != #[trigger] entities[j].index
}

} // verus!
