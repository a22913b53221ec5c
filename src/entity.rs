use vstd::prelude::*;

verus! {

/// Identifier of an entity; unique within one manager and never reused.
pub type EntityId = u32;

/// An entity handle: its identifier and the index of the archetype that holds its row.
#[derive(Debug, Clone, Copy, PartialEq, Eq, Hash)]
pub struct Entity {
    pub id: EntityId,
    pub entity_location: usize,
}

impl Entity {
    pub fn new(id: EntityId, entity_location: usize) -> (r: Entity)
        ensures
            r.id == id,
            r.entity_location == entity_location,
    {
        Entity { id, entity_location }
    }
}

} // verus!
