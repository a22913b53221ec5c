use vstd::prelude::*;
use crate::entity::EntityId;
use crate::component::TypeKey;

verus! {

/// Failure of a row-level archetype operation.
#[derive(Debug, Clone, Copy, PartialEq, Eq)]
pub enum ArchetypeError {
    /// The entity is not resident in the addressed archetype or manager.
    EntityNotFound,
}

/// Failure of a direct component lookup.
#[derive(Debug, Clone, Copy, PartialEq, Eq)]
pub enum QueryError {
    /// The entity is not tracked by the manager.
    EntityNotFound(EntityId),
    /// The entity's archetype stores no column of the requested type.
    ComponentNotFound(TypeKey),
}

} // verus!
