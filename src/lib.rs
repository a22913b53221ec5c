//! Storage and query core of an entity-component-system runtime.
//!
//! Entities carry typed components, keyed by a type token (`TypeKey`). Entities with the same
//! type set share an archetype, which stores one column per type with all columns in row
//! lockstep. The entity manager keeps the entity table and the archetypes consistent across
//! creation, destruction and migration; queries select the rows of the archetypes that have every
//! required type and none of the excluded ones.
pub mod archetype;
pub mod commands;
pub mod component;
pub mod entity;
pub mod entity_manager;
pub mod error;
pub mod event;
pub mod laws;
pub mod query;
pub mod registry;
pub mod resources;
pub mod system;
