//! Core of an archetype-based entity-component-system storage engine.
//!
//! Entities are grouped by their exact set of component types into
//! *archetypes*: contiguous tables with one type-erased column per component.
//! The archetype graph resolves single-component insert/remove transitions
//! through cached edges, `move_entity` relocates one entity's row between two
//! archetypes, and systems that subscribed to an archetype are told, through
//! ordered notification records, when its storage became empty, nonempty, or
//! may have reallocated.

pub mod archetype;
pub mod column;
pub mod component;
pub mod entity;
pub mod graph;
pub mod maps;
pub mod system;
