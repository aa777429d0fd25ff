//! An archetype-based entity-component store.
//!
//! Entities are grouped by the exact set of component types they carry. Each
//! group, an archetype, keeps one dense column per component type, and a
//! registry maps every entity id to the archetype and row that hold it.

pub mod errors;
pub mod entity;
pub mod component;
pub mod bundle;
pub mod archetype;
pub mod query;
pub mod world;
