//! An entity-component-system runtime: archetype storage, change detection,
//! access tracking, queries and system wrappers, with machine-checked contracts.

pub mod archetype;
pub mod bundle;
pub mod component;
pub mod entity;
pub mod laws;
pub mod query;
pub mod reflect;
pub mod schedule;
pub mod storage;
pub mod system;
pub mod text;
pub mod world;
