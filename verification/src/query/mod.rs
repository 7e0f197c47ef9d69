//! Queries over the store: access footprints, query shapes, query state
//! and direct queries.

pub mod access;
pub mod shape;
pub mod state;
pub mod write;
pub mod direct;
