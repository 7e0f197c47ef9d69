//! Systems: units of logic with a declared footprint on the store.

pub mod commands;
pub mod system;
pub mod into_system;
pub mod exclusive_system;
