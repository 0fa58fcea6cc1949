//! A registry of elements (entities) that carry components of arbitrary
//! caller-defined types, at most one per type, with lookup, mutation,
//! deletion and type-filtered iteration.

pub mod components;
pub mod custom_errors;
pub mod erased;
pub mod world;
