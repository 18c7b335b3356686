//! Entity/component storage with bitmask queries, a parent/child hierarchy and
//! world-transform propagation.
//!
//! A [`context::Context`] owns the entity table, one sparse column per component
//! kind and the singleton resources. Every operation is specified over the
//! context's view, a map from live entity identifiers to their rows.

pub mod entity;
pub mod mask;
pub mod linear;
pub mod camera;
pub mod cli;
pub mod context;
pub mod paint;
pub mod query;
pub mod resources;
pub mod run;
pub mod transform;
pub mod tree;
pub mod window;
