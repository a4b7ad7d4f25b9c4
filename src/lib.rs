//! A reconciliation engine for a host's network configuration.
//!
//! The configuration lives in a path-addressed preference store of network sets, services,
//! protocols and interfaces. The engine clones the current set, normalizes the services it
//! inherits, provisions services for uncovered interfaces and prunes entities it created on
//! earlier runs, without ever mutating an entity it does not own.
pub mod kinds;
pub mod dictionary;
pub mod model;
pub mod keyed;
pub mod error;
pub mod store;
pub mod catalog;
pub mod ordering;
pub mod cloner;
pub mod decisions;
pub mod reconciler;
pub mod provisioner;
pub mod pruner;
pub mod engine;
