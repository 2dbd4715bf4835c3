//! A verified core for a todo-tracking backend.
//!
//! The crate models the persistence layer of the service: the entity
//! records, the row-folding step that rebuilds nested entities from a
//! flattened join result, an in-memory repository, and a table-level
//! model of the relational repository together with its transactional
//! guarantees.

pub mod repositories;
