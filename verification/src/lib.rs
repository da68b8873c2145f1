//! Storage core for a clipboard-history manager.
//!
//! The crate keeps the logical state of the store — clipboard entries with
//! their metadata, ordered newest-first — and proves the contract of every
//! operation: insertion with fresh ids, recency listing, cursor pagination,
//! full-text prefix search with input sanitization, touch/promotion,
//! age-based cleanup, and the validation that guards the encrypted-database
//! migration statement. Disk persistence and the foreign-function dispatch
//! layer sit outside the verified core and drive it through these operations.

pub mod models;
pub mod text;
pub mod sanitize;
pub mod queries;
pub mod schema;
pub mod store;
pub mod migrate;
pub mod laws;
