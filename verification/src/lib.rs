//! Verified core of a notes store: tabs hold notes, notes may hold child
//! notes, and every group of siblings carries a user-controlled display order.
//!
//! The crate keeps the rules of that store apart from the storage engine that
//! persists it. Each rule is an executable function with a proved contract,
//! stated over the mathematical values in [`model`] and [`hierarchy`].
//!
//! - [`ordering`]: how sibling order is assigned on insert and rewritten by a
//!   reorder, and the dense ordering invariant.
//! - [`store`]: the record store in memory, with cascading deletes and
//!   all-or-nothing reorders. What is proved of it is proved of this store
//!   alone; that a store built on a storage engine behaves alike is for
//!   tests to probe, not for this crate to show.
//! - [`transaction`]: a reorder and a delete as one transaction each against
//!   a storage engine, driven step by step.
//! - [`lifecycle`]: the shutdown protocol that leaves the store's files
//!   consistent and compacted.
//! - [`schema`]: the relations, as statements that create only what is absent.
//! - [`backup`]: names and rules for snapshots of the store's files.
//! - [`error`]: the kinds of failure a caller is told about.

pub mod backup;
pub mod error;
pub mod hierarchy;
pub mod lifecycle;
pub mod model;
pub mod ordering;
pub mod schema;
pub mod store;
pub mod transaction;
