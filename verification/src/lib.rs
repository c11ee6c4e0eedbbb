//! A verified CSV diff engine.
//!
//! Two tabular CSV inputs, labeled A and B, are compared and the difference
//! is described as a deterministic stream of events: which rows were added,
//! removed, changed (with per-column before/after values), or unchanged.
//! Rows are matched either by a composite key drawn from configured key
//! columns, or by line position when no key columns are given.

pub mod csv;
pub mod diff;
pub mod driver;
pub mod error;
pub mod hash;
pub mod header;
pub mod laws;
pub mod options;
pub mod order;
pub mod plan;
pub mod records;
pub mod spill;
pub mod text;
