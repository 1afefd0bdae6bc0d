//! Dependency-aware subsetting of a relational database.
//!
//! The crate builds a foreign-key dependency graph over table names,
//! computes a post-order export schedule rooted at a target table,
//! synthesizes per-table streaming copy commands whose filters keep only
//! rows referenced by already-scheduled tables, applies column-level
//! transforms to exported rows, and prepares the statements and file
//! names used to reload the exported files in a referentially safe order.

pub mod config;
pub mod graph;
pub mod run;
pub mod sql;
pub mod text;
pub mod transform;
