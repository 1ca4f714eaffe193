//! A persistent, versioned directed-acyclic-graph engine.
//!
//! Many logical snapshots (versions) of a mutable graph coexist with
//! structural sharing: an edge is visible to a version exactly when it was
//! created at or before that version in the lineage history, so edges added
//! on one fork stay invisible to unrelated or earlier snapshots.
//!
//! The crate has two layers. [`version`] is the lineage tracker: an arena of
//! immutable lineage records with derive/fork/merge/ancestry operations.
//! [`graph`] is the copy-on-write graph built on top of it: node identities,
//! versioned edges, and traversal that filters edges by lineage ancestry.

pub mod graph;
pub mod version;

pub use graph::{Dag, Node};
pub use version::{Lineage, Version};
