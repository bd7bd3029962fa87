//! A mutable hierarchical tree kept in an arena: every node lives in one
//! table, keyed by a generated id, and parent/child links are id references.
//!
//! The arena (`TreeMap`) supports dynamic child attachment, id-based lookup,
//! ancestor-chain queries and cycle-safe reparenting, together with bulk
//! import from and export to a recursive record shape (`Record`).

pub mod arena;
pub mod error;
pub mod ids;
pub mod laws;
pub mod model;
pub mod record;
