//! Typed error conditions for the arena tree.

use vstd::prelude::*;

verus! {

/// Everything that an arena-tree operation can refuse to do.
///
/// Reparenting into a node's own subtree is a recoverable, reported
/// condition (`WouldCycle`); looking up an absent id is a typed lookup
/// failure (`NotFound`); inserting an id that is already live, or the
/// reserved alias, is rejected (`DuplicateId`, `ReservedId`); a record
/// without an id is rejected before any node is created (`MissingId`).
#[derive(Clone, Copy, Debug, PartialEq, Eq, Structural)]
pub enum TreeError {
    /// The id is not a key of the arena table.
    NotFound,
    /// The id is already a key of the arena table.
    DuplicateId,
    /// The id is the reserved alias that always resolves to the root.
    ReservedId,
    /// The move would make a node an ancestor of itself.
    WouldCycle,
    /// An imported record carries no id.
    MissingId,
}

} // verus!
