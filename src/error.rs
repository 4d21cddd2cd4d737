//! Errors surfaced by the clock, the record store and the sync exchange.

use vstd::prelude::*;

verus! {

/// Why a record handler refused a message.
#[derive(Debug, Clone, Copy, PartialEq, Eq, Structural)]
pub enum HandlerError {
    /// The message addresses another dataset.
    WrongTable,
    /// The message addresses another row.
    WrongRow,
    /// The column is not one of the record's fields.
    UnknownColumn,
    /// The value does not parse as the column's type.
    InvalidValue,
}

#[derive(Debug, Clone, Copy, PartialEq, Eq, Structural)]
pub enum Error {
    /// The logical time would run more than the allowed drift ahead of the
    /// physical clock.
    ClockDrift,
    /// The counter would exceed its largest value within one millisecond.
    Overflow,
    /// A remote timestamp carries this node's own id.
    DuplicateNode,
    /// A timestamp string is malformed.
    Parse,
    /// A node id is not sixteen characters free of `-`.
    InvalidNode,
    /// The physical clock reads before the Unix epoch.
    ClockUnavailable,
    /// A record handler refused a message.
    Handler(HandlerError),
    /// A sync round reached the same divergence point twice.
    SyncStuck,
    /// A stored merkle trie was built with another base.
    BaseMismatch,
}

} // verus!
