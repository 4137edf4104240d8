//! The closed set of failures a ledger operation can report.
//!
//! Every operation either succeeds or returns one of these values; the
//! library never panics on bad input. Rendering a failure as console text
//! is the caller's concern.

use vstd::prelude::*;

verus! {

/// One failure of a ledger operation. Variants carry the offending name or
/// text so that a caller can render a precise message.
#[derive(Debug, PartialEq, Eq)]
pub enum LedgerError {
    /// A command is missing required arguments or has the wrong shape.
    MalformedCommand,
    /// The first token of a command line is not a known verb.
    UnknownCommand(String),
    /// A name is already taken by a participant or task, or is a reserved
    /// token that can never name an entity.
    NameConflict(String),
    /// A name denotes neither a participant nor a task.
    NotFound(String),
    /// A name does not denote an existing participant.
    UnknownParticipant(String),
    /// A name does not denote an existing task.
    UnknownTask(String),
    /// The participant paid for the task, so they cannot merely be
    /// detached from it; the task itself must be removed.
    OwnsTask(String),
    /// An amount is not a non-negative decimal within the supported range.
    InvalidAmount(String),
    /// A snapshot violates the store's structural invariants.
    CorruptSnapshot,
    /// A file could not be opened, read or written. Only the unverified
    /// shell around the library constructs this.
    IoFailure(String),
}

} // verus!
