//! Errors of the dispatchable operations.

use vstd::prelude::*;

verus! {

/// Why an operation was refused. A refused operation changes nothing.
#[derive(Clone, Copy, Debug, PartialEq, Eq, Structural)]
pub enum Error {
    /// The caller is not the owner, not a key server, or has claimed no id,
    /// where that is required.
    InvalidOrigin,
    /// The entity id or the account is already bound.
    IdConflict,
    /// A key-server set edit does not fit the set: adding a member that is
    /// there, editing one that is not, editing while migrating.
    SetInvariant,
    /// A migration step does not fit the migration state.
    MigrationInvariant,
    /// The queue of the service kind is full.
    QueueFull,
    /// A request with the same key is already queued.
    DuplicateRequest,
    /// A parameter is out of range (a threshold too large).
    BadParameters,
    /// The service fee could not be paid.
    FeePaymentFailed,
}

} // verus!
