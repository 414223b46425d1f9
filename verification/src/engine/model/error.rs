//! The ways in which an operation of the engine can fail.

use vstd::prelude::*;

verus! {

/// Why an operation did not take place.
#[derive(Clone, Copy, Debug, PartialEq, Eq, Structural)]
pub enum EngineError {
    /// The store of a context could not be opened, created or removed.
    StoreUnavailable,
    /// Stored data did not decode.
    Corrupted,
    /// A token id was looked up that the dictionary does not hold.
    NotFound,
    /// A change of several rows was refused; nothing of it took effect.
    TransactionFailure,
    /// The context behind a handle has been dropped.
    ContextDropped,
}

} // verus!
