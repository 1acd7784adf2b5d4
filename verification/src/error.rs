//! What can go wrong with a request.

use crate::backend::BackendError;
use vstd::prelude::*;

verus! {

/// A request that is refused before the store is touched.
#[derive(Clone, Copy, Debug, PartialEq, Eq, Structural)]
pub enum ValidationError {
    /// The text is no address.
    InvalidAddress,
    /// The text is no duration, or the duration ends after the last moment
    /// that a time can hold.
    InvalidDuration,
}

/// Why a request on the store failed.
#[derive(Clone, Debug, PartialEq, Eq)]
pub enum FirewallError {
    /// The request itself is at fault.
    Validation(ValidationError),
    /// The backend did not do what it was asked.
    Backend(BackendError),
    /// The store has given out its last identifier.
    Exhausted,
}

} // verus!
