//! The failure taxonomy shared by every component.
//!
//! Each operation runs as one atomic transaction: an error means the whole
//! operation was rejected and no state was changed, and the variant names
//! the reason.

use vstd::prelude::*;

verus! {

/// Why an operation was rejected.
#[derive(Clone, Copy, Debug, PartialEq, Eq, Structural)]
pub enum Error {
    /// The acting account is not the one entitled to this operation.
    Unauthorized,
    /// The job, milestone, position, or pool addressed does not exist.
    NotFound,
    /// The job or milestone is in the wrong lifecycle state.
    InvalidState,
    /// A realized conversion output fell below the caller's minimum.
    SlippageExceeded,
    /// A withdrawal or transfer exceeds the available balance or principal.
    InsufficientBalance,
    /// A configuration write was attempted twice.
    AlreadyInitialized,
    /// An amount or count is outside the operation's domain.
    InvalidArgument,
    /// A computation would overflow the 128-bit amount range.
    Arithmetic,
}

} // verus!
