use vstd::prelude::*;

verus! {

/// Failure kinds shared by every operation of the library.
///
/// Every fallible operation aborts atomically (no partial effect) and
/// reports one of these kinds to the caller.
#[derive(Clone, Copy, Debug, PartialEq, Eq, Structural)]
pub enum Error {
    /// An unknown intent, drop, token or data id.
    NotFound,
    /// A privileged operation attempted by a caller other than the owner.
    Unauthorized,
    /// An operation outside its required source status.
    InvalidState,
    /// An empty or malformed input.
    InvalidArgument,
    /// An asynchronous request could not even be dispatched.
    ExternalCallFailure,
}

} // verus!
