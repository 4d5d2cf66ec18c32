//! The errors of the store and of its coordinator.
use vstd::prelude::*;

verus! {

/// What can go wrong with a request.
#[derive(Debug, Clone, PartialEq, Eq)]
pub enum Error {
    /// A malformed request, such as an empty key; refused before any fan-out.
    InvalidArgument(String),
    /// A failure of the local storage.
    Io(String),
    /// A remote node answered with an error status.
    Rpc(String),
    /// A remote node could not be reached.
    Transport(String),
    /// The ring holds too few distinct nodes, or too few replicas answered.
    TooFewReplicas,
    /// Any other cause.
    Other(String),
}

/// The result of a request.
pub type Result<T> = core::result::Result<T, Error>;

} // verus!
