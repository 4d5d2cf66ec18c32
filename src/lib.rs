//! A coordinator for a replicated key-value store: keys are placed on nodes
//! by consistent hashing, and reads and writes are fanned out to the owning
//! nodes under configurable quorum thresholds.
use vstd::prelude::*;

pub mod error;
pub mod proto;
pub mod ring;
pub mod server;
pub mod store;

verus! {

/// A key of the store: an opaque, non-empty byte string.
#[derive(PartialEq, Eq, PartialOrd, Ord, Hash, Clone, Debug)]
pub struct Key(pub Vec<u8>);

/// A value of the store: an opaque byte string.
pub type Value = Vec<u8>;

/// The version of a stored value; `-1` stands for "absent or unknown".
pub type Version = i64;

/// A stored value together with its version.
pub type ValueVersion = (Value, Version);

} // verus!
