//! The Raft consensus algorithm for one replica of a replicated state machine.

pub mod effect;
pub mod laws;
pub mod message;
pub mod model;
pub mod poll;
mod random;
pub mod replica;
mod sharing;
pub mod timer;

use vstd::prelude::*;

verus! {

/// Identifies a replica within the cluster.
pub type ReplicaID = usize;

} // verus!
