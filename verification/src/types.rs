//! Identifier and value types shared across the simulation.
use vstd::prelude::*;

verus! {

/// A node, which in this model is also a partition: one single-writer per
/// partition (the committer). Node 0 is the cluster coordinator and placement
/// owner.
pub type NodeId = u32;

/// A logical key. Each key is owned by exactly one partition.
pub type Key = u32;

/// A commit timestamp from the global timestamp oracle. Strictly increasing.
pub type Ts = u64;

/// A written value. Unique per write, so a checker can tell which transaction
/// produced a stored value. 0 stands for "never written".
pub type Value = u64;

/// A two-phase transaction id, assigned by the coordinator.
pub type TxnId = u64;

/// Virtual simulation time, in abstract ticks. Never wall-clock.
pub type SimTime = u64;

} // verus!
