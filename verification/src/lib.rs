//! The decisions of a partitioned database cluster: which node owns a table, when
//! a transaction may commit, how commits reach the other partitions, and what each
//! node may read.
//!
//! - [`partition`] and [`placement`] say who owns what, and how an assignment of
//!   tables to partitions is published and refreshed.
//! - [`committer`] commits: it validates, assigns timestamps, writes, publishes,
//!   replicates, and takes part in commits that span partitions.
//! - [`two_phase_coordinator`] drives such a commit to its decision.
//! - [`conflict_resolver`] plans how reads and writes are checked for conflicts.
//! - [`nats_distributed_log`], [`selective_delivery`] and [`invalidation`] carry
//!   commits to the nodes that need them.
//! - [`local_backend`] settles what a node runs from how it was configured.
//! - [`metrics`] records what is measured.
//! - [`model`], [`network`], [`rng`] and [`sim`] are a deterministic simulation of
//!   a whole cluster, with proofs that no run breaks its invariants.
//!
//! The functions here take what the outside world answered and return what it is
//! to be asked next; they do no I/O.

pub mod committer;
pub mod conflict_resolver;
pub mod documents;
pub mod hexadecimal;
pub mod invalidation;
pub mod local_backend;
pub mod metrics;
pub mod model;
pub mod names;
pub mod nats_distributed_log;
pub mod network;
pub mod ordered;
pub mod partition;
pub mod placement;
pub mod rng;
pub mod selective_delivery;
pub mod sim;
pub mod table_set;
pub mod text;
pub mod text_map;
pub mod two_phase;
pub mod two_phase_coordinator;
pub mod types;
