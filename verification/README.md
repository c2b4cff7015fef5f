# convex_cluster

The logic of a partitioned, replicated database cluster, written in Verus: table
placement, commits and their timestamps, two-phase commits across partitions,
replication of commit deltas over a log, selective delivery, invalidation, and a
deterministic simulation of a whole cluster.

## Layout

- `src/` is the library. Nearly every function has a contract of its own that Verus
  proves. Impls of a trait's methods are held to what the trait says of them, and
  the wrappers named under "What is trusted" are believed. Laws that relate several
  functions are public proof functions beside them.
- `tests/` runs the library on concrete values.
- `app/` is ordinary Rust around the library: the NATS connection, stored
  placement, the exporter of metrics, clocks, and serialization.

## How the parts fit

Storage, consensus, timestamp oracles and the network are outside the library. A
function that needs an answer from them takes it as an argument, and one that has
something for them to do returns it as a value. Longer exchanges are small state
machines: whoever runs one performs the action that it is at and hands back what
came of it. `app/` runs the coordinator of two-phase commits in this way. The
committer's own machines (`CheckedTransaction`, `PrepareFlow`, `WriteFlow`,
`ParticipantFlow`, `PublishFlow`, `DeltaFlow` and `HeartbeatFlow`), its loop and the
start of a node need a storage engine and a Raft group, which are not part of this
project: they are for the program that has them.

## What is trusted

Calls into other crates stand behind wrappers with contracts that are believed:
random numbers (`rng.rs`), hexadecimal text (`hexadecimal.rs`), chains of errors
(`two_phase_coordinator/errors.rs`), how a text is shown (`placement.rs`), and
sharing by `Arc` (`documents.rs`). Each says in its doc comment what it claims of the function it calls.
