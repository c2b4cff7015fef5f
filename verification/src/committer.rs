//! The committer: the single writer of a partition.
//!
//! All writes, local and replicated, go through one committer, which assigns
//! commit timestamps, checks for conflicts, and publishes what was written in
//! the order in which it was queued. This module and the ones below it hold the
//! committer's state and every decision it takes. What only the outside can do
//! (draw a timestamp, read the write log, apply an update to a snapshot, write
//! to persistence, propose to Raft, publish to the replication log) comes in as
//! an argument, or goes out as an action whose outcome comes in later.
use crate::documents::{DocumentLogEntry, DocumentUpdate, IndexEntry};
use crate::names::WriteSource;
use crate::partition::{PartitionId, Placement, Routing};
use crate::placement::PlacementState;
use crate::text;
use crate::text_map::TextMap;
use std::collections::BTreeMap;
use std::sync::Arc;
use vstd::prelude::*;
use vstd::string::*;

pub mod bootstrap;
pub mod checked;
pub mod client;
pub mod delta;
pub mod delta_flow;
pub mod flow;
pub mod go;
pub mod hot_path;
pub mod index_metadata;
pub mod install;
pub mod install_plan;
pub mod order;
pub mod outbox;
pub mod participant;
pub mod prepared;
pub mod publish;
pub mod raft;
pub mod replica;
pub mod routing;
pub mod staging;
pub mod usage;
pub mod write;

verus! {

broadcast use {vstd::std_specs::btree::group_btree_axioms, vstd::laws_cmp::group_laws_cmp};

/// The largest timestamp.
pub const MAX_TIMESTAMP: u64 = 0x7fff_ffff_ffff_ffff;

/// The smallest timestamp.
pub const MIN_TIMESTAMP: u64 = 0;

/// Marks the moment at which a commit is in persistence but not yet published.
pub const AFTER_PENDING_WRITE_SNAPSHOT: &'static str = "after_pending_write_snapshot";

/// What an optimistic concurrency conflict remembers of the transaction.
#[derive(Debug)]
pub struct Conflict {
    pub ts: Option<u64>,
    pub source: Option<String>,
}

/// Why the committer refused to do something.
#[derive(Debug)]
pub struct CommitError {
    pub message: String,
    /// Set where retrying on a fresher view of the data may succeed.
    pub occ: Option<Conflict>,
}

/// A refusal, as contracts speak of it.
#[verifier::ext_equal]
pub struct Refusal {
    pub text: Seq<char>,
    pub occ: Option<(Option<u64>, Option<Seq<char>>)>,
}

impl View for CommitError {
    type V = Refusal;

    open spec fn view(&self) -> Refusal {
        Refusal {
            text: self.message@,
            occ: match self.occ {
                Some(c) => Some(
                    (
                        c.ts,
                        match c.source {
                            Some(s) => Some(s@),
                            None => None,
                        },
                    ),
                ),
                None => None,
            },
        }
    }
}

/// A refusal that no retry helps.
pub open spec fn refused(text: Seq<char>) -> Refusal {
    Refusal { text, occ: None }
}

/// A refusal of a transaction that began at `ts` and may be retried.
pub open spec fn conflicted(text: Seq<char>, ts: Option<u64>, source: Option<Seq<char>>) -> Refusal {
    Refusal { text, occ: Some((ts, source)) }
}

/// A refusal with more said in front of it.
pub open spec fn in_context(context: Seq<char>, cause: Refusal) -> Refusal {
    Refusal { text: context + ": "@ + cause.text, occ: cause.occ }
}

impl CommitError {
    /// A refusal that no retry helps.
    pub fn new(message: String) -> (r: Self)
        ensures
            r@ == refused(message@),
    {
        CommitError { message, occ: None }
    }

    /// A refusal of a transaction that began at `ts` and may be retried.
    pub fn system_occ(message: String, ts: Option<u64>, source: &WriteSource) -> (r: Self)
        ensures
            r@ == conflicted(message@, ts, source@),
    {
        let source: Option<String> = match source.as_str() {
            Some(s) => Some(s.to_owned()),
            None => None,
        };
        CommitError { message, occ: Some(Conflict { ts, source }) }
    }

    /// The same refusal with more said in front of it.
    pub fn context(self, context: &str) -> (r: Self)
        ensures
            r@ == in_context(context@, self@),
    {
        let mut s: String = context.to_owned();
        s.append(": ");
        s.append(self.message.as_str());
        assert(s@ =~= context@ + ": "@ + self.message@);
        CommitError { message: s, occ: self.occ }
    }
}

/// The timestamp after `ts`.
pub open spec fn next_ts(ts: u64) -> Option<u64> {
    if ts < MAX_TIMESTAMP {
        Some((ts + 1) as u64)
    } else {
        None
    }
}

/// The larger of two timestamps.
pub open spec fn later(a: u64, b: u64) -> u64 {
    if a >= b {
        a
    } else {
        b
    }
}

/// Said when there is no timestamp after the last one.
pub open spec fn overflow_refusal() -> Refusal {
    refused("Timestamp overflow"@)
}

/// Said when there is no timestamp before the first one.
pub open spec fn underflow_refusal() -> Refusal {
    refused("Timestamp underflow"@)
}

pub(crate) fn overflow_error() -> (r: CommitError)
    ensures
        r@ == overflow_refusal(),
{
    CommitError::new("Timestamp overflow".to_owned())
}

pub(crate) fn underflow_error() -> (r: CommitError)
    ensures
        r@ == underflow_refusal(),
{
    CommitError::new("Timestamp underflow".to_owned())
}

pub(crate) fn later_of(a: u64, b: u64) -> (r: u64)
    ensures
        r == later(a, b),
{
    if a >= b {
        a
    } else {
        b
    }
}

/// A version of the database's metadata and indexes.
///
/// The versions themselves are kept outside; this is how they are found again.
#[derive(Clone, Copy, Debug, PartialEq, Eq, Structural)]
pub struct SnapshotId(pub u64);

/// What a node knows of the Raft group of its partition.
#[derive(Clone, Copy, Debug, PartialEq, Eq, Structural)]
pub struct RaftState {
    pub partition: PartitionId,
    pub node_id: u64,
    pub is_leader: bool,
    pub leader_id: u64,
}

/// How a commit went.
#[derive(Clone, Copy, Debug, PartialEq, Eq, Structural)]
pub struct CommitOutcome {
    pub ts: u64,
    pub source_partition: Option<PartitionId>,
}

/// A commit on its way to persistence: later commits are checked against it and
/// build on its snapshot, but nobody reads it yet.
#[derive(Debug)]
pub struct PendingWrite {
    pub ts: u64,
    pub updates: Arc<Vec<DocumentUpdate>>,
    pub source: Arc<WriteSource>,
    pub snapshot: SnapshotId,
}

/// A transaction that has been prepared and waits to be committed or rolled
/// back. Its intent, which others are checked against, is part of it.
#[derive(Debug)]
pub struct PreparedTransaction {
    /// The timestamp the transaction commits at on its own partition's leader.
    pub origin_ts: u64,
    /// The timestamp it is staged at here.
    pub commit_ts: u64,
    pub write_bytes: u64,
    pub document_writes: Arc<Vec<DocumentLogEntry>>,
    pub index_writes: Arc<Vec<IndexEntry>>,
    pub updates: Arc<Vec<DocumentUpdate>>,
    pub source: Arc<WriteSource>,
    pub snapshot: SnapshotId,
}

/// The snapshot of a write that is queued but not published.
#[derive(Clone, Copy, Debug, PartialEq, Eq, Structural)]
pub struct QueuedSnapshot {
    pub commit_id: usize,
    pub ts: u64,
    pub snapshot: SnapshotId,
}

/// The state of the committer of one partition.
#[derive(Debug)]
pub struct Committer {
    /// Commits that are not published yet, oldest first.
    pub pending: Vec<PendingWrite>,
    /// Prepared transactions, by transaction.
    pub prepared: TextMap<PreparedTransaction>,
    /// Snapshots of queued writes, in the order in which they will be published.
    ///
    /// Local commits and replica deltas both build on the latest queued snapshot,
    /// not just the latest published one, or a later publish could erase earlier
    /// catalog changes from the next transaction's view.
    pub queued: Vec<QueuedSnapshot>,
    /// The timestamp of the last entry of the write log.
    pub log_max_ts: u64,
    /// The timestamp of the latest published snapshot.
    pub latest_ts: u64,
    pub latest_snapshot: SnapshotId,
    /// The latest timestamp that is known to be repeatable everywhere.
    pub max_repeatable_ts: u64,
    pub last_assigned_ts: u64,
    /// Whether timestamps come from an oracle rather than the local clock.
    pub has_oracle: bool,
    /// Which tables this node owns; a node without placement owns everything.
    pub placement: Option<PlacementState>,
    /// Unset where the partition is not replicated by Raft.
    pub raft: Option<RaftState>,
    /// Up to where this node can read each other partition.
    pub frontiers: BTreeMap<u32, u64>,
    /// Up to where this node has applied writes of each other partition.
    pub write_frontiers: BTreeMap<u32, u64>,
    /// What has been received of each other partition, as readers see it.
    pub published_watermarks: BTreeMap<u32, u64>,
    /// What has been received of each other partition, by the timestamps of the
    /// partition itself. Heartbeats count, so it serves read-after-write waits
    /// but not the recognition of deltas delivered twice.
    pub watermarks: BTreeMap<u32, u64>,
    /// The same without heartbeats.
    pub data_watermarks: BTreeMap<u32, u64>,
}

/// The state of a committer, as contracts speak of it.
#[verifier::ext_equal]
pub struct CommitterState {
    pub pending: Seq<PendingWrite>,
    pub prepared: Map<Seq<char>, PreparedTransaction>,
    pub queued: Seq<QueuedSnapshot>,
    pub log_max_ts: u64,
    pub latest_ts: u64,
    pub latest_snapshot: SnapshotId,
    pub max_repeatable_ts: u64,
    pub last_assigned_ts: u64,
    pub has_oracle: bool,
    pub placement: Option<(PartitionId, Placement)>,
    pub raft: Option<RaftState>,
    pub frontiers: Map<u32, u64>,
    pub write_frontiers: Map<u32, u64>,
    pub published_watermarks: Map<u32, u64>,
    pub watermarks: Map<u32, u64>,
    pub data_watermarks: Map<u32, u64>,
}

impl View for Committer {
    type V = CommitterState;

    open spec fn view(&self) -> CommitterState {
        CommitterState {
            pending: self.pending@,
            prepared: self.prepared@,
            queued: self.queued@,
            log_max_ts: self.log_max_ts,
            latest_ts: self.latest_ts,
            latest_snapshot: self.latest_snapshot,
            max_repeatable_ts: self.max_repeatable_ts,
            last_assigned_ts: self.last_assigned_ts,
            has_oracle: self.has_oracle,
            placement: match self.placement {
                Some(p) => Some(p@),
                None => None,
            },
            raft: self.raft,
            frontiers: self.frontiers@,
            write_frontiers: self.write_frontiers@,
            published_watermarks: self.published_watermarks@,
            watermarks: self.watermarks@,
            data_watermarks: self.data_watermarks@,
        }
    }
}

/// A per-partition map with the entry of `partition` raised to at least `ts`.
pub open spec fn raised(m: Map<u32, u64>, partition: PartitionId, ts: u64) -> Map<u32, u64> {
    if m.contains_key(partition.0) && m[partition.0] >= ts {
        m
    } else {
        m.insert(partition.0, ts)
    }
}

/// Raises the entry of `partition` to at least `ts`.
pub fn raise(m: &mut BTreeMap<u32, u64>, partition: PartitionId, ts: u64)
    ensures
        final(m)@ == raised(old(m)@, partition, ts),
        final(m)@.contains_key(partition.0),
        final(m)@[partition.0] >= ts,
        old(m)@.contains_key(partition.0) ==> final(m)@[partition.0] >= old(m)@[partition.0],
        final(m)@.remove(partition.0) == old(m)@.remove(partition.0),
{
    let behind = match m.get(&partition.0) {
        Some(current) => *current < ts,
        None => true,
    };
    if behind {
        m.insert(partition.0, ts);
    }
}

/// Another copy of a per-partition map.
pub fn copy_timestamps(m: &BTreeMap<u32, u64>) -> (r: BTreeMap<u32, u64>)
    ensures
        r@ == m@,
{
    let keys = crate::ordered::keys_u32(m);
    let mut r: BTreeMap<u32, u64> = BTreeMap::new();
    let mut i: usize = 0;
    while i < keys.len()
        invariant
            i <= keys@.len(),
            keys@.to_set() == m@.dom(),
            r@ == m@.restrict(keys@.take(i as int).to_set()),
        decreases keys@.len() - i,
    {
        let k: u32 = keys[i];
        proof {
            assert(keys@.to_set().contains(k));
            assert(keys@.take(i + 1) =~= keys@.take(i as int).push(k));
            assert(keys@.take(i + 1).to_set() =~= keys@.take(i as int).to_set().insert(k)) by {
                let before = keys@.take(i as int);
                assert forall|x: u32|
                    before.push(k).to_set().contains(x) implies before.to_set().insert(k).contains(
                    x,
                ) by {
                    let j = choose|j: int| 0 <= j < before.push(k).len() && before.push(k)[j] == x;
                    if j < before.len() {
                        assert(before[j] == x);
                    }
                }
                assert forall|x: u32|
                    before.to_set().insert(k).contains(x) implies before.push(k).to_set().contains(
                    x,
                ) by {
                    if x == k {
                        assert(before.push(k)[before.len() as int] == k);
                    } else {
                        let j = choose|j: int| 0 <= j < before.len() && before[j] == x;
                        assert(before.push(k)[j] == x);
                    }
                }
            }
        }
        if let Some(v) = m.get(&k) {
            r.insert(k, *v);
        }
        assert(r@ =~= m@.restrict(keys@.take(i + 1).to_set()));
        i += 1;
    }
    assert(keys@.take(i as int) =~= keys@);
    assert(r@ =~= m@);
    r
}

impl CommitterState {
    /// The partition this node acts for in two-phase commits.
    pub open spec fn local_partition(self) -> PartitionId {
        match self.placement {
            Some(p) => p.0,
            None => PartitionId(0),
        }
    }

    /// How this node routes tables, where it has a placement.
    pub open spec fn routing(self) -> Routing {
        match self.placement {
            Some(p) => p.1.routing(p.0),
            None => arbitrary(),
        }
    }

    /// The partition that a commit's delta names as its source.
    pub open spec fn source_partition(self) -> Option<PartitionId> {
        match self.placement {
            Some(p) => Some(p.0),
            None => None,
        }
    }

    /// Whether this node shares the data with others.
    pub open spec fn is_partitioned(self) -> bool {
        match self.placement {
            Some(p) => p.1.num_partitions > 1,
            None => false,
        }
    }

    /// Whether this node may write for its partition.
    pub open spec fn leads(self) -> bool {
        match self.raft {
            Some(raft) => raft.is_leader,
            None => true,
        }
    }

    /// The first timestamp a local commit may take.
    pub open spec fn commit_floor(self) -> Option<u64> {
        match (next_ts(self.log_max_ts), next_ts(self.latest_ts), next_ts(self.last_assigned_ts)) {
            (Some(log), Some(latest), Some(assigned)) => Some(later(log, later(latest, assigned))),
            _ => None,
        }
    }

    /// What a timestamp that was drawn for a commit comes to.
    pub open spec fn commit_ts(self, drawn: Result<u64, Refusal>) -> Result<u64, Refusal> {
        match self.commit_floor() {
            None => Err(overflow_refusal()),
            Some(floor) => match drawn {
                Err(e) => Err(e),
                Ok(ts) => if !self.has_oracle {
                    Ok(later(floor, ts))
                } else if ts >= floor {
                    Ok(ts)
                } else {
                    Err(below_floor(ts, floor))
                },
            },
        }
    }

    /// The state after a timestamp was assigned.
    pub open spec fn assigned(self, ts: u64) -> CommitterState {
        CommitterState { last_assigned_ts: ts, ..self }
    }

    /// What the next repeatable timestamp comes to, given what would be drawn.
    pub open spec fn repeatable_ts(self, drawn: Result<u64, Refusal>) -> Result<u64, Refusal> {
        if !self.prepared.dom().is_empty() {
            Ok(self.max_repeatable_ts)
        } else if self.pending.len() > 0 {
            let first = least_pending(self.pending);
            if first > self.last_assigned_ts {
                Err(refused("pending write is later than the last assigned timestamp"@))
            } else if first == 0 {
                Err(underflow_refusal())
            } else {
                Ok((first - 1) as u64)
            }
        } else {
            self.commit_ts(drawn)
        }
    }

    /// Whether finding the next repeatable timestamp takes a new timestamp.
    pub open spec fn repeatable_ts_is_drawn(self) -> bool {
        self.prepared.dom().is_empty() && self.pending.len() == 0
    }

    /// The snapshot that new writes build on.
    pub open spec fn base_snapshot(self) -> SnapshotId {
        if self.queued.len() == 0 && self.pending.len() == 0 {
            self.latest_snapshot
        } else if self.pending.len() == 0 {
            self.queued.last().snapshot
        } else if self.queued.len() == 0 {
            self.pending.last().snapshot
        } else if self.queued.last().ts >= self.pending.last().ts {
            self.queued.last().snapshot
        } else {
            self.pending.last().snapshot
        }
    }

    /// Whether a write with this id and timestamp can be queued behind the
    /// others.
    pub open spec fn can_queue(self, commit_id: usize, ts: u64) -> bool {
        self.queued.len() > 0 ==> self.queued.last().commit_id < commit_id && self.queued.last().ts
            <= ts
    }

    /// Queued writes are in the order of their ids and timestamps.
    pub open spec fn queue_in_order(self) -> bool {
        forall|i: int, j: int|
            0 <= i < j < self.queued.len() ==> (#[trigger] self.queued[i]).commit_id
                < (#[trigger] self.queued[j]).commit_id && self.queued[i].ts <= self.queued[j].ts
    }
}

/// Said of an oracle that hands out a timestamp from the past.
pub open spec fn below_floor(ts: u64, floor: u64) -> Refusal {
    refused(
        "TSO returned ts="@ + text::dec(ts as nat) + " below requested local floor "@ + text::dec(
            floor as nat,
        ),
    )
}

/// The smallest timestamp of `pending`.
pub open spec fn least_pending(pending: Seq<PendingWrite>) -> u64
    decreases pending.len(),
{
    if pending.len() <= 1 {
        pending[0].ts
    } else {
        let rest = least_pending(pending.drop_last());
        if pending.last().ts < rest {
            pending.last().ts
        } else {
            rest
        }
    }
}

/// The result of an operation, as contracts speak of it.
pub open spec fn outcome<T>(r: Result<T, CommitError>) -> Result<T, Refusal> {
    match r {
        Ok(v) => Ok(v),
        Err(e) => Err(e@),
    }
}

impl Committer {
    /// A committer at the start of its life.
    pub fn new(
        log_max_ts: u64,
        latest_ts: u64,
        latest_snapshot: SnapshotId,
        max_repeatable_ts: u64,
        has_oracle: bool,
        placement: Option<PlacementState>,
        raft: Option<RaftState>,
        frontiers: BTreeMap<u32, u64>,
        watermarks: BTreeMap<u32, u64>,
        data_watermarks: BTreeMap<u32, u64>,
    ) -> (r: Self)
        ensures
            r@ == (CommitterState {
                pending: Seq::empty(),
                prepared: Map::empty(),
                queued: Seq::empty(),
                log_max_ts,
                latest_ts,
                latest_snapshot,
                max_repeatable_ts,
                last_assigned_ts: MIN_TIMESTAMP,
                has_oracle,
                placement: match placement {
                    Some(p) => Some(p@),
                    None => None,
                },
                raft,
                frontiers: frontiers@,
                write_frontiers: Map::empty(),
                published_watermarks: watermarks@,
                watermarks: watermarks@,
                data_watermarks: data_watermarks@,
            }),
    {
        let published_watermarks = copy_timestamps(&watermarks);
        let r = Committer {
            pending: Vec::new(),
            prepared: TextMap::new(),
            queued: Vec::new(),
            log_max_ts,
            latest_ts,
            latest_snapshot,
            max_repeatable_ts,
            last_assigned_ts: MIN_TIMESTAMP,
            has_oracle,
            placement,
            raft,
            frontiers,
            write_frontiers: BTreeMap::new(),
            published_watermarks,
            watermarks,
            data_watermarks,
        };
        assert(r@.write_frontiers =~= Map::<u32, u64>::empty());
        r
    }

    /// The partition this node acts for in two-phase commits.
    pub fn local_partition_for_two_phase(&self) -> (r: PartitionId)
        ensures
            r == self@.local_partition(),
    {
        match &self.placement {
            Some(p) => p.local_partition(),
            None => PartitionId(0),
        }
    }

    /// The partition that a commit's delta names as its source.
    pub fn source_partition(&self) -> (r: Option<PartitionId>)
        ensures
            r == self@.source_partition(),
    {
        match &self.placement {
            Some(p) => Some(p.local_partition()),
            None => None,
        }
    }

    /// Whether this node shares the data with others.
    pub fn is_partitioned(&self) -> (r: bool)
        ensures
            r == self@.is_partitioned(),
    {
        match &self.placement {
            Some(p) => p.num_partitions() > 1,
            None => false,
        }
    }

    /// Whether this node may write for its partition.
    pub fn leads(&self) -> (r: bool)
        ensures
            r == self@.leads(),
    {
        match &self.raft {
            Some(raft) => raft.is_leader,
            None => true,
        }
    }

    /// The latest queued snapshot, with its timestamp.
    pub fn latest_queued_snapshot(&self) -> (r: Option<(u64, SnapshotId)>)
        ensures
            r == if self@.queued.len() > 0 {
                Some((self@.queued.last().ts, self@.queued.last().snapshot))
            } else {
                None
            },
    {
        let n: usize = self.queued.len();
        if n > 0 {
            Some((self.queued[n - 1].ts, self.queued[n - 1].snapshot))
        } else {
            None
        }
    }

    /// The snapshot that new writes build on: the newest of what is queued, what
    /// is pending and what is published.
    pub fn base_snapshot_for_new_writes(&self) -> (r: SnapshotId)
        ensures
            r == self@.base_snapshot(),
    {
        let n: usize = self.pending.len();
        match self.latest_queued_snapshot() {
            Some((queued_ts, queued)) => {
                if n > 0 && queued_ts < self.pending[n - 1].ts {
                    self.pending[n - 1].snapshot
                } else {
                    queued
                }
            },
            None => {
                if n > 0 {
                    self.pending[n - 1].snapshot
                } else {
                    self.latest_snapshot
                }
            },
        }
    }

    /// Queues the snapshot of a write behind the others.
    pub fn enqueue_snapshot(&mut self, commit_id: usize, ts: u64, snapshot: SnapshotId)
        requires
            old(self)@.can_queue(commit_id, ts),
        ensures
            final(self)@ == (CommitterState {
                queued: old(self)@.queued.push(QueuedSnapshot { commit_id, ts, snapshot }),
                ..old(self)@
            }),
            old(self)@.queue_in_order() ==> final(self)@.queue_in_order(),
    {
        self.queued.push(QueuedSnapshot { commit_id, ts, snapshot });
    }

    /// Whether a write with this id and timestamp can be queued behind the
    /// others.
    pub fn can_enqueue(&self, commit_id: usize, ts: u64) -> (r: bool)
        ensures
            r == self@.can_queue(commit_id, ts),
    {
        let n: usize = self.queued.len();
        n == 0 || (self.queued[n - 1].commit_id < commit_id && self.queued[n - 1].ts <= ts)
    }

    /// Takes the snapshot of the write that is published next off the queue.
    pub fn dequeue_snapshot(&mut self, commit_id: usize)
        requires
            old(self)@.queued.len() > 0,
            old(self)@.queued[0].commit_id == commit_id,
        ensures
            final(self)@ == (CommitterState { queued: old(self)@.queued.skip(1), ..old(self)@ }),
            old(self)@.queue_in_order() ==> final(self)@.queue_in_order(),
    {
        self.queued.remove(0);
        assert(self@.queued =~= old(self)@.queued.skip(1));
    }

    /// The first timestamp a local commit may take: after everything in the
    /// write log, after the latest snapshot, and after every timestamp that was
    /// handed out.
    pub fn local_commit_floor(&self) -> (r: Result<u64, CommitError>)
        ensures
            outcome(r) == match self@.commit_floor() {
                Some(floor) => Ok::<u64, Refusal>(floor),
                None => Err(overflow_refusal()),
            },
    {
        if self.log_max_ts >= MAX_TIMESTAMP || self.latest_ts >= MAX_TIMESTAMP
            || self.last_assigned_ts >= MAX_TIMESTAMP {
            return Err(overflow_error());
        }
        Ok(later_of(self.log_max_ts + 1, later_of(self.latest_ts + 1, self.last_assigned_ts + 1)))
    }

    /// Assigns the next commit timestamp, given what the oracle or the clock gave
    /// for the floor.
    ///
    /// The oracle's timestamps are unique in the cluster and are taken as they
    /// are; one below the floor is refused. The clock's are raised to the floor.
    pub fn next_commit_ts(&mut self, drawn: Result<u64, CommitError>) -> (r: Result<u64, CommitError>)
        ensures
            outcome(r) == old(self)@.commit_ts(outcome(drawn)),
            final(self)@ == match r {
                Ok(ts) => old(self)@.assigned(ts),
                Err(_) => old(self)@,
            },
            r matches Ok(ts) ==> {
                &&& drawn matches Ok(t)
                &&& ts >= t
                &&& old(self).has_oracle ==> ts == t
                &&& ts > old(self).log_max_ts
                &&& ts > old(self).latest_ts
                &&& ts > old(self).last_assigned_ts
                &&& final(self).last_assigned_ts == ts
            },
    {
        let floor: u64 = match self.local_commit_floor() {
            Ok(floor) => floor,
            Err(e) => {
                return Err(e);
            },
        };
        let ts: u64 = match drawn {
            Ok(ts) => ts,
            Err(e) => {
                return Err(e);
            },
        };
        if !self.has_oracle {
            let max: u64 = later_of(floor, ts);
            self.last_assigned_ts = max;
            return Ok(max);
        }
        if ts < floor {
            let mut s: String = String::new();
            s.append("TSO returned ts=");
            text::push_dec(&mut s, ts);
            s.append(" below requested local floor ");
            text::push_dec(&mut s, floor);
            assert(s@ =~= below_floor(ts, floor).text);
            return Err(CommitError::new(s));
        }
        self.last_assigned_ts = ts;
        Ok(ts)
    }

    /// The smallest timestamp of the pending commits.
    pub fn min_pending_ts(&self) -> (r: Option<u64>)
        ensures
            r == if self@.pending.len() > 0 {
                Some(least_pending(self@.pending))
            } else {
                None
            },
    {
        if self.pending.len() == 0 {
            return None;
        }
        let mut least: u64 = self.pending[0].ts;
        let mut i: usize = 1;
        while i < self.pending.len()
            invariant
                1 <= i <= self.pending@.len(),
                least == least_pending(self.pending@.take(i as int)),
            decreases self.pending@.len() - i,
        {
            assert(self.pending@.take(i + 1).drop_last() =~= self.pending@.take(i as int));
            if self.pending[i].ts < least {
                least = self.pending[i].ts;
            }
            i += 1;
        }
        assert(self.pending@.take(i as int) =~= self.pending@);
        Some(least)
    }

    /// The next timestamp that will be repeatable everywhere, given what would be
    /// drawn for a commit.
    ///
    /// It never reaches a write that others cannot read yet: it stands still
    /// while transactions are prepared, and stays just before the first pending
    /// commit. With neither it is a new timestamp, and no later commit comes
    /// before it.
    pub fn next_max_repeatable_ts(&mut self, drawn: Result<u64, CommitError>) -> (r: Result<u64, CommitError>)
        ensures
            outcome(r) == old(self)@.repeatable_ts(outcome(drawn)),
            final(self)@ == match r {
                Ok(ts) => if old(self)@.repeatable_ts_is_drawn() {
                    old(self)@.assigned(ts)
                } else {
                    old(self)@
                },
                Err(_) => old(self)@,
            },
    {
        if !self.prepared.is_empty() {
            return Ok(self.max_repeatable_ts);
        }
        match self.min_pending_ts() {
            Some(first) => {
                if first > self.last_assigned_ts {
                    return Err(
                        CommitError::new(
                            "pending write is later than the last assigned timestamp".to_owned(),
                        ),
                    );
                }
                if first == 0 {
                    return Err(underflow_error());
                }
                Ok(first - 1)
            },
            None => self.next_commit_ts(drawn),
        }
    }
}

/// Every pending commit is at or after the least of them.
pub proof fn lemma_least_pending(pending: Seq<PendingWrite>, i: int)
    requires
        0 <= i < pending.len(),
    ensures
        least_pending(pending) <= pending[i].ts,
    decreases pending.len(),
{
    if pending.len() > 1 && i < pending.len() - 1 {
        lemma_least_pending(pending.drop_last(), i);
        assert(pending.drop_last()[i] == pending[i]);
    }
}

/// A commit's timestamp is after everything in the write log, after the latest
/// snapshot, and after every timestamp assigned before it.
pub proof fn commit_timestamps_increase(state: CommitterState, drawn: Result<u64, Refusal>)
    ensures
        state.commit_ts(drawn) matches Ok(ts) ==> ts > state.log_max_ts && ts > state.latest_ts && ts
            > state.last_assigned_ts,
{
}

/// A timestamp that becomes repeatable is before every pending commit, so that
/// nobody reads at the timestamp of a commit that may not happen.
pub proof fn repeatable_timestamps_precede_pending_commits(
    state: CommitterState,
    drawn: Result<u64, Refusal>,
    i: int,
)
    requires
        state.prepared.dom().is_empty(),
        0 <= i < state.pending.len(),
    ensures
        state.repeatable_ts(drawn) matches Ok(ts) ==> ts < state.pending[i].ts,
{
    lemma_least_pending(state.pending, i);
}

/// The repeatable timestamp stands still while a transaction is prepared.
pub proof fn repeatable_timestamp_waits_for_prepared_transactions(
    state: CommitterState,
    drawn: Result<u64, Refusal>,
)
    requires
        !state.prepared.dom().is_empty(),
    ensures
        state.repeatable_ts(drawn) == Ok::<u64, Refusal>(state.max_repeatable_ts),
{
}

/// A timestamp that became repeatable is before every commit that comes later.
pub proof fn later_commits_follow_repeatable_timestamps(
    state: CommitterState,
    drawn: Result<u64, Refusal>,
    ts: u64,
    drawn_later: Result<u64, Refusal>,
)
    requires
        state.repeatable_ts_is_drawn(),
        state.repeatable_ts(drawn) == Ok::<u64, Refusal>(ts),
    ensures
        state.assigned(ts).commit_ts(drawn_later) matches Ok(next) ==> ts < next,
{
}

/// An error says its message and, where a retry may help, what the conflict was; a
/// context goes in front and changes nothing else.
pub proof fn errors_say_their_messages(e: CommitError, context: Seq<char>)
    ensures
        e@.text == e.message@,
        e@.occ is Some <==> e.occ is Some,
        e.occ matches Some(c) ==> (e@.occ->0).0 == c.ts && match c.source {
            Some(s) => (e@.occ->0).1 == Some(s@),
            None => (e@.occ->0).1 is None,
        },
        in_context(context, e@).occ == e@.occ,
        in_context(context, e@).text == context + ": "@ + e.message@,
{
}

/// An oracle's timestamp is taken as it was drawn or not at all; the clock's is
/// only ever raised, and no further than it takes to come after everything else.
pub proof fn timestamps_are_assigned_as_drawn(state: CommitterState, drawn: Result<u64, Refusal>)
    ensures
        state.commit_ts(drawn) matches Ok(ts) ==> {
            &&& drawn matches Ok(t)
            &&& state.has_oracle ==> ts == t
            &&& ts >= t
            &&& ts == t || ts == state.log_max_ts + 1 || ts == state.latest_ts + 1 || ts
                == state.last_assigned_ts + 1
        },
        drawn matches Err(e) ==> state.commit_ts(drawn) is Err,
{
}

/// A timestamp is assigned wherever there is one to assign: where none of the three
/// has run out, always from the clock, and from the oracle if what it gave comes
/// after everything else.
pub proof fn timestamps_are_assigned_where_there_are_any(state: CommitterState, t: u64)
    requires
        state.log_max_ts < 0x7fff_ffff_ffff_ffff,
        state.latest_ts < 0x7fff_ffff_ffff_ffff,
        state.last_assigned_ts < 0x7fff_ffff_ffff_ffff,
    ensures
        !state.has_oracle ==> state.commit_ts(Ok(t)) is Ok,
        state.has_oracle ==> (state.commit_ts(Ok(t)) is Ok <==> t > state.log_max_ts && t
            > state.latest_ts && t > state.last_assigned_ts),
        state.commit_ts(Ok(t)) == Ok::<u64, Refusal>(t) <==> t > state.log_max_ts && t
            > state.latest_ts && t > state.last_assigned_ts,
{
}

/// Two nodes with an oracle that were given different timestamps commit at different
/// ones.
pub proof fn distinct_draws_give_distinct_timestamps(
    one: CommitterState,
    other: CommitterState,
    t: u64,
    u: u64,
)
    requires
        one.has_oracle,
        other.has_oracle,
        t != u,
    ensures
        one.commit_ts(Ok(t)) is Ok && other.commit_ts(Ok(u)) is Ok ==> one.commit_ts(Ok(t))
            != other.commit_ts(Ok(u)),
{
}

/// Assigning a timestamp is remembered and changes nothing else, so that the next
/// one comes after it.
pub proof fn assigned_timestamps_are_remembered(
    state: CommitterState,
    first: Result<u64, Refusal>,
    second: Result<u64, Refusal>,
)
    requires
        state.commit_ts(first) is Ok,
    ensures
        ({
            let ts = state.commit_ts(first)->Ok_0;
            let after = state.assigned(ts);
            &&& after.last_assigned_ts == ts
            &&& after == (CommitterState { last_assigned_ts: after.last_assigned_ts, ..state })
            &&& after.commit_ts(second) matches Ok(next) ==> next > ts
        }),
{
}

/// With nothing pending and nothing prepared, what becomes repeatable is a new
/// timestamp, drawn like that of a commit; otherwise nothing is drawn.
pub proof fn repeatable_timestamps_are_drawn_when_idle(state: CommitterState, drawn: Result<u64, Refusal>)
    ensures
        state.repeatable_ts_is_drawn() <==> state.pending.len() == 0
            && state.prepared.dom().is_empty(),
        state.repeatable_ts_is_drawn() ==> (state.repeatable_ts(drawn) matches Ok(ts) ==> {
            &&& ts > state.log_max_ts
            &&& ts > state.latest_ts
            &&& ts > state.last_assigned_ts
            &&& drawn matches Ok(t) && (state.has_oracle ==> ts == t)
        }),
{
}

/// The least pending timestamp is that of a pending commit.
pub proof fn the_least_pending_timestamp_is_pending(pending: Seq<PendingWrite>)
    requires
        pending.len() > 0,
    ensures
        exists|i: int| 0 <= i < pending.len() && (#[trigger] pending[i]).ts == least_pending(pending),
    decreases pending.len(),
{
    if pending.len() == 1 {
        assert(pending[0].ts == least_pending(pending));
    } else {
        let front = pending.drop_last();
        the_least_pending_timestamp_is_pending(front);
        let i = choose|i: int| 0 <= i < front.len() && (#[trigger] front[i]).ts == least_pending(front);
        assert(pending[i] == front[i]);
        assert(pending[pending.len() - 1] == pending.last());
    }
}

/// What becomes repeatable while commits are pending is just before the first of
/// them: nothing is repeatable later than it has to be.
pub proof fn repeatable_timestamps_reach_the_first_pending_commit(
    state: CommitterState,
    drawn: Result<u64, Refusal>,
)
    requires
        state.prepared.dom().is_empty(),
        state.pending.len() > 0,
    ensures
        state.repeatable_ts(drawn) matches Ok(ts) ==> exists|i: int|
            0 <= i < state.pending.len() && (#[trigger] state.pending[i]).ts == ts + 1,
        (forall|i: int|
            0 <= i < state.pending.len() ==> 0 < (#[trigger] state.pending[i]).ts
                <= state.last_assigned_ts) ==> state.repeatable_ts(drawn) is Ok,
{
    the_least_pending_timestamp_is_pending(state.pending);
    let i = choose|i: int|
        0 <= i < state.pending.len() && (#[trigger] state.pending[i]).ts == least_pending(
            state.pending,
        );
    assert(state.pending[i].ts == least_pending(state.pending));
}

/// New writes build on the newest of what is queued, pending and published.
pub proof fn new_writes_build_on_the_newest_snapshot(state: CommitterState)
    ensures
        state.queued.len() == 0 && state.pending.len() == 0 ==> state.base_snapshot()
            == state.latest_snapshot,
        state.queued.len() > 0 && (state.pending.len() == 0 || state.pending.last().ts
            <= state.queued.last().ts) ==> state.base_snapshot() == state.queued.last().snapshot,
        state.pending.len() > 0 && (state.queued.len() == 0 || state.queued.last().ts
            < state.pending.last().ts) ==> state.base_snapshot() == state.pending.last().snapshot,
{
}

/// Raising an entry never lowers one: the entry is then at least what it was and at
/// least what it was raised to, it is one of the two, and no other entry changes.
pub proof fn raising_never_lowers(m: Map<u32, u64>, partition: PartitionId, ts: u64, other: u32)
    ensures
        ({
            let r = raised(m, partition, ts);
            &&& r.contains_key(partition.0)
            &&& r[partition.0] >= ts
            &&& m.contains_key(partition.0) ==> r[partition.0] >= m[partition.0]
            &&& r[partition.0] == ts || (m.contains_key(partition.0) && r[partition.0]
                == m[partition.0])
            &&& other != partition.0 ==> (r.contains_key(other) <==> m.contains_key(other))
            &&& other != partition.0 && m.contains_key(other) ==> r[other] == m[other]
        }),
{
}

/// A node leads where it has no Raft group or leads the group, commits in the name
/// of its own partition, and shares the data where there are several.
pub proof fn nodes_act_for_their_partition(state: CommitterState)
    ensures
        state.leads() <==> (state.raft matches Some(raft) ==> raft.is_leader),
        state.placement matches Some(p) ==> {
            &&& state.local_partition() == p.0
            &&& state.source_partition() == Some(p.0)
            &&& (state.is_partitioned() <==> p.1.num_partitions > 1)
        },
        state.placement is None ==> {
            &&& state.local_partition() == PartitionId(0)
            &&& state.source_partition() is None
            &&& !state.is_partitioned()
        },
{
}

/// A write is queued only behind writes with smaller ids and no later timestamps.
pub proof fn queueing_keeps_the_order(state: CommitterState, commit_id: usize, ts: u64, snapshot: SnapshotId)
    requires
        state.queue_in_order(),
        state.can_queue(commit_id, ts),
    ensures
        forall|i: int|
            0 <= i < state.queued.len() ==> (#[trigger] state.queued[i]).commit_id < commit_id
                && state.queued[i].ts <= ts,
        (CommitterState {
            queued: state.queued.push(QueuedSnapshot { commit_id, ts, snapshot }),
            ..state
        }).queue_in_order(),
{
}

/// A timestamp that is drawn too low is refused with what was drawn and what was
/// needed.
pub proof fn refused_timestamps_are_named(ts: u64, floor: u64)
    ensures
        below_floor(ts, floor).text == "TSO returned ts="@ + text::dec(ts as nat)
            + " below requested local floor "@ + text::dec(floor as nat),
        below_floor(ts, floor).occ is None,
{
}

/// A write can be queued exactly where its id is higher and its timestamp is no lower
/// than those of the last one.
pub proof fn writes_queue_behind_earlier_ones(state: CommitterState, commit_id: usize, ts: u64)
    ensures
        state.queued.len() == 0 ==> state.can_queue(commit_id, ts),
        state.queued.len() > 0 ==> (state.can_queue(commit_id, ts) <==> state.queued[state.queued.len()
            - 1].commit_id < commit_id && state.queued[state.queued.len() - 1].ts <= ts),
{
}

} // verus!
