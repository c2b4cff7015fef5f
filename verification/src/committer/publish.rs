//! Publishing what is in persistence: making it visible to readers, and telling
//! the other nodes.
use super::delta::CommitDelta;
use super::{CommitError, CommitOutcome, Committer, CommitterState, PendingWrite, Refusal, SnapshotId};
use crate::metrics;
use crate::metrics::{Measured, MetricsRecorder, Subgauge};
use crate::partition::PartitionId;
use crate::text;
use std::collections::BTreeMap;
use vstd::prelude::*;
use vstd::string::*;

verus! {

broadcast use {vstd::std_specs::btree::group_btree_axioms, vstd::laws_cmp::group_laws_cmp};

/// Said of a commit whose delta has another timestamp.
pub open spec fn mismatched_delta(ts: u64, delta_ts: u64) -> Refusal {
    super::refused(
        "pending write at ts="@ + text::dec(ts as nat) + " had Raft delta at ts="@ + text::dec(
            delta_ts as nat,
        ),
    )
}

/// Said of a publication whose delta has another timestamp.
pub open spec fn mismatched_publication(ts: u64, delta_ts: u64) -> Refusal {
    super::refused(
        "publish commit called for ts="@ + text::dec(ts as nat) + " with delta ts="@ + text::dec(
            delta_ts as nat,
        ),
    )
}

/// Said of a commit that something later was published before.
pub open spec fn too_late(ts: u64, latest_ts: u64) -> Refusal {
    super::refused(
        "Commit at ts="@ + text::dec(ts as nat)
            + " can no longer publish because latest snapshot is "@ + text::dec(latest_ts as nat),
    )
}

/// How much user data there is.
#[derive(Clone, Copy, Debug, PartialEq, Eq, Structural)]
pub struct TableSummary {
    pub num_user_documents: u64,
    pub user_tables_size: u64,
    pub user_docs_size: i64,
}

/// What is measured when a commit is published.
pub open spec fn commit_samples(
    rows: nat,
    bytes: u64,
    summary: Option<TableSummary>,
    gauge_metric: Seq<char>,
    gauge_share: int,
) -> Seq<Measured> {
    let written = seq![
        metrics::counted("DATABASE_COMMIT_ROWS"@, rows as int, metrics::unlabelled()),
        metrics::observed("DATABASE_WRITE_LOG_COMMIT_BYTES"@, bytes as int, metrics::unlabelled()),
    ];
    match summary {
        Some(s) => written + seq![
            metrics::observed(
                "DOCUMENTS_KEYS_TOTAL"@,
                s.num_user_documents as int,
                metrics::unlabelled(),
            ),
            metrics::observed(
                "DOCUMENTS_SIZE_BYTES"@,
                s.user_tables_size as int,
                metrics::unlabelled(),
            ),
            metrics::gauge_moved(gauge_metric, s.user_docs_size - gauge_share),
        ],
        None => written,
    }
}

impl CommitterState {
    /// The write log is not ahead of the latest snapshot.
    pub open spec fn log_in_step(self) -> bool {
        self.log_max_ts <= self.latest_ts
    }

    /// The objection to publishing a commit at `ts`.
    pub open spec fn publish_objection(self, ts: u64, delta_ts: u64) -> Option<Refusal> {
        if delta_ts != ts {
            Some(mismatched_publication(ts, delta_ts))
        } else if self.latest_ts >= ts {
            Some(too_late(ts, self.latest_ts))
        } else {
            None
        }
    }

    /// The state once a commit is visible to readers.
    pub open spec fn published(self, ts: u64, snapshot: SnapshotId) -> CommitterState {
        CommitterState { log_max_ts: ts, latest_ts: ts, latest_snapshot: snapshot, ..self }
    }

    /// The state once a delta of another node is visible to readers.
    pub open spec fn delta_published(
        self,
        ts: u64,
        origin_ts: u64,
        snapshot: SnapshotId,
        has_writes: bool,
        source: Option<PartitionId>,
    ) -> CommitterState {
        let visible = CommitterState {
            log_max_ts: if has_writes {
                ts
            } else {
                self.log_max_ts
            },
            latest_ts: ts,
            latest_snapshot: snapshot,
            ..self
        };
        match source {
            None => visible,
            Some(p) => CommitterState {
                frontiers: super::raised(visible.frontiers, p, ts),
                write_frontiers: super::raised(visible.write_frontiers, p, ts),
                published_watermarks: super::raised(
                    visible.published_watermarks,
                    p,
                    if visible.watermarks.contains_key(p.0) {
                        visible.watermarks[p.0]
                    } else {
                        origin_ts
                    },
                ),
                ..visible
            },
        }
    }
}

impl Committer {
    /// Makes a commit that is in persistence visible to readers, at the front of
    /// the log and as the latest snapshot.
    ///
    /// Publication is refused when something later has been published: the
    /// snapshots readers see are in the order of their timestamps.
    pub fn publish_commit_from_updates(
        &mut self,
        metrics: &mut MetricsRecorder,
        gauge: &mut Subgauge,
        commit_ts: u64,
        num_updates: usize,
        new_snapshot: SnapshotId,
        delta_ts: u64,
        write_bytes: u64,
        summary: Option<TableSummary>,
    ) -> (r: Result<(), CommitError>)
        ensures
            super::routing::objection(r) == old(self)@.publish_objection(commit_ts, delta_ts),
            match r {
                Ok(()) => {
                    &&& final(self)@ == old(self)@.published(commit_ts, new_snapshot)
                    &&& final(metrics)@ == old(metrics)@ + commit_samples(
                        num_updates as nat,
                        write_bytes,
                        summary,
                        old(gauge).metric(),
                        old(gauge).share(),
                    )
                    &&& final(gauge).metric() == old(gauge).metric()
                    &&& final(gauge).share() == match summary {
                        Some(s) => s.user_docs_size as int,
                        None => old(gauge).share(),
                    }
                },
                Err(_) => {
                    &&& final(self)@ == old(self)@
                    &&& final(metrics)@ == old(metrics)@
                    &&& *final(gauge) == *old(gauge)
                },
            },
    {
        if delta_ts != commit_ts {
            let mut s: String = String::new();
            s.append("publish commit called for ts=");
            text::push_dec(&mut s, commit_ts);
            s.append(" with delta ts=");
            text::push_dec(&mut s, delta_ts);
            assert(s@ =~= mismatched_publication(commit_ts, delta_ts).text);
            return Err(CommitError::new(s));
        }
        if self.latest_ts >= commit_ts {
            let mut s: String = String::new();
            s.append("Commit at ts=");
            text::push_dec(&mut s, commit_ts);
            s.append(" can no longer publish because latest snapshot is ");
            text::push_dec(&mut s, self.latest_ts);
            assert(s@ =~= too_late(commit_ts, self.latest_ts).text);
            return Err(CommitError::new(s));
        }
        let ghost before = metrics@;
        metrics::commit_rows(metrics, num_updates as u64);
        metrics::write_log_commit_bytes(metrics, write_bytes);
        self.log_max_ts = commit_ts;
        if let Some(s) = summary {
            metrics::log_num_keys(metrics, s.num_user_documents);
            metrics::log_user_table_documents_size(metrics, s.user_tables_size);
            gauge.set(metrics, s.user_docs_size);
        }
        self.latest_ts = commit_ts;
        self.latest_snapshot = new_snapshot;
        assert(metrics@ =~= before + commit_samples(
            num_updates as nat,
            write_bytes,
            summary,
            old(gauge).metric(),
            old(gauge).share(),
        ));
        Ok(())
    }

    /// Publishes the oldest pending commit.
    pub fn publish_commit(
        &mut self,
        metrics: &mut MetricsRecorder,
        gauge: &mut Subgauge,
        commit_ts: u64,
        delta: &CommitDelta,
        summary: Option<TableSummary>,
    ) -> (r: Result<(), CommitError>)
        requires
            old(self)@.pending.len() > 0,
            old(self)@.pending[0].ts == commit_ts,
        ensures
            if delta.ts != commit_ts {
                &&& super::routing::objection(r) == Some(mismatched_delta(commit_ts, delta.ts))
                &&& final(self)@ == old(self)@
                &&& final(metrics)@ == old(metrics)@
                &&& *final(gauge) == *old(gauge)
            } else {
                let popped = CommitterState { pending: old(self)@.pending.skip(1), ..old(self)@ };
                let first = old(self)@.pending[0];
                &&& super::routing::objection(r) == popped.publish_objection(commit_ts, delta.ts)
                &&& final(self)@ == match r {
                    Ok(()) => popped.published(commit_ts, first.snapshot),
                    Err(_) => popped,
                }
                &&& final(metrics)@ == match r {
                    Ok(()) => old(metrics)@ + commit_samples(
                        first.updates@.len(),
                        delta.write_bytes,
                        summary,
                        old(gauge).metric(),
                        old(gauge).share(),
                    ),
                    Err(_) => old(metrics)@,
                }
                &&& final(gauge).metric() == old(gauge).metric()
                &&& final(gauge).share() == match (r, summary) {
                    (Ok(()), Some(s)) => s.user_docs_size as int,
                    _ => old(gauge).share(),
                }
            },
    {
        if delta.ts != commit_ts {
            let mut s: String = String::new();
            s.append("pending write at ts=");
            text::push_dec(&mut s, commit_ts);
            s.append(" had Raft delta at ts=");
            text::push_dec(&mut s, delta.ts);
            assert(s@ =~= mismatched_delta(commit_ts, delta.ts).text);
            return Err(CommitError::new(s));
        }
        let first: PendingWrite = self.pending.remove(0);
        assert(self@.pending =~= old(self)@.pending.skip(1));
        self.publish_commit_from_updates(
            metrics,
            gauge,
            commit_ts,
            first.updates.len(),
            first.snapshot,
            delta.ts,
            delta.write_bytes,
            summary,
        )
    }
}

/// Where the pending commit at `ts` is.
pub open spec fn pending_at(pending: Seq<PendingWrite>, ts: u64) -> Option<int>
    decreases pending.len(),
{
    if pending.len() == 0 {
        None
    } else if pending[0].ts == ts {
        Some(0)
    } else {
        match pending_at(pending.skip(1), ts) {
            Some(i) => Some(i + 1),
            None => None,
        }
    }
}

proof fn lemma_pending_at(pending: Seq<PendingWrite>, ts: u64)
    ensures
        match pending_at(pending, ts) {
            Some(i) => 0 <= i < pending.len() && pending[i].ts == ts && forall|j: int|
                0 <= j < i ==> (#[trigger] pending[j]).ts != ts,
            None => forall|j: int| 0 <= j < pending.len() ==> (#[trigger] pending[j]).ts != ts,
        },
    decreases pending.len(),
{
    if pending.len() > 0 && pending[0].ts != ts {
        let rest = pending.skip(1);
        lemma_pending_at(rest, ts);
        assert forall|j: int| 0 < j < pending.len() implies #[trigger] pending[j] == rest[j - 1] by {}
    }
}

/// Said of a commit that was turned away and was not pending.
pub open spec fn not_pending(ts: u64) -> Refusal {
    super::refused(
        "pre-persistence rejected commit at ts="@ + text::dec(ts as nat) + " was not pending"@,
    )
}

/// The pending commits, each with a new snapshot.
pub open spec fn rebased(pending: Seq<PendingWrite>, snapshots: Seq<SnapshotId>) -> Seq<PendingWrite> {
    Seq::new(
        pending.len(),
        |i: int|
            PendingWrite {
                ts: pending[i].ts,
                updates: pending[i].updates,
                source: pending[i].source,
                snapshot: snapshots[i],
            },
    )
}

impl Committer {
    /// Takes a commit that was turned away before it reached persistence off the
    /// pending ones.
    pub fn reject_pending(&mut self, commit_ts: u64) -> (r: Result<(), CommitError>)
        ensures
            match pending_at(old(self)@.pending, commit_ts) {
                Some(i) => {
                    &&& r is Ok
                    &&& final(self)@ == (CommitterState {
                        pending: old(self)@.pending.remove(i),
                        ..old(self)@
                    })
                },
                None => {
                    &&& super::routing::objection(r) == Some(not_pending(commit_ts))
                    &&& final(self)@ == old(self)@
                },
            },
    {
        proof {
            lemma_pending_at(self.pending@, commit_ts);
        }
        let mut i: usize = 0;
        while i < self.pending.len()
            invariant
                i <= self.pending@.len(),
                self@ == old(self)@,
                forall|j: int| 0 <= j < i ==> (#[trigger] self.pending@[j]).ts != commit_ts,
                match pending_at(self.pending@, commit_ts) {
                    Some(i) => 0 <= i < self.pending@.len() && self.pending@[i].ts == commit_ts
                        && forall|j: int|
                        0 <= j < i ==> (#[trigger] self.pending@[j]).ts != commit_ts,
                    None => forall|j: int|
                        0 <= j < self.pending@.len() ==> (#[trigger] self.pending@[j]).ts
                            != commit_ts,
                },
            decreases self.pending@.len() - i,
        {
            if self.pending[i].ts == commit_ts {
                assert(pending_at(self.pending@, commit_ts) == Some(i as int));
                let rejected = self.pending.remove(i);
                assert(self@.pending =~= old(self)@.pending.remove(i as int));
                return Ok(());
            }
            i += 1;
        }
        let mut s: String = String::new();
        s.append("pre-persistence rejected commit at ts=");
        text::push_dec(&mut s, commit_ts);
        s.append(" was not pending");
        assert(s@ =~= not_pending(commit_ts).text);
        Err(CommitError::new(s))
    }

    /// Gives the pending commits new snapshots, computed anew from the latest one
    /// because a commit they were built on is gone.
    pub fn rebase_pending(&mut self, snapshots: &Vec<SnapshotId>)
        requires
            snapshots@.len() == old(self)@.pending.len(),
        ensures
            final(self)@ == (CommitterState {
                pending: rebased(old(self)@.pending, snapshots@),
                ..old(self)@
            }),
    {
        let mut pending: Vec<PendingWrite> = Vec::new();
        let mut i: usize = 0;
        while i < self.pending.len()
            invariant
                i <= self.pending@.len(),
                self@ == old(self)@,
                snapshots@.len() == self.pending@.len(),
                pending@ == rebased(self.pending@, snapshots@).take(i as int),
            decreases self.pending@.len() - i,
        {
            let p = &self.pending[i];
            pending.push(
                PendingWrite {
                    ts: p.ts,
                    updates: crate::documents::share(&p.updates),
                    source: crate::documents::share(&p.source),
                    snapshot: snapshots[i],
                },
            );
            assert(pending@ =~= rebased(self.pending@, snapshots@).take(i + 1));
            i += 1;
        }
        assert(pending@ =~= rebased(self.pending@, snapshots@));
        self.pending = pending;
    }

    /// Publishes a repeatable timestamp that is in persistence, given whether it
    /// moved the latest snapshot. Says whether the other nodes are to be told.
    pub fn publish_max_repeatable_ts(&mut self, new_max_repeatable: u64, advanced: bool) -> (r: bool)
        ensures
            final(self)@ == (CommitterState {
                max_repeatable_ts: new_max_repeatable,
                latest_ts: if advanced {
                    new_max_repeatable
                } else {
                    old(self)@.latest_ts
                },
                log_max_ts: if advanced {
                    new_max_repeatable
                } else {
                    old(self)@.log_max_ts
                },
                ..old(self)@
            }),
            r == (advanced && old(self)@.is_partitioned() && old(self)@.leads()),
            old(self)@.log_in_step() ==> final(self)@.log_in_step(),
    {
        self.max_repeatable_ts = new_max_repeatable;
        if advanced {
            self.latest_ts = new_max_repeatable;
            self.log_max_ts = new_max_repeatable;
        }
        advanced && self.sends_heartbeats()
    }

    /// Whether this node tells others how far it has come: only the leader of one
    /// of several partitions does.
    pub fn sends_heartbeats(&self) -> (r: bool)
        ensures
            r == (self@.is_partitioned() && self@.leads()),
    {
        self.is_partitioned() && self.leads()
    }

    /// The timestamp that an idle node tells the others, given what would be
    /// drawn for a commit; none where there is nobody to tell.
    pub fn idle_remote_read_frontier_heartbeat_ts(&mut self, drawn: Result<u64, CommitError>) -> (r: Result<
        Option<u64>,
        CommitError,
    >)
        ensures
            if old(self)@.is_partitioned() && old(self)@.leads() {
                &&& super::outcome(r) == match old(self)@.repeatable_ts(super::outcome(drawn)) {
                    Ok(ts) => Ok::<Option<u64>, Refusal>(Some(ts)),
                    Err(e) => Err(e),
                }
                &&& final(self)@ == match r {
                    Ok(Some(ts)) => if old(self)@.repeatable_ts_is_drawn() {
                        old(self)@.assigned(ts)
                    } else {
                        old(self)@
                    },
                    _ => old(self)@,
                }
            } else {
                &&& r matches Ok(None)
                &&& final(self)@ == old(self)@
            },
    {
        if !self.sends_heartbeats() {
            return Ok(None);
        }
        match self.next_max_repeatable_ts(drawn) {
            Ok(ts) => Ok(Some(ts)),
            Err(e) => Err(e),
        }
    }

    /// Publishes how far another partition has come. An idle partition's
    /// heartbeat lets reads of it go on, but makes no newer snapshot readable.
    pub fn publish_replication_frontier_progress(
        &mut self,
        frontier_ts: u64,
        source_partition: PartitionId,
        origin_watermark: u64,
    )
        ensures
            final(self)@ == (CommitterState {
                frontiers: super::raised(old(self)@.frontiers, source_partition, frontier_ts),
                published_watermarks: super::raised(
                    old(self)@.published_watermarks,
                    source_partition,
                    origin_watermark,
                ),
                ..old(self)@
            }),
    {
        super::raise(&mut self.frontiers, source_partition, frontier_ts);
        super::raise(&mut self.published_watermarks, source_partition, origin_watermark);
    }

    /// Publishes a heartbeat of another partition that is in persistence.
    pub(crate) fn publish_frontier_heartbeat(
        &mut self,
        commit_ts: u64,
        source_partition: PartitionId,
        watermarks: BTreeMap<u32, u64>,
    )
        ensures
            final(self)@ == old(self)@.heartbeat_visible(
                commit_ts,
                source_partition,
                watermarks@,
            ),
    {
        let origin_watermark: u64 = match watermarks.get(&source_partition.0) {
            Some(ts) => *ts,
            None => commit_ts,
        };
        self.watermarks = watermarks;
        self.publish_replication_frontier_progress(commit_ts, source_partition, origin_watermark);
    }

    /// Publishes a delta of another node that is in persistence. Where it commits
    /// a transaction that was prepared here, says which, so that its redo record
    /// can be deleted.
    pub(crate) fn publish_replica_delta(
        &mut self,
        commit_ts: u64,
        remote_ts: u64,
        snapshot: SnapshotId,
        has_writes: bool,
        source_partition: Option<PartitionId>,
        watermarks: Option<BTreeMap<u32, u64>>,
        data_watermarks: Option<BTreeMap<u32, u64>>,
    ) -> (r: Result<Option<String>, CommitError>)
        ensures
            ({
                let received = CommitterState {
                    watermarks: match watermarks {
                        Some(m) => m@,
                        None => old(self)@.watermarks,
                    },
                    data_watermarks: match data_watermarks {
                        Some(m) => m@,
                        None => old(self)@.data_watermarks,
                    },
                    ..old(self)@
                };
                let visible = received.delta_published(
                    commit_ts,
                    remote_ts,
                    snapshot,
                    has_writes,
                    source_partition,
                );
                let found = visible.prepared_for(remote_ts);
                if source_partition != Some(old(self)@.local_partition()) || found.len() == 0 {
                    r matches Ok(None) && final(self)@ == visible
                } else if found.len() == 1 {
                    r matches Ok(Some(id)) && id@ == found[0] && final(self)@
                        == visible.without_prepared(found[0])
                } else {
                    r matches Err(e) && e@ == super::prepared::ambiguous_cleanup(
                        found.len(),
                        remote_ts,
                    ) && final(self)@ == visible
                }
            }),
    {
        if has_writes {
            self.log_max_ts = commit_ts;
        }
        if let Some(m) = watermarks {
            self.watermarks = m;
        }
        if let Some(m) = data_watermarks {
            self.data_watermarks = m;
        }
        self.latest_ts = commit_ts;
        self.latest_snapshot = snapshot;
        if let Some(p) = source_partition {
            let origin_watermark: u64 = match self.watermarks.get(&p.0) {
                Some(ts) => *ts,
                None => remote_ts,
            };
            super::raise(&mut self.frontiers, p, commit_ts);
            super::raise(&mut self.write_frontiers, p, commit_ts);
            super::raise(&mut self.published_watermarks, p, origin_watermark);
        }
        let local: PartitionId = self.local_partition_for_two_phase();
        match source_partition {
            Some(p) => {
                if p == local {
                    self.remove_prepared_transaction_at_origin_ts(remote_ts)
                } else {
                    Ok(None)
                }
            },
            None => Ok(None),
        }
    }
}

/// Which way a commit came.
#[derive(Clone, Copy, Debug, PartialEq, Eq, Structural)]
pub enum CommitPath {
    /// A commit of this node alone.
    Local,
    /// A commit of a transaction that several partitions take part in.
    Participant,
}

/// What is done next about a commit that is visible to readers.
#[derive(Clone, Copy, Debug, PartialEq, Eq, Structural)]
pub enum PublishStage {
    /// Tell Raft that the entry at this index has been applied.
    MarkApplied(u64),
    /// Put the delta into the outbox, from which it is published if need be.
    RecordOutbox,
    /// Publish the delta to the replication log.
    PublishDelta,
    /// Take the delta out of the outbox.
    ClearOutbox,
    /// Delete the redo record of the transaction.
    DeleteRedo,
    /// Tell whoever asked for the commit.
    Reply,
    /// The committer cannot go on: it does not know what the others know.
    Failed,
}

/// What comes after everything the other nodes need has been done.
pub open spec fn closing(path: CommitPath) -> PublishStage {
    match path {
        CommitPath::Local => PublishStage::Reply,
        CommitPath::Participant => PublishStage::DeleteRedo,
    }
}

/// What comes after Raft has been told.
pub open spec fn after_mark(uses_outbox: bool) -> PublishStage {
    if uses_outbox {
        PublishStage::RecordOutbox
    } else {
        PublishStage::PublishDelta
    }
}

/// What comes after `stage`, given whether it succeeded.
///
/// A delta in the outbox can be published later, so that failing to publish it
/// now, or to clear it, does no harm. Without an outbox it does.
pub open spec fn next_stage(path: CommitPath, uses_outbox: bool, stage: PublishStage, ok: bool) -> PublishStage {
    match stage {
        PublishStage::MarkApplied(_) => if ok {
            after_mark(uses_outbox)
        } else {
            PublishStage::Failed
        },
        PublishStage::RecordOutbox => if ok {
            PublishStage::PublishDelta
        } else {
            PublishStage::Failed
        },
        PublishStage::PublishDelta => if ok && uses_outbox {
            PublishStage::ClearOutbox
        } else if ok || uses_outbox {
            closing(path)
        } else {
            PublishStage::Failed
        },
        PublishStage::ClearOutbox => closing(path),
        PublishStage::DeleteRedo => PublishStage::Reply,
        PublishStage::Reply => PublishStage::Reply,
        PublishStage::Failed => PublishStage::Failed,
    }
}

/// What a failed stage was about.
pub open spec fn operation_of(path: CommitPath, stage: PublishStage) -> Seq<char> {
    match (path, stage) {
        (CommitPath::Local, PublishStage::MarkApplied(_)) => "mark Raft applied index"@,
        (CommitPath::Local, PublishStage::RecordOutbox) =>
            "record committed write in Raft->NATS outbox"@,
        (CommitPath::Local, _) => "publish committed write to replication log"@,
        (CommitPath::Participant, PublishStage::MarkApplied(_)) =>
            "mark Raft applied index for prepared write"@,
        (CommitPath::Participant, PublishStage::RecordOutbox) =>
            "record prepared write in Raft->NATS outbox"@,
        (CommitPath::Participant, _) => "publish prepared write to replication log"@,
    }
}

/// Said of a commit that is in persistence and could not be finished.
pub open spec fn failed_commit(operation: Seq<char>, ts: u64, cause: Seq<char>) -> Refusal {
    super::refused(
        "Failed to "@ + operation + " after local persistence commit at ts="@ + text::dec(
            ts as nat,
        ) + ": "@ + cause,
    )
}

/// Says that a commit that is in persistence could not be finished. Whoever asked
/// for it is told the same as the log.
pub fn fail_committed_write(commit_ts: u64, operation: &str, err: &CommitError) -> (r: CommitError)
    ensures
        r@ == failed_commit(operation@, commit_ts, err.message@),
{
    let mut s: String = String::new();
    s.append("Failed to ");
    s.append(operation);
    s.append(" after local persistence commit at ts=");
    text::push_dec(&mut s, commit_ts);
    s.append(": ");
    s.append(err.message.as_str());
    assert(s@ =~= failed_commit(operation@, commit_ts, err.message@).text);
    CommitError::new(s)
}

/// Said in front of why a delta could not be published.
pub open spec fn unpublished(ts: u64) -> Seq<char> {
    "Failed to publish commit delta at ts="@ + text::dec(ts as nat)
}

/// Takes in how publishing a delta to the replication log went.
pub fn publish_commit_delta(delta_ts: u64, result: Result<(), CommitError>) -> (r: Result<(), CommitError>)
    ensures
        super::routing::objection(r) == match result {
            Ok(()) => None,
            Err(e) => Some(super::in_context(unpublished(delta_ts), e@)),
        },
{
    match result {
        Ok(()) => Ok(()),
        Err(e) => {
            let mut s: String = String::new();
            s.append("Failed to publish commit delta at ts=");
            text::push_dec(&mut s, delta_ts);
            assert(s@ =~= unpublished(delta_ts));
            Err(e.context(s.as_str()))
        },
    }
}

/// Why a stage failed, as it is reported.
pub open spec fn cause_of(stage: PublishStage, ts: u64, e: Refusal) -> Seq<char> {
    match stage {
        PublishStage::PublishDelta => super::in_context(unpublished(ts), e).text,
        _ => e.text,
    }
}

/// What is said when Raft gave an index without there being Raft.
pub open spec fn without_raft(path: CommitPath, index: u64) -> Seq<char> {
    match path {
        CommitPath::Local => "commit returned Raft applied index "@ + text::dec(index as nat)
            + " without Raft state"@,
        CommitPath::Participant => "prepared commit returned Raft applied index "@ + text::dec(
            index as nat,
        ) + " without Raft state"@,
    }
}

/// Whether a delta goes through the outbox: those that name their source do, for
/// they are what other partitions wait for.
pub fn should_record_raft_nats_outbox_delta(source_partition: Option<PartitionId>) -> (r: bool)
    ensures
        r == (source_partition is Some),
{
    source_partition.is_some()
}

/// Telling the other nodes about a commit that is visible to readers.
#[derive(Debug)]
pub struct PublishFlow {
    pub path: CommitPath,
    pub commit_ts: u64,
    pub source_partition: Option<PartitionId>,
    pub stage: PublishStage,
    /// Set where the stage is [`PublishStage::Failed`].
    pub failure: Option<CommitError>,
}

impl PublishFlow {
    /// Whether the delta goes through the outbox.
    pub open spec fn uses_outbox(self) -> bool {
        self.source_partition is Some
    }

    /// What whoever asked for the commit is told in the end.
    pub open spec fn outcome(self) -> CommitOutcome {
        CommitOutcome { ts: self.commit_ts, source_partition: self.source_partition }
    }

    /// The failure, as contracts speak of it.
    pub open spec fn refusal(self) -> Option<Refusal> {
        match self.failure {
            Some(e) => Some(e@),
            None => None,
        }
    }

    /// The others are about to be told about a commit.
    pub open spec fn begins(
        self,
        path: CommitPath,
        commit_ts: u64,
        source_partition: Option<PartitionId>,
        raft_applied_index: Option<u64>,
        has_raft: bool,
    ) -> bool {
        &&& self.path == path
        &&& self.commit_ts == commit_ts
        &&& self.source_partition == source_partition
        &&& match raft_applied_index {
            None => self.stage == after_mark(source_partition is Some) && self.failure is None,
            Some(index) => if has_raft {
                self.stage == PublishStage::MarkApplied(index) && self.failure is None
            } else {
                self.stage == PublishStage::Failed && self.refusal() == Some(
                    failed_commit(
                        operation_of(path, PublishStage::MarkApplied(index)),
                        commit_ts,
                        without_raft(path, index),
                    ),
                )
            },
        }
    }

    fn operation(path: CommitPath, stage: PublishStage) -> (r: &'static str)
        ensures
            r@ == operation_of(path, stage),
    {
        match (path, stage) {
            (CommitPath::Local, PublishStage::MarkApplied(_)) => "mark Raft applied index",
            (CommitPath::Local, PublishStage::RecordOutbox) =>
                "record committed write in Raft->NATS outbox",
            (CommitPath::Local, _) => "publish committed write to replication log",
            (CommitPath::Participant, PublishStage::MarkApplied(_)) =>
                "mark Raft applied index for prepared write",
            (CommitPath::Participant, PublishStage::RecordOutbox) =>
                "record prepared write in Raft->NATS outbox",
            (CommitPath::Participant, _) => "publish prepared write to replication log",
        }
    }

    /// Begins to tell the others about a commit.
    pub fn start(
        path: CommitPath,
        commit_ts: u64,
        source_partition: Option<PartitionId>,
        raft_applied_index: Option<u64>,
        has_raft: bool,
    ) -> (r: Self)
        ensures
            r.begins(path, commit_ts, source_partition, raft_applied_index, has_raft),
    {
        let mut failure: Option<CommitError> = None;
        let stage: PublishStage = match raft_applied_index {
            None => {
                if should_record_raft_nats_outbox_delta(source_partition) {
                    PublishStage::RecordOutbox
                } else {
                    PublishStage::PublishDelta
                }
            },
            Some(index) => {
                if has_raft {
                    PublishStage::MarkApplied(index)
                } else {
                    let mut s: String = String::new();
                    match path {
                        CommitPath::Local => {
                            s.append("commit returned Raft applied index ");
                        },
                        CommitPath::Participant => {
                            s.append("prepared commit returned Raft applied index ");
                        },
                    }
                    text::push_dec(&mut s, index);
                    s.append(" without Raft state");
                    assert(s@ =~= without_raft(path, index));
                    let err = CommitError::new(s);
                    failure = Some(
                        fail_committed_write(
                            commit_ts,
                            Self::operation(path, PublishStage::MarkApplied(index)),
                            &err,
                        ),
                    );
                    PublishStage::Failed
                }
            },
        };
        PublishFlow { path, commit_ts, source_partition, stage, failure }
    }

    /// Goes on, given how the current stage went.
    pub fn advance(&mut self, result: Result<(), CommitError>)
        ensures
            final(self).path == old(self).path,
            final(self).commit_ts == old(self).commit_ts,
            final(self).source_partition == old(self).source_partition,
            final(self).stage == next_stage(
                old(self).path,
                old(self).uses_outbox(),
                old(self).stage,
                result is Ok,
            ),
            final(self).refusal() == if final(self).stage == PublishStage::Failed && old(self).stage
                != PublishStage::Failed {
                match result {
                    Err(e) => Some(
                        failed_commit(
                            operation_of(old(self).path, old(self).stage),
                            old(self).commit_ts,
                            cause_of(old(self).stage, old(self).commit_ts, e@),
                        ),
                    ),
                    Ok(()) => old(self).refusal(),
                }
            } else {
                old(self).refusal()
            },
    {
        let outbox: bool = should_record_raft_nats_outbox_delta(self.source_partition);
        let stage: PublishStage = self.stage;
        let result: Result<(), CommitError> = match stage {
            PublishStage::PublishDelta => publish_commit_delta(self.commit_ts, result),
            _ => result,
        };
        let closing: PublishStage = match self.path {
            CommitPath::Local => PublishStage::Reply,
            CommitPath::Participant => PublishStage::DeleteRedo,
        };
        let next: PublishStage = match stage {
            PublishStage::MarkApplied(_) => {
                if !result.is_ok() {
                    PublishStage::Failed
                } else if outbox {
                    PublishStage::RecordOutbox
                } else {
                    PublishStage::PublishDelta
                }
            },
            PublishStage::RecordOutbox => {
                if result.is_ok() {
                    PublishStage::PublishDelta
                } else {
                    PublishStage::Failed
                }
            },
            PublishStage::PublishDelta => {
                if result.is_ok() && outbox {
                    PublishStage::ClearOutbox
                } else if result.is_ok() || outbox {
                    closing
                } else {
                    PublishStage::Failed
                }
            },
            PublishStage::ClearOutbox => closing,
            PublishStage::DeleteRedo => PublishStage::Reply,
            PublishStage::Reply => PublishStage::Reply,
            PublishStage::Failed => PublishStage::Failed,
        };
        if next == PublishStage::Failed && stage != PublishStage::Failed {
            if let Err(e) = result {
                self.failure = Some(
                    fail_committed_write(self.commit_ts, Self::operation(self.path, stage), &e),
                );
            }
        }
        self.stage = next;
    }

    /// What whoever asked for the commit is told once everything is done.
    pub fn reply(&self) -> (r: CommitOutcome)
        ensures
            r == self.outcome(),
    {
        CommitOutcome { ts: self.commit_ts, source_partition: self.source_partition }
    }
}

/// A published commit is the latest snapshot, and later than the one before.
pub proof fn publication_moves_forward(state: CommitterState, ts: u64, delta_ts: u64, snapshot: SnapshotId)
    requires
        state.publish_objection(ts, delta_ts) is None,
    ensures
        state.published(ts, snapshot).latest_ts > state.latest_ts,
        state.published(ts, snapshot).log_in_step(),
{
}

/// A delta leaves the outbox only once it has been published.
pub proof fn outbox_keeps_unpublished_deltas(path: CommitPath, uses_outbox: bool, stage: PublishStage, ok: bool)
    ensures
        next_stage(path, uses_outbox, stage, ok) == PublishStage::ClearOutbox ==> stage
            == PublishStage::PublishDelta && ok,
{
}

/// With an outbox, failing to publish a delta does not fail the commit.
pub proof fn outbox_survives_publish_failures(path: CommitPath)
    ensures
        next_stage(path, true, PublishStage::PublishDelta, false) == closing(path),
        next_stage(path, true, PublishStage::ClearOutbox, false) == closing(path),
{
}

impl CommitterState {
    /// The state once readers see a heartbeat of another partition.
    pub open spec fn heartbeat_visible(
        self,
        commit_ts: u64,
        source_partition: PartitionId,
        watermarks: Map<u32, u64>,
    ) -> CommitterState {
        CommitterState {
            watermarks,
            frontiers: super::raised(self.frontiers, source_partition, commit_ts),
            published_watermarks: super::raised(
                self.published_watermarks,
                source_partition,
                if watermarks.contains_key(source_partition.0) {
                    watermarks[source_partition.0]
                } else {
                    commit_ts
                },
            ),
            ..self
        }
    }

    /// Pending commits are in the order of their timestamps, which have all been
    /// assigned.
    pub open spec fn pending_in_order(self) -> bool {
        &&& forall|i: int, j: int|
            0 <= i < j < self.pending.len() ==> (#[trigger] self.pending[i]).ts < (
            #[trigger] self.pending[j]).ts
        &&& forall|i: int|
            0 <= i < self.pending.len() ==> (#[trigger] self.pending[i]).ts
                <= self.last_assigned_ts
    }
}

/// A commit that is staged at the timestamp it is assigned comes last.
pub proof fn staging_keeps_commits_in_order(
    state: CommitterState,
    drawn: Result<u64, Refusal>,
    staged: PendingWrite,
)
    requires
        state.pending_in_order(),
        state.commit_ts(drawn) == Ok::<u64, Refusal>(staged.ts),
    ensures
        (CommitterState { pending: state.pending.push(staged), ..state.assigned(staged.ts) }).pending_in_order(),
{
}

/// Commits become visible in the order of their timestamps: once the oldest
/// pending one is published, all others are later than the latest snapshot.
pub proof fn commits_are_published_in_order(state: CommitterState, snapshot: SnapshotId)
    requires
        state.pending_in_order(),
        state.pending.len() > 0,
    ensures
        ({
            let rest = CommitterState { pending: state.pending.skip(1), ..state };
            let after = rest.published(state.pending[0].ts, snapshot);
            &&& after.pending_in_order()
            &&& forall|i: int|
                0 <= i < after.pending.len() ==> (#[trigger] after.pending[i]).ts > after.latest_ts
        }),
{
    let rest = state.pending.skip(1);
    assert forall|i: int, j: int| 0 <= i < j < rest.len() implies (#[trigger] rest[i]).ts < (
    #[trigger] rest[j]).ts by {
        assert(rest[i] == state.pending[i + 1] && rest[j] == state.pending[j + 1]);
    }
    assert forall|i: int| 0 <= i < rest.len() implies (#[trigger] rest[i]).ts
        <= state.last_assigned_ts && rest[i].ts > state.pending[0].ts by {
        assert(rest[i] == state.pending[i + 1]);
    }
}

/// Turning a commit away leaves the others in order, and so do new snapshots.
pub proof fn rejecting_keeps_commits_in_order(state: CommitterState, i: int, snapshots: Seq<SnapshotId>)
    requires
        state.pending_in_order(),
        0 <= i < state.pending.len(),
        snapshots.len() == state.pending.len() - 1,
    ensures
        (CommitterState { pending: state.pending.remove(i), ..state }).pending_in_order(),
        (CommitterState {
            pending: rebased(state.pending.remove(i), snapshots),
            ..state
        }).pending_in_order(),
{
    let rest = state.pending.remove(i);
    assert forall|a: int, b: int| 0 <= a < b < rest.len() implies (#[trigger] rest[a]).ts < (
    #[trigger] rest[b]).ts by {
        assert(rest[a] == state.pending[if a < i {
            a
        } else {
            a + 1
        }]);
        assert(rest[b] == state.pending[if b < i {
            b
        } else {
            b + 1
        }]);
    }
    assert forall|a: int| 0 <= a < rest.len() implies (#[trigger] rest[a]).ts
        <= state.last_assigned_ts by {
        assert(rest[a] == state.pending[if a < i {
            a
        } else {
            a + 1
        }]);
    }
    let anew = rebased(rest, snapshots);
    assert forall|a: int, b: int| 0 <= a < b < anew.len() implies (#[trigger] anew[a]).ts < (
    #[trigger] anew[b]).ts by {
        assert(rest[a].ts < rest[b].ts);
    }
}

/// A commit is published exactly where its delta has its own timestamp and nothing
/// as late or later has been published.
pub proof fn commits_are_published_unless_overtaken(state: CommitterState, ts: u64, delta_ts: u64)
    ensures
        state.publish_objection(ts, delta_ts) is None <==> delta_ts == ts && ts > state.latest_ts,
{
}

/// Publishing a commit makes its snapshot the latest one, at its timestamp, in the
/// log too, and changes nothing else.
pub proof fn publishing_shows_the_commit(state: CommitterState, ts: u64, snapshot: SnapshotId)
    ensures
        ({
            let after = state.published(ts, snapshot);
            &&& after.latest_ts == ts
            &&& after.latest_snapshot == snapshot
            &&& after.log_max_ts == ts
            &&& after == (CommitterState {
                latest_ts: after.latest_ts,
                latest_snapshot: after.latest_snapshot,
                log_max_ts: after.log_max_ts,
                ..state
            })
        }),
{
}

/// Publishing a delta makes its snapshot the latest one, moves the log only where it
/// has writes, moves what is known of its source forward and of nobody else, and
/// touches neither what is pending nor what is prepared or queued.
pub proof fn publishing_shows_the_delta(
    state: CommitterState,
    ts: u64,
    origin_ts: u64,
    snapshot: SnapshotId,
    has_writes: bool,
    source: Option<PartitionId>,
    other: u32,
)
    ensures
        ({
            let after = state.delta_published(ts, origin_ts, snapshot, has_writes, source);
            &&& after.latest_ts == ts
            &&& after.latest_snapshot == snapshot
            &&& has_writes ==> after.log_max_ts == ts
            &&& !has_writes ==> after.log_max_ts == state.log_max_ts
            &&& after.pending == state.pending
            &&& after.prepared == state.prepared
            &&& after.queued == state.queued
            &&& after.watermarks == state.watermarks
            &&& after.data_watermarks == state.data_watermarks
            &&& after.last_assigned_ts == state.last_assigned_ts
            &&& after.max_repeatable_ts == state.max_repeatable_ts
            &&& after.placement == state.placement
            &&& after.raft == state.raft
            &&& after.has_oracle == state.has_oracle
            &&& source is None ==> after.frontiers == state.frontiers && after.write_frontiers
                == state.write_frontiers && after.published_watermarks == state.published_watermarks
            &&& source matches Some(p) ==> {
                &&& after.frontiers.contains_key(p.0) && after.frontiers[p.0] >= ts
                &&& after.write_frontiers.contains_key(p.0) && after.write_frontiers[p.0] >= ts
                &&& after.published_watermarks.contains_key(p.0)
                &&& state.watermarks.contains_key(p.0) ==> after.published_watermarks[p.0]
                    >= state.watermarks[p.0]
                &&& !state.watermarks.contains_key(p.0) ==> after.published_watermarks[p.0]
                    >= origin_ts
                &&& other != p.0 ==> after.frontiers.contains_key(other)
                    == state.frontiers.contains_key(other) && after.frontiers[other]
                    == state.frontiers[other]
                &&& other != p.0 ==> after.write_frontiers.contains_key(other)
                    == state.write_frontiers.contains_key(other) && after.write_frontiers[other]
                    == state.write_frontiers[other]
            }
        }),
{
}

/// A heartbeat moves how far its source can be read, and what has been received of
/// it; no newer snapshot becomes readable, and no data counts as received.
pub proof fn heartbeats_move_the_frontier_only(
    state: CommitterState,
    ts: u64,
    source: PartitionId,
    watermarks: Map<u32, u64>,
)
    ensures
        ({
            let after = state.heartbeat_visible(ts, source, watermarks);
            &&& after.frontiers.contains_key(source.0) && after.frontiers[source.0] >= ts
            &&& after.watermarks == watermarks
            &&& after.published_watermarks.contains_key(source.0)
            &&& watermarks.contains_key(source.0) ==> after.published_watermarks[source.0]
                >= watermarks[source.0]
            &&& after.latest_ts == state.latest_ts
            &&& after.latest_snapshot == state.latest_snapshot
            &&& after.log_max_ts == state.log_max_ts
            &&& after.data_watermarks == state.data_watermarks
            &&& after.write_frontiers == state.write_frontiers
            &&& after.pending == state.pending
            &&& after.prepared == state.prepared
            &&& after.queued == state.queued
        }),
{
}

/// A pending commit is found by its timestamp, the first of those with it; where none
/// is found none has it.
pub proof fn pending_commits_are_found_by_timestamp(pending: Seq<PendingWrite>, ts: u64)
    ensures
        match pending_at(pending, ts) {
            Some(i) => {
                &&& 0 <= i < pending.len()
                &&& pending[i].ts == ts
                &&& forall|j: int| 0 <= j < i ==> (#[trigger] pending[j]).ts != ts
            },
            None => forall|j: int| 0 <= j < pending.len() ==> (#[trigger] pending[j]).ts != ts,
        },
{
    lemma_pending_at(pending, ts);
}

/// New snapshots for pending commits change nothing but the snapshots.
pub proof fn rebasing_keeps_the_commits(pending: Seq<PendingWrite>, snapshots: Seq<SnapshotId>, i: int)
    requires
        0 <= i < pending.len(),
    ensures
        rebased(pending, snapshots).len() == pending.len(),
        rebased(pending, snapshots)[i].ts == pending[i].ts,
        rebased(pending, snapshots)[i].updates == pending[i].updates,
        rebased(pending, snapshots)[i].source == pending[i].source,
        rebased(pending, snapshots)[i].snapshot == snapshots[i],
{
}

/// With an outbox a delta is recorded there before it is published, and without one
/// it is published at once; nothing is told to whoever asked before that is done.
pub proof fn deltas_are_recorded_before_they_are_published(
    path: CommitPath,
    uses_outbox: bool,
    index: u64,
    stage: PublishStage,
    ok: bool,
)
    ensures
        next_stage(path, true, PublishStage::MarkApplied(index), true) == PublishStage::RecordOutbox,
        next_stage(path, false, PublishStage::MarkApplied(index), true)
            == PublishStage::PublishDelta,
        next_stage(path, uses_outbox, PublishStage::RecordOutbox, true)
            == PublishStage::PublishDelta,
        next_stage(path, true, PublishStage::PublishDelta, true) == PublishStage::ClearOutbox,
        next_stage(path, uses_outbox, stage, ok) == PublishStage::Reply && stage
            != PublishStage::Reply ==> {
            ||| stage == PublishStage::DeleteRedo
            ||| path == CommitPath::Local && stage == PublishStage::ClearOutbox
            ||| path == CommitPath::Local && stage == PublishStage::PublishDelta && (ok
                || uses_outbox)
        },
        next_stage(path, uses_outbox, stage, ok) == PublishStage::DeleteRedo ==> {
            &&& path == CommitPath::Participant
            &&& stage == PublishStage::ClearOutbox || (stage == PublishStage::PublishDelta && (ok
                || uses_outbox))
        },
{
}

/// The committer gives up exactly where Raft could not be told, the outbox could not
/// be written, or, without an outbox, the delta could not be published.
pub proof fn commits_fail_where_others_may_not_know(
    path: CommitPath,
    uses_outbox: bool,
    stage: PublishStage,
    ok: bool,
)
    requires
        stage != PublishStage::Failed,
    ensures
        next_stage(path, uses_outbox, stage, ok) == PublishStage::Failed <==> !ok && (
        stage is MarkApplied || stage == PublishStage::RecordOutbox || (stage
            == PublishStage::PublishDelta && !uses_outbox)),
{
}

/// Telling the others begins with Raft where it gave an index, then the outbox where
/// the delta has a source; an index without a group is an error. What is told in the
/// end is the commit's own timestamp and source.
pub proof fn telling_begins_with_raft(
    flow: PublishFlow,
    path: CommitPath,
    ts: u64,
    source: Option<PartitionId>,
    index: Option<u64>,
    has_raft: bool,
)
    requires
        flow.begins(path, ts, source, index, has_raft),
    ensures
        flow.path == path,
        flow.outcome().ts == ts,
        flow.outcome().source_partition == source,
        index matches Some(i) ==> (has_raft ==> flow.stage == PublishStage::MarkApplied(i)) && (
        !has_raft ==> flow.stage == PublishStage::Failed && flow.failure is Some),
        index is None && source is Some ==> flow.stage == PublishStage::RecordOutbox,
        index is None && source is None ==> flow.stage == PublishStage::PublishDelta,
        flow.stage != PublishStage::Failed ==> flow.failure is None,
{
}

/// A commit that cannot be published is named with its own timestamp and with the one
/// that is in its way.
pub proof fn unpublished_commits_are_named(
    ts: u64,
    delta_ts: u64,
    latest_ts: u64,
    operation: Seq<char>,
    cause: Seq<char>,
)
    ensures
        mismatched_delta(ts, delta_ts).text == "pending write at ts="@ + text::dec(ts as nat)
            + " had Raft delta at ts="@ + text::dec(delta_ts as nat),
        mismatched_delta(ts, delta_ts).occ is None,
        mismatched_publication(ts, delta_ts).text == "publish commit called for ts="@
            + text::dec(ts as nat) + " with delta ts="@ + text::dec(delta_ts as nat),
        mismatched_publication(ts, delta_ts).occ is None,
        too_late(ts, latest_ts).text == "Commit at ts="@ + text::dec(ts as nat)
            + " can no longer publish because latest snapshot is "@ + text::dec(latest_ts as nat),
        too_late(ts, latest_ts).occ is None,
        not_pending(ts).text == "pre-persistence rejected commit at ts="@
            + text::dec(ts as nat) + " was not pending"@,
        not_pending(ts).occ is None,
        failed_commit(operation, ts, cause).text == "Failed to "@ + operation
            + " after local persistence commit at ts="@ + text::dec(ts as nat) + ": "@ + cause,
        failed_commit(operation, ts, cause).occ is None,
        unpublished(ts) == "Failed to publish commit delta at ts="@ + text::dec(ts as nat),
{
}

} // verus!
