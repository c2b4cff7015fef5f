//! The committer's loop.
//!
//! The committer does one thing at a time: it bumps the repeatable timestamp,
//! tells other partitions how far it has come, replays the outbox, publishes the
//! oldest write that has reached persistence, or takes a message, in this order
//! of preference. What it remembers between two turns is a [`LoopState`].
use super::delta::CommitDelta;
use super::delta_flow;
use super::delta_flow::{DeltaFlow, DeltaStage, HeartbeatFlow, HeartbeatStage};
use super::publish;
use super::publish::{CommitPath, PublishFlow, TableSummary};
use super::{CommitError, Committer, CommitterState, RaftState, Refusal, SnapshotId};
use crate::metrics::{Measured, MetricsRecorder, Subgauge};
use crate::text;
use std::collections::BTreeMap;
use std::sync::Arc;
use vstd::prelude::*;
use vstd::string::*;

verus! {

broadcast use {vstd::std_specs::btree::group_btree_axioms, vstd::laws_cmp::group_laws_cmp};

/// How often the outbox is replayed, in nanoseconds.
pub const RAFT_NATS_OUTBOX_REPLAY_INTERVAL: u64 = 1_000_000_000;

/// How long a failed write to persistence is waited out at first, in
/// nanoseconds.
pub const INITIAL_PERSISTENCE_WRITES_BACKOFF: u64 = 1_000_000_000;

/// How long a failed write to persistence is waited out at most, in nanoseconds.
pub const MAX_PERSISTENCE_WRITES_BACKOFF: u64 = 60_000_000_000;

/// How the committer paces itself, in nanoseconds.
#[derive(Clone, Copy, Debug, PartialEq, Eq, Structural)]
pub struct Pace {
    /// How soon after a commit the repeatable timestamp is bumped.
    pub commit_delay: u64,
    /// How often it is bumped at least, give or take a factor of two.
    pub idle_frequency: u64,
    /// How often other partitions are told how far this one has come.
    pub heartbeat_interval: u64,
}

/// What the committer's loop remembers between two turns. Times are those of a
/// clock that never runs backwards, in nanoseconds.
#[derive(Clone, Copy, Debug, PartialEq, Eq, Structural)]
pub struct LoopState {
    /// How long after the last bump the next is due. Unset while a bump is under
    /// way: two at once could regress the repeatable timestamp.
    pub next_bump_wait: Option<u64>,
    pub last_bump: u64,
    pub last_heartbeat: u64,
    /// What other partitions were told last.
    pub last_heartbeat_ts: u64,
    pub last_replay: u64,
    /// The id of the next write.
    pub commit_id: usize,
    /// The write that is being traced.
    pub span_commit_id: Option<usize>,
}

/// How long until `wait` has passed since `since`.
pub open spec fn remaining(wait: u64, since: u64, now: u64) -> u64 {
    if now <= since {
        wait
    } else if now - since >= wait {
        0
    } else {
        (wait - (now - since)) as u64
    }
}

fn remaining_wait(wait: u64, since: u64, now: u64) -> (r: u64)
    ensures
        r == remaining(wait, since, now),
{
    if now <= since {
        wait
    } else if now - since >= wait {
        0
    } else {
        wait - (now - since)
    }
}

/// How long the committer waits for each of its timers; unset for those that are
/// not running.
#[derive(Clone, Copy, Debug, PartialEq, Eq, Structural)]
pub struct Waits {
    pub bump: Option<u64>,
    pub heartbeat: Option<u64>,
    pub replay: Option<u64>,
}

/// What may be ready.
#[derive(Clone, Copy, Debug, PartialEq, Eq, Structural)]
pub struct Ready {
    pub bump: bool,
    pub heartbeat: bool,
    pub replay: bool,
    pub write: bool,
    pub message: bool,
}

/// What the committer does in one turn.
#[derive(Clone, Copy, Debug, PartialEq, Eq, Structural)]
pub enum TurnKind {
    Bump,
    Heartbeat,
    Replay,
    Write,
    Message,
    /// There is nothing to do.
    Wait,
}

/// Picks what to do of what is ready: timers come first, then writes that have
/// reached persistence, and messages last.
pub fn pick(ready: Ready) -> (r: TurnKind)
    ensures
        r == if ready.bump {
            TurnKind::Bump
        } else if ready.heartbeat {
            TurnKind::Heartbeat
        } else if ready.replay {
            TurnKind::Replay
        } else if ready.write {
            TurnKind::Write
        } else if ready.message {
            TurnKind::Message
        } else {
            TurnKind::Wait
        },
{
    if ready.bump {
        TurnKind::Bump
    } else if ready.heartbeat {
        TurnKind::Heartbeat
    } else if ready.replay {
        TurnKind::Replay
    } else if ready.write {
        TurnKind::Write
    } else if ready.message {
        TurnKind::Message
    } else {
        TurnKind::Wait
    }
}

impl LoopState {
    /// The loop at its start. There may have been commits just before the node
    /// was restarted, so the first bump comes soon.
    pub fn start(pace: Pace, now: u64) -> (r: Self)
        ensures
            r == (LoopState {
                next_bump_wait: Some(pace.commit_delay),
                last_bump: now,
                last_heartbeat: now,
                last_heartbeat_ts: 0,
                last_replay: now,
                commit_id: 0,
                span_commit_id: None,
            }),
    {
        LoopState {
            next_bump_wait: Some(pace.commit_delay),
            last_bump: now,
            last_heartbeat: now,
            last_heartbeat_ts: 0,
            last_replay: now,
            commit_id: 0,
            span_commit_id: None,
        }
    }

    /// How long to wait for each timer. Heartbeats and replays are for nodes that
    /// share the data with others.
    pub fn waits(&self, committer: &Committer, pace: Pace, now: u64) -> (r: Waits)
        ensures
            r.bump == match self.next_bump_wait {
                Some(wait) => Some(remaining(wait, self.last_bump, now)),
                None => None,
            },
            r.heartbeat == if committer@.is_partitioned() {
                Some(remaining(pace.heartbeat_interval, self.last_heartbeat, now))
            } else {
                None
            },
            r.replay == if committer@.is_partitioned() {
                Some(remaining(RAFT_NATS_OUTBOX_REPLAY_INTERVAL, self.last_replay, now))
            } else {
                None
            },
    {
        let partitioned: bool = committer.is_partitioned();
        Waits {
            bump: match self.next_bump_wait {
                Some(wait) => Some(remaining_wait(wait, self.last_bump, now)),
                None => None,
            },
            heartbeat: if partitioned {
                Some(remaining_wait(pace.heartbeat_interval, self.last_heartbeat, now))
            } else {
                None
            },
            replay: if partitioned {
                Some(remaining_wait(RAFT_NATS_OUTBOX_REPLAY_INTERVAL, self.last_replay, now))
            } else {
                None
            },
        }
    }

    /// Takes the id for a write that is queued.
    pub fn take_commit_id(&mut self) -> (r: usize)
        requires
            old(self).commit_id < usize::MAX,
        ensures
            r == old(self).commit_id,
            *final(self) == (LoopState { commit_id: (r + 1) as usize, ..*old(self) }),
    {
        let id: usize = self.commit_id;
        self.commit_id = id + 1;
        id
    }

    /// Begins a bump of the repeatable timestamp, under the id that is returned.
    pub fn begin_bump(&mut self, now: u64) -> (r: usize)
        requires
            old(self).commit_id < usize::MAX,
        ensures
            r == old(self).commit_id,
            *final(self) == (LoopState {
                next_bump_wait: None,
                last_bump: now,
                commit_id: (r + 1) as usize,
                span_commit_id: match old(self).span_commit_id {
                    Some(id) => Some(id),
                    None => Some(r),
                },
                ..*old(self)
            }),
    {
        if self.span_commit_id.is_none() {
            self.span_commit_id = Some(self.commit_id);
        }
        self.next_bump_wait = None;
        self.last_bump = now;
        self.take_commit_id()
    }

    /// Ends a bump of the repeatable timestamp: the next is due after the idle
    /// time, lengthened at random by up to as much again.
    pub fn end_bump(&mut self, pace: Pace, jitter: u64)
        requires
            jitter < pace.idle_frequency,
            pace.idle_frequency + jitter <= u64::MAX,
        ensures
            *final(self) == (LoopState {
                next_bump_wait: Some((pace.idle_frequency + jitter) as u64),
                ..*old(self)
            }),
    {
        self.next_bump_wait = Some(pace.idle_frequency + jitter);
    }

    /// After a commit the repeatable timestamp is bumped soon, so that others can
    /// read the commit, unless it is being bumped.
    pub fn after_commit(&mut self, pace: Pace)
        ensures
            *final(self) == (LoopState {
                next_bump_wait: match old(self).next_bump_wait {
                    Some(_) => Some(pace.commit_delay),
                    None => None,
                },
                ..*old(self)
            }),
    {
        if self.next_bump_wait.is_some() {
            self.next_bump_wait = Some(pace.commit_delay);
        }
    }

    /// Tells other partitions how far this one has come, if it has come further
    /// than it said before. Given what would be drawn for a commit, says what they
    /// are told.
    pub fn heartbeat(&mut self, committer: &mut Committer, drawn: Result<u64, CommitError>, now: u64) -> (r: Option<
        u64,
    >)
        ensures
            ({
                let told = if old(committer)@.is_partitioned() && old(committer)@.leads() {
                    match old(committer)@.repeatable_ts(super::outcome(drawn)) {
                        Ok(ts) => Some(ts),
                        Err(_) => None,
                    }
                } else {
                    None
                };
                &&& r == match told {
                    Some(ts) => if ts > old(self).last_heartbeat_ts {
                        Some(ts)
                    } else {
                        None
                    },
                    None => None,
                }
                &&& final(committer)@ == match told {
                    Some(ts) => if old(committer)@.repeatable_ts_is_drawn() {
                        old(committer)@.assigned(ts)
                    } else {
                        old(committer)@
                    },
                    None => old(committer)@,
                }
                &&& *final(self) == (LoopState {
                    last_heartbeat: now,
                    last_heartbeat_ts: match r {
                        Some(ts) => ts,
                        None => old(self).last_heartbeat_ts,
                    },
                    ..*old(self)
                })
            }),
    {
        self.last_heartbeat = now;
        match committer.idle_remote_read_frontier_heartbeat_ts(drawn) {
            Ok(Some(ts)) => {
                if ts > self.last_heartbeat_ts {
                    self.last_heartbeat_ts = ts;
                    Some(ts)
                } else {
                    None
                }
            },
            _ => None,
        }
    }

    /// Decides whether the outbox is replayed, when it is time to.
    pub fn replay(&mut self, committer: &Committer, now: u64) -> (r: bool)
        ensures
            r == (committer@.is_partitioned() && committer@.leads()),
            *final(self) == (LoopState { last_replay: now, ..*old(self) }),
    {
        self.last_replay = now;
        committer.should_replay_raft_nats_outbox()
    }

    /// Begins to trace the next write, if none is being traced. Says whether this
    /// one is the first.
    pub fn begin_trace(&mut self) -> (r: bool)
        ensures
            r == (old(self).span_commit_id is None),
            *final(self) == (LoopState {
                span_commit_id: match old(self).span_commit_id {
                    Some(id) => Some(id),
                    None => Some(old(self).commit_id),
                },
                ..*old(self)
            }),
    {
        if self.span_commit_id.is_none() {
            self.span_commit_id = Some(self.commit_id);
            return true;
        }
        false
    }

    /// Stops tracing a write that was not queued after all.
    pub fn cancel_trace(&mut self) -> (r: bool)
        ensures
            r == (old(self).span_commit_id == Some(old(self).commit_id)),
            *final(self) == if r {
                LoopState { span_commit_id: None, ..*old(self) }
            } else {
                *old(self)
            },
    {
        let traced: bool = match self.span_commit_id {
            Some(id) => id == self.commit_id,
            None => false,
        };
        if traced {
            self.span_commit_id = None;
        }
        traced
    }

    /// Ends the trace when the write that is traced has been taken in. A trace
    /// is reported if the write took at least as long as `threshold`; how long
    /// it took may not be known.
    pub fn end_trace(&mut self, commit_id: usize, elapsed: Option<u64>, threshold: u64) -> (r: Option<
        TraceEnd,
    >)
        ensures
            if old(self).span_commit_id == Some(commit_id) {
                &&& r == Some(
                    match elapsed {
                        Some(nanos) => if nanos < threshold {
                            TraceEnd::Dropped
                        } else {
                            TraceEnd::Reported
                        },
                        None => TraceEnd::Dropped,
                    },
                )
                &&& *final(self) == (LoopState { span_commit_id: None, ..*old(self) })
            } else {
                &&& r is None
                &&& *final(self) == *old(self)
            },
    {
        let traced: bool = match self.span_commit_id {
            Some(id) => id == commit_id,
            None => false,
        };
        if !traced {
            return None;
        }
        self.span_commit_id = None;
        match elapsed {
            Some(nanos) => if nanos < threshold {
                Some(TraceEnd::Dropped)
            } else {
                Some(TraceEnd::Reported)
            },
            None => Some(TraceEnd::Dropped),
        }
    }

    /// Goes on after a message has been handled. Whatever may have been queued
    /// uses up an id. Says whether the trace that was begun with the message is
    /// dropped, because there is nothing to trace.
    pub fn after_message(&mut self, handled: Handled) -> (r: bool)
        requires
            old(self).commit_id < usize::MAX,
        ensures
            r == (handled == Handled::CommitAnswered && old(self).span_commit_id == Some(
                old(self).commit_id,
            )),
            *final(self) == (LoopState {
                commit_id: if handled.takes_id() {
                    (old(self).commit_id + 1) as usize
                } else {
                    old(self).commit_id
                },
                span_commit_id: if r {
                    None
                } else {
                    old(self).span_commit_id
                },
                ..*old(self)
            }),
    {
        match handled {
            Handled::CommitAnswered => self.cancel_trace(),
            Handled::DeltaFailed | Handled::Answered => false,
            Handled::CommitQueued | Handled::DeltaTaken | Handled::CheckpointQueued
            | Handled::BumpQueued => {
                self.commit_id = self.commit_id + 1;
                false
            },
        }
    }
}

/// What becomes of a trace.
#[derive(Clone, Copy, Debug, PartialEq, Eq, Structural)]
pub enum TraceEnd {
    Reported,
    Dropped,
}

/// What a message to the committer came to.
#[derive(Clone, Copy, Debug, PartialEq, Eq, Structural)]
pub enum Handled {
    /// A commit was queued.
    CommitQueued,
    /// A commit was answered at once: it writes nothing, or it was refused.
    CommitAnswered,
    /// A delta was queued, or it was answered at once.
    DeltaTaken,
    /// A delta could not be looked at.
    DeltaFailed,
    /// A checkpoint was queued.
    CheckpointQueued,
    /// A bump of the repeatable timestamp was queued.
    BumpQueued,
    /// The message was answered at once.
    Answered,
}

impl Handled {
    /// The message used up an id.
    pub open spec fn takes_id(self) -> bool {
        match self {
            Handled::CommitQueued => true,
            Handled::DeltaTaken => true,
            Handled::CheckpointQueued => true,
            Handled::BumpQueued => true,
            _ => false,
        }
    }
}

impl Committer {
    /// Takes note of the Raft group that the node has joined.
    pub fn set_raft_state(&mut self, raft: RaftState)
        ensures
            final(self)@ == (CommitterState { raft: Some(raft), ..old(self)@ }),
    {
        self.raft = Some(raft);
    }

    /// Assigns a timestamp to a transaction that this node coordinates, given
    /// what the oracle or the clock gave. Only a leader does.
    pub fn allocate_commit_ts(&mut self, metrics: &mut MetricsRecorder, drawn: Result<u64, CommitError>) -> (r:
        Result<u64, CommitError>)
        ensures
            super::outcome(r) == match old(self)@.leadership_objection() {
                Some(e) => Err::<u64, Refusal>(e),
                None => old(self)@.commit_ts(super::outcome(drawn)),
            },
            final(metrics)@ == old(self)@.after_leadership_check(old(metrics)@),
            final(self)@ == match r {
                Ok(ts) => old(self)@.assigned(ts),
                Err(_) => old(self)@,
            },
    {
        if let Err(e) = self.ensure_leader_for_writes(metrics) {
            return Err(e);
        }
        self.next_commit_ts(drawn)
    }
}

/// A write that has reached persistence, or never will.
#[derive(Debug)]
pub enum CompletedWrite {
    Commit {
        commit_id: usize,
        commit_ts: u64,
        delta: Arc<CommitDelta>,
        raft_applied_index: Option<u64>,
        summary: Option<TableSummary>,
    },
    /// The commit did not get through Raft.
    Rejected { commit_id: usize, commit_ts: u64, err: CommitError },
    MaxRepeatable { commit_id: usize, ts: u64, advanced: bool },
    ReplicaDelta(DeltaFlow),
    FrontierHeartbeat(HeartbeatFlow),
    InstallSnapshot {
        commit_id: usize,
        snapshot_ts: u64,
        snapshot: SnapshotId,
        frontiers: BTreeMap<u32, u64>,
        watermarks: BTreeMap<u32, u64>,
        data_watermarks: BTreeMap<u32, u64>,
    },
}

impl CompletedWrite {
    /// The id the write was queued under.
    pub open spec fn id(self) -> usize {
        match self {
            CompletedWrite::Commit { commit_id, .. } => commit_id,
            CompletedWrite::Rejected { commit_id, .. } => commit_id,
            CompletedWrite::MaxRepeatable { commit_id, .. } => commit_id,
            CompletedWrite::ReplicaDelta(flow) => flow.commit_id,
            CompletedWrite::FrontierHeartbeat(flow) => flow.commit_id,
            CompletedWrite::InstallSnapshot { commit_id, .. } => commit_id,
        }
    }

    /// The id the write was queued under.
    pub fn commit_id(&self) -> (r: usize)
        ensures
            r == self.id(),
    {
        match self {
            CompletedWrite::Commit { commit_id, .. } => *commit_id,
            CompletedWrite::Rejected { commit_id, .. } => *commit_id,
            CompletedWrite::MaxRepeatable { commit_id, .. } => *commit_id,
            CompletedWrite::ReplicaDelta(flow) => flow.commit_id,
            CompletedWrite::FrontierHeartbeat(flow) => flow.commit_id,
            CompletedWrite::InstallSnapshot { commit_id, .. } => *commit_id,
        }
    }

    /// The write is the one whose turn it is: its snapshot is at the head of the
    /// queue, and a commit is the oldest pending one. What was queued for it has been
    /// written.
    pub open spec fn is_next(self, state: CommitterState) -> bool {
        match self {
            CompletedWrite::Commit { commit_id, commit_ts, .. } => {
                &&& state.queued.len() > 0
                &&& state.queued[0].commit_id == commit_id
                &&& state.pending.len() > 0
                &&& state.pending[0].ts == commit_ts
            },
            CompletedWrite::Rejected { commit_id, .. } => state.queued.len() > 0
                && state.queued[0].commit_id == commit_id,
            CompletedWrite::ReplicaDelta(flow) => state.queued.len() > 0
                && state.queued[0].commit_id == flow.commit_id && flow.stage
                == DeltaStage::AwaitTurn,
            CompletedWrite::FrontierHeartbeat(flow) => flow.stage == HeartbeatStage::AwaitTurn,
            _ => true,
        }
    }
}

/// What is left to do about a write that was taken in.
#[derive(Debug)]
pub enum Aftermath {
    /// The commit is visible to readers, and the other nodes are told.
    Tell(PublishFlow),
    /// The committer cannot go on.
    Fatal(CommitError),
    /// The commit is turned away. The pending commits get new snapshots.
    TurnedAway(CommitError),
    /// The repeatable timestamp is published; other partitions are told if this
    /// says so.
    Bumped { ts: u64, announce: bool },
    /// It is the delta's turn: what is left is recorded, and then
    /// [`Committer::publish_delta`] lets readers see it.
    Record(DeltaFlow),
    /// It is the heartbeat's turn: what is left is recorded, and then
    /// [`Committer::publish_heartbeat`] lets readers see it.
    RecordHeartbeat(HeartbeatFlow),
    /// The checkpoint has taken the place of everything else.
    Installed { ts: u64 },
}

/// Said when a write did not reach persistence for sure.
pub open spec fn unsure() -> Seq<char> {
    "Write failed. Unsure if transaction committed to disk."@
}

/// The state without the head of the queue.
pub open spec fn dequeued(state: CommitterState) -> CommitterState {
    CommitterState { queued: state.queued.skip(1), ..state }
}

/// What taking a write in does, and what is left to do.
pub open spec fn is_aftermath(
    write: CompletedWrite,
    before: CommitterState,
    after: CommitterState,
    r: Aftermath,
) -> bool {
    match write {
        CompletedWrite::Commit { commit_ts, delta, raft_applied_index, .. } => {
            let popped = CommitterState { pending: before.pending.skip(1), ..dequeued(before) };
            if delta.ts != commit_ts {
                &&& r matches Aftermath::Fatal(e)
                &&& e@ == publish::failed_commit(
                    "publish committed write"@,
                    commit_ts,
                    publish::mismatched_delta(commit_ts, delta.ts).text,
                )
                &&& after == dequeued(before)
            } else {
                match popped.publish_objection(commit_ts, delta.ts) {
                    Some(x) => {
                        &&& r matches Aftermath::Fatal(e)
                        &&& e@ == publish::failed_commit(
                            "publish committed write"@,
                            commit_ts,
                            x.text,
                        )
                        &&& after == popped
                    },
                    None => {
                        &&& r matches Aftermath::Tell(flow)
                        &&& flow.path == CommitPath::Local
                        &&& flow.commit_ts == commit_ts
                        &&& flow.source_partition == delta.source_partition
                        &&& match raft_applied_index {
                            None => flow.stage == publish::after_mark(
                                delta.source_partition is Some,
                            ) && flow.failure is None,
                            Some(index) => if before.raft is Some {
                                flow.stage == publish::PublishStage::MarkApplied(index)
                                    && flow.failure is None
                            } else {
                                flow.stage == publish::PublishStage::Failed && flow.refusal()
                                    == Some(
                                    publish::failed_commit(
                                        publish::operation_of(
                                            CommitPath::Local,
                                            publish::PublishStage::MarkApplied(index),
                                        ),
                                        commit_ts,
                                        publish::without_raft(CommitPath::Local, index),
                                    ),
                                )
                            },
                        }
                        &&& after == popped.published(commit_ts, before.pending[0].snapshot)
                    },
                }
            }
        },
        CompletedWrite::Rejected { commit_ts, err, .. } => match publish::pending_at(
            before.pending,
            commit_ts,
        ) {
            Some(i) => {
                &&& r matches Aftermath::TurnedAway(e)
                &&& e@ == err@
                &&& after == (CommitterState {
                    pending: before.pending.remove(i),
                    ..dequeued(before)
                })
            },
            None => {
                &&& r matches Aftermath::Fatal(e)
                &&& e@ == publish::not_pending(commit_ts)
                &&& after == dequeued(before)
            },
        },
        CompletedWrite::MaxRepeatable { ts, advanced, .. } => {
            &&& r matches Aftermath::Bumped { ts: t, announce }
            &&& t == ts
            &&& announce == (advanced && before.is_partitioned() && before.leads())
            &&& after == (CommitterState {
                max_repeatable_ts: ts,
                latest_ts: if advanced {
                    ts
                } else {
                    before.latest_ts
                },
                log_max_ts: if advanced {
                    ts
                } else {
                    before.log_max_ts
                },
                ..before
            })
        },
        CompletedWrite::ReplicaDelta(flow) => {
            &&& r matches Aftermath::Record(f)
            &&& f == (DeltaFlow {
                stage: delta_flow::first_record(
                    flow.source_partition is Some,
                    flow.queued.records_outbox,
                ),
                ..flow
            })
            &&& after == dequeued(before)
        },
        CompletedWrite::FrontierHeartbeat(flow) => {
            &&& r matches Aftermath::RecordHeartbeat(f)
            &&& f == (HeartbeatFlow { stage: HeartbeatStage::RecordWatermarks, ..flow })
            &&& after == before
        },
        CompletedWrite::InstallSnapshot {
            snapshot_ts,
            snapshot,
            frontiers,
            watermarks,
            data_watermarks,
            ..
        } => {
            &&& r matches Aftermath::Installed { ts }
            &&& ts == snapshot_ts
            &&& after == before.installed(
                snapshot_ts,
                snapshot,
                frontiers@,
                watermarks@,
                data_watermarks@,
            )
        },
    }
}

/// What taking in a write measures: only a commit that becomes visible is
/// measured.
pub open spec fn intake_samples(
    write: CompletedWrite,
    before: CommitterState,
    r: Aftermath,
    gauge_metric: Seq<char>,
    gauge_share: int,
) -> Seq<Measured> {
    match (write, r) {
        (CompletedWrite::Commit { delta, summary, .. }, Aftermath::Tell(_)) =>
            publish::commit_samples(
            before.pending[0].updates@.len(),
            delta.write_bytes,
            summary,
            gauge_metric,
            gauge_share,
        ),
        _ => Seq::empty(),
    }
}

/// This node's share of the gauge of user data once a write has been taken in.
pub open spec fn intake_share(write: CompletedWrite, r: Aftermath, gauge_share: int) -> int {
    match (write, r) {
        (CompletedWrite::Commit { summary: Some(s), .. }, Aftermath::Tell(_)) =>
            s.user_docs_size as int,
        _ => gauge_share,
    }
}

impl Committer {
    /// Takes in the write whose turn it is. A write that may or may not have
    /// reached persistence stops the committer.
    pub fn take_in(
        &mut self,
        metrics: &mut MetricsRecorder,
        gauge: &mut Subgauge,
        write: Result<CompletedWrite, CommitError>,
    ) -> (r: Aftermath)
        requires
            write matches Ok(w) ==> w.is_next(old(self)@),
        ensures
            match write {
                Ok(w) => {
                    &&& is_aftermath(w, old(self)@, final(self)@, r)
                    &&& final(metrics)@ == old(metrics)@ + intake_samples(
                        w,
                        old(self)@,
                        r,
                        old(gauge).metric(),
                        old(gauge).share(),
                    )
                    &&& final(gauge).share() == intake_share(w, r, old(gauge).share())
                },
                Err(e) => {
                    &&& r matches Aftermath::Fatal(x)
                    &&& x@ == super::in_context(unsure(), e@)
                    &&& final(self)@ == old(self)@
                    &&& final(metrics)@ == old(metrics)@
                    &&& *final(gauge) == *old(gauge)
                },
            },
            final(gauge).metric() == old(gauge).metric(),
    {
        assert(metrics@ + Seq::<Measured>::empty() =~= metrics@);
        let write = match write {
            Ok(w) => w,
            Err(e) => {
                return Aftermath::Fatal(
                    e.context("Write failed. Unsure if transaction committed to disk."),
                );
            },
        };
        match write {
            CompletedWrite::Commit { commit_id, commit_ts, delta, raft_applied_index, summary } => {
                self.dequeue_snapshot(commit_id);
                match self.publish_commit(metrics, gauge, commit_ts, &delta, summary) {
                    Err(e) => Aftermath::Fatal(
                        publish::fail_committed_write(commit_ts, "publish committed write", &e),
                    ),
                    Ok(()) => {
                        let has_raft: bool = self.raft.is_some();
                        Aftermath::Tell(
                            PublishFlow::start(
                                CommitPath::Local,
                                commit_ts,
                                delta.source_partition,
                                raft_applied_index,
                                has_raft,
                            ),
                        )
                    },
                }
            },
            CompletedWrite::Rejected { commit_id, commit_ts, err } => {
                self.dequeue_snapshot(commit_id);
                match self.reject_pending(commit_ts) {
                    Ok(()) => Aftermath::TurnedAway(err),
                    Err(e) => Aftermath::Fatal(e),
                }
            },
            CompletedWrite::MaxRepeatable { commit_id: _, ts, advanced } => {
                let announce: bool = self.publish_max_repeatable_ts(ts, advanced);
                Aftermath::Bumped { ts, announce }
            },
            CompletedWrite::ReplicaDelta(flow) => {
                let mut flow: DeltaFlow = flow;
                self.dequeue_snapshot(flow.commit_id);
                flow.take_turn();
                Aftermath::Record(flow)
            },
            CompletedWrite::FrontierHeartbeat(flow) => {
                let mut flow: HeartbeatFlow = flow;
                flow.take_turn();
                Aftermath::RecordHeartbeat(flow)
            },
            CompletedWrite::InstallSnapshot {
                commit_id: _,
                snapshot_ts,
                snapshot,
                frontiers,
                watermarks,
                data_watermarks,
            } => {
                self.finish_install_snapshot(
                    snapshot_ts,
                    snapshot,
                    frontiers,
                    watermarks,
                    data_watermarks,
                );
                Aftermath::Installed { ts: snapshot_ts }
            },
        }
    }
}

/// Writes that are taken in keep the queue in order.
pub proof fn taking_in_keeps_the_queue_in_order(
    write: CompletedWrite,
    before: CommitterState,
    after: CommitterState,
    r: Aftermath,
)
    requires
        before.queue_in_order(),
        write.is_next(before),
        is_aftermath(write, before, after, r),
    ensures
        after.queue_in_order(),
{
    if before.queued.len() > 0 {
        let q = dequeued(before).queued;
        assert forall|i: int, j: int| 0 <= i < j < q.len() implies (#[trigger] q[i]).commit_id < (
        #[trigger] q[j]).commit_id && q[i].ts <= q[j].ts by {
            assert(q[i] == before.queued[i + 1] && q[j] == before.queued[j + 1]);
        }
    }
}

/// What is left of a wait and what has passed of it make up the wait; none is left
/// once it has passed, and none is longer than it was.
pub proof fn waits_run_down(wait: u64, since: u64, now: u64)
    ensures
        remaining(wait, since, now) <= wait,
        since <= now <= since + wait ==> now + remaining(wait, since, now) == since + wait,
        now >= since + wait && now > since ==> remaining(wait, since, now) == 0,
        now <= since ==> remaining(wait, since, now) == wait,
{
}

/// What is queued takes a commit id, and what is answered or refused at once takes
/// none.
pub proof fn queued_work_takes_an_id(handled: Handled)
    ensures
        handled.takes_id() <==> handled == Handled::CommitQueued || handled == Handled::DeltaTaken
            || handled == Handled::CheckpointQueued || handled == Handled::BumpQueued,
{
}

/// A commit that reached persistence, in its turn, becomes visible: its snapshot is
/// the latest one at its timestamp, it is no longer pending or queued, everything
/// else is as it was, and the others are told its timestamp and source.
pub proof fn persisted_commits_become_visible(
    write: CompletedWrite,
    before: CommitterState,
    after: CommitterState,
    r: Aftermath,
    at: u64,
    told: Arc<CommitDelta>,
)
    requires
        is_aftermath(write, before, after, r),
        write matches CompletedWrite::Commit { commit_ts, delta, .. } && commit_ts == at && delta
            == told,
    ensures
        told.ts == at && at > before.latest_ts <==> r is Tell,
        r is Fatal || r is Tell,
        r matches Aftermath::Tell(flow) ==> {
            &&& flow.path == CommitPath::Local
            &&& flow.commit_ts == at
            &&& flow.source_partition == told.source_partition
            &&& after.latest_ts == at
            &&& after.latest_snapshot == before.pending[0].snapshot
            &&& after.log_max_ts == at
            &&& after.pending == before.pending.skip(1)
            &&& after.queued == before.queued.skip(1)
            &&& after == (CommitterState {
                latest_ts: after.latest_ts,
                latest_snapshot: after.latest_snapshot,
                log_max_ts: after.log_max_ts,
                pending: after.pending,
                queued: after.queued,
                ..before
            })
        },
        r is Fatal ==> after.latest_ts == before.latest_ts && after.latest_snapshot
            == before.latest_snapshot && after.queued == before.queued.skip(1),
{
}

/// A commit that its group turned away is no longer pending, nobody ever sees it,
/// whoever asked is told why, and the other pending commits stay.
pub proof fn rejected_commits_are_never_seen(
    write: CompletedWrite,
    before: CommitterState,
    after: CommitterState,
    r: Aftermath,
    at: u64,
    why: CommitError,
    i: int,
)
    requires
        is_aftermath(write, before, after, r),
        write matches CompletedWrite::Rejected { commit_ts, err, .. } && commit_ts == at && err
            == why,
        0 <= i < before.pending.len(),
        before.pending[i].ts == at,
        forall|j: int| 0 <= j < i ==> (#[trigger] before.pending[j]).ts != at,
    ensures
        r matches Aftermath::TurnedAway(e) && e@ == why@,
        after.pending == before.pending.remove(i),
        after.queued == before.queued.skip(1),
        after.latest_ts == before.latest_ts,
        after.latest_snapshot == before.latest_snapshot,
        after.log_max_ts == before.log_max_ts,
        after.prepared == before.prepared,
{
    publish::pending_commits_are_found_by_timestamp(before.pending, at);
}

/// A repeatable timestamp that was recorded is the one in use, moves the latest
/// snapshot's timestamp only where it goes ahead, and is announced by leaders of
/// partitioned nodes alone.
pub proof fn recorded_timestamps_are_repeatable(
    write: CompletedWrite,
    before: CommitterState,
    after: CommitterState,
    r: Aftermath,
    at: u64,
    ahead: bool,
)
    requires
        is_aftermath(write, before, after, r),
        write matches CompletedWrite::MaxRepeatable { ts, advanced, .. } && ts == at && advanced
            == ahead,
    ensures
        r matches Aftermath::Bumped { ts, announce } && ts == at && (announce <==> ahead
            && before.is_partitioned() && before.leads()),
        after.max_repeatable_ts == at,
        ahead ==> after.latest_ts == at && after.log_max_ts == at,
        !ahead ==> after.latest_ts == before.latest_ts && after.log_max_ts == before.log_max_ts,
        after.latest_snapshot == before.latest_snapshot,
        after.pending == before.pending,
        after.prepared == before.prepared,
        after.queued == before.queued,
        after.last_assigned_ts == before.last_assigned_ts,
{
}

/// A delta or a heartbeat whose turn it is is still unseen: nothing that readers see
/// changes before what it says has been recorded, and what it says stays the same.
pub proof fn turns_change_nothing_that_is_seen(
    write: CompletedWrite,
    before: CommitterState,
    after: CommitterState,
    r: Aftermath,
)
    requires
        is_aftermath(write, before, after, r),
    ensures
        write matches CompletedWrite::ReplicaDelta(flow) ==> {
            &&& r matches Aftermath::Record(f)
            &&& f.same_delta(flow)
            &&& f.commit_ts == flow.commit_ts
            &&& f.snapshot == flow.snapshot
            &&& f.remote_ts == flow.remote_ts
            &&& f.source_partition == flow.source_partition
            &&& after.queued == before.queued.skip(1)
            &&& after == (CommitterState { queued: after.queued, ..before })
        },
        write matches CompletedWrite::FrontierHeartbeat(flow) ==> {
            &&& r matches Aftermath::RecordHeartbeat(f)
            &&& f.commit_ts == flow.commit_ts
            &&& f.source_partition == flow.source_partition
            &&& f.stage == HeartbeatStage::RecordWatermarks
            &&& after == before
        },
{
}

/// A checkpoint that was installed is what readers see, at its timestamp, and
/// nothing from before it is pending, prepared or queued.
pub proof fn installed_checkpoints_take_over(
    write: CompletedWrite,
    before: CommitterState,
    after: CommitterState,
    r: Aftermath,
)
    requires
        is_aftermath(write, before, after, r),
        write is InstallSnapshot,
    ensures
        write matches CompletedWrite::InstallSnapshot { snapshot_ts, snapshot, frontiers, watermarks, data_watermarks, .. } ==> {
            &&& r matches Aftermath::Installed { ts } && ts == snapshot_ts
            &&& after.latest_ts == snapshot_ts
            &&& after.latest_snapshot == snapshot
            &&& after.pending.len() == 0
            &&& after.queued.len() == 0
            &&& after.frontiers == frontiers@
            &&& after.watermarks == watermarks@
            &&& after.data_watermarks == data_watermarks@
        },
{
}

/// Only a commit that becomes visible is counted, with its own rows and bytes.
pub proof fn only_visible_commits_are_counted(
    write: CompletedWrite,
    before: CommitterState,
    r: Aftermath,
    gauge_metric: Seq<char>,
    gauge_share: int,
)
    ensures
        !(write is Commit && r is Tell) ==> intake_samples(
            write,
            before,
            r,
            gauge_metric,
            gauge_share,
        ).len() == 0 && intake_share(write, r, gauge_share) == gauge_share,
        write matches CompletedWrite::Commit { delta, summary, .. } ==> (r is Tell ==> {
            let samples = intake_samples(write, before, r, gauge_metric, gauge_share);
            &&& samples[0].amount == crate::metrics::Amount::Count(before.pending[0].updates@.len() as i128)
            &&& samples[1].amount == crate::metrics::Amount::Count(delta.write_bytes as i128)
            &&& summary is None ==> samples.len() == 2 && intake_share(write, r, gauge_share)
                == gauge_share
            &&& summary matches Some(s) ==> samples.len() == 5 && samples[2].amount
                == crate::metrics::Amount::Count(s.num_user_documents as i128) && samples[3].amount
                == crate::metrics::Amount::Count(s.user_tables_size as i128) && intake_share(write, r, gauge_share)
                == s.user_docs_size && samples[4].amount == crate::metrics::Amount::Count(
                (s.user_docs_size - gauge_share) as i128,
            )
        }),
{
}

} // verus!
