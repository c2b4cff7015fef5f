//! Taking a transaction through the committer: a commit of this node alone, and
//! the prepare and commit phases of a two-phase commit.
use super::delta;
use super::delta::CommitDelta;
use super::prepared;
use super::raft;
use super::raft::RaftAnswer;
use super::staging::{FinalTransaction, PrepareResult, ValidatedCommit, ValidatedDocumentWrite};
use super::staging;
use super::{CommitError, CommitOutcome, Committer, CommitterState, QueuedSnapshot, Refusal};
use crate::documents::{share_document, DocumentLogEntry, TableMapping};
use crate::metrics;
use crate::metrics::{Measured, MetricsRecorder, WriteSize};
use crate::text;
use std::sync::Arc;
use vstd::prelude::*;
use vstd::string::*;

verus! {

/// How a commit begins.
#[derive(Clone, Copy, Debug, PartialEq, Eq, Structural)]
pub enum CommitStart {
    /// There is nothing to write: whoever asked is told at once.
    Readonly(CommitOutcome),
    /// The commit is checked, staged and queued.
    Write,
}

/// What is measured when a transaction that writes begins to commit.
pub open spec fn write_tx_samples(num_intervals: usize, user: WriteSize, system: WriteSize) -> Seq<Measured> {
    seq![
        metrics::observed(
            "DATABASE_WRITE_TX_READ_INTERVALS_TOTAL"@,
            num_intervals as int,
            metrics::unlabelled(),
        ),
        metrics::observed(
            "DATABASE_WRITE_TX_WRITES_TOTAL"@,
            user.size + system.size,
            metrics::unlabelled(),
        ),
        metrics::observed(
            "DATABASE_WRITE_TX_NUM_WRITES_TOTAL"@,
            user.num_writes + system.num_writes,
            metrics::unlabelled(),
        ),
        metrics::observed(
            "DATABASE_USER_WRITE_TX_WRITES_TOTAL"@,
            user.size as int,
            metrics::unlabelled(),
        ),
        metrics::observed(
            "DATABASE_USER_WRITE_TX_NUM_WRITES_TOTAL"@,
            user.num_writes as int,
            metrics::unlabelled(),
        ),
        metrics::observed(
            "DATABASE_SYSTEM_WRITE_TX_WRITES_TOTAL"@,
            system.size as int,
            metrics::unlabelled(),
        ),
        metrics::observed(
            "DATABASE_SYSTEM_WRITE_TX_NUM_WRITES_TOTAL"@,
            system.num_writes as int,
            metrics::unlabelled(),
        ),
    ]
}

/// The delta says what a validated commit wrote.
pub open spec fn is_delta_of(
    d: CommitDelta,
    before: CommitterState,
    validated: ValidatedCommit,
    tables: Seq<crate::documents::TableInfo>,
) -> bool {
    let staged = before.pending.last();
    &&& d.ts == validated.commit_ts
    &&& d.document_updates == staged.updates
    &&& d.write_source == staged.source
    &&& d.write_bytes == validated.write_bytes
    &&& d.document_writes@ == Seq::new(
        validated.document_writes@.len(),
        |i: int| logged_form(validated.document_writes@[i]),
    )
    &&& d.index_writes@ == Seq::new(
        validated.index_writes@.len(),
        |i: int| validated.index_writes@[i].entry,
    )
    &&& delta::table_names(d.tables@) == delta::names_in(staged.updates@, tables)
    &&& d.source_partition == before.source_partition()
}

/// What a checked write leaves in the document log.
pub open spec fn logged_form(w: ValidatedDocumentWrite) -> DocumentLogEntry {
    DocumentLogEntry { ts: w.commit_ts, id: w.id, value: w.write, prev_ts: w.prev_ts }
}

fn logged_entries(writes: &Vec<ValidatedDocumentWrite>) -> (r: Vec<DocumentLogEntry>)
    ensures
        r@ == Seq::new(writes@.len(), |i: int| logged_form(writes@[i])),
{
    let mut r: Vec<DocumentLogEntry> = Vec::new();
    let mut i: usize = 0;
    while i < writes.len()
        invariant
            i <= writes@.len(),
            r@ == Seq::new(writes@.len(), |k: int| logged_form(writes@[k])).take(i as int),
        decreases writes@.len() - i,
    {
        r.push(
            DocumentLogEntry {
                ts: writes[i].commit_ts,
                id: writes[i].id,
                value: share_document(&writes[i].write),
                prev_ts: writes[i].prev_ts,
            },
        );
        assert(r@ =~= Seq::new(writes@.len(), |k: int| logged_form(writes@[k])).take(i + 1));
        i += 1;
    }
    assert(r@ =~= Seq::new(writes@.len(), |k: int| logged_form(writes@[k])));
    r
}

impl Committer {
    /// Begins a commit. A transaction that writes nothing is done as soon as it
    /// began; the size of any other is measured.
    pub fn start_commit(
        &self,
        metrics: &mut MetricsRecorder,
        transaction: &FinalTransaction,
        num_intervals: usize,
        user: WriteSize,
        system: WriteSize,
    ) -> (r: CommitStart)
        ensures
            if transaction.writes@.len() == 0 {
                &&& r == CommitStart::Readonly(
                    CommitOutcome {
                        ts: transaction.begin_ts,
                        source_partition: self@.source_partition(),
                    },
                )
                &&& final(metrics)@ == old(metrics)@
            } else {
                &&& r == CommitStart::Write
                &&& final(metrics)@ == old(metrics)@ + write_tx_samples(num_intervals, user, system)
            },
    {
        if transaction.is_readonly() {
            return CommitStart::Readonly(
                CommitOutcome {
                    ts: transaction.begin_ts,
                    source_partition: self.source_partition(),
                },
            );
        }
        metrics::log_write_tx(metrics, num_intervals, user, system);
        CommitStart::Write
    }

    /// Queues a commit that was validated and staged, and says what the other
    /// nodes will be told of it.
    pub fn queue_commit(
        &mut self,
        validated: &ValidatedCommit,
        table_mapping: &TableMapping,
        commit_id: usize,
    ) -> (r: CommitDelta)
        requires
            old(self)@.pending.len() > 0,
            old(self)@.pending.last().ts == validated.commit_ts,
            old(self)@.can_queue(commit_id, validated.commit_ts),
        ensures
            is_delta_of(r, old(self)@, *validated, table_mapping.tables@),
            final(self)@ == (CommitterState {
                queued: old(self)@.queued.push(
                    QueuedSnapshot {
                        commit_id,
                        ts: validated.commit_ts,
                        snapshot: old(self)@.pending.last().snapshot,
                    },
                ),
                ..old(self)@
            }),
            old(self)@.queue_in_order() ==> final(self)@.queue_in_order(),
    {
        let last: usize = self.pending.len() - 1;
        let snapshot = self.pending[last].snapshot;
        self.enqueue_snapshot(commit_id, validated.commit_ts, snapshot);
        let document_writes = Arc::new(logged_entries(&validated.document_writes));
        let index_writes = Arc::new(staging::index_entries(&validated.index_writes));
        let source_partition = self.source_partition();
        delta::build_commit_delta(
            validated.commit_ts,
            &self.pending[last].updates,
            &self.pending[last].source,
            table_mapping,
            validated.write_bytes,
            &document_writes,
            &index_writes,
            source_partition,
        )
    }
}

/// What is done next about a transaction that has been staged as prepared.
#[derive(Clone, Copy, Debug, PartialEq, Eq, Structural)]
pub enum PrepareStage {
    /// Write the redo record.
    PersistRedo,
    /// Get the prepare through Raft.
    Replicate,
    /// Tell Raft that the entry at this index has been applied.
    MarkApplied(u64),
    /// Delete the redo record: the prepare has failed.
    DeleteRedo,
    /// Tell the coordinator that the transaction is prepared.
    Reply,
    /// Tell the coordinator that it is not.
    Failed,
}

/// How a stage of a prepare went.
#[derive(Debug)]
pub enum PrepareEvent {
    /// It is done, or it failed.
    Done(Result<(), CommitError>),
    /// Raft has answered.
    Answered(RaftAnswer),
}

/// How a stage of a prepare went, as contracts speak of it.
pub enum PrepareNews {
    Done(Option<Refusal>),
    Answered(RaftAnswer),
}

impl View for PrepareEvent {
    type V = PrepareNews;

    open spec fn view(&self) -> PrepareNews {
        match self {
            PrepareEvent::Done(Ok(())) => PrepareNews::Done(None),
            PrepareEvent::Done(Err(e)) => PrepareNews::Done(Some(e@)),
            PrepareEvent::Answered(a) => PrepareNews::Answered(*a),
        }
    }
}

/// What comes of a stage: the next one, why the prepare has failed, and whether
/// the transaction stays prepared.
pub struct PrepareTurn {
    pub stage: PrepareStage,
    pub failure: Option<Refusal>,
    pub keeps: bool,
}

/// Said when Raft gave an index without there being Raft.
pub open spec fn prepare_without_raft(id: Seq<char>, index: u64) -> Refusal {
    super::refused(
        "2PC Prepare txn="@ + id + " returned Raft applied index "@ + text::dec(index as nat)
            + " without Raft state"@,
    )
}

/// What comes of a stage of a prepare.
///
/// A transaction whose redo record is not written, or that does not get through
/// Raft, is rolled back here at once, and its redo record goes too. Once it has
/// got through it stays prepared, whatever the coordinator is told.
pub open spec fn prepare_turn(
    stage: PrepareStage,
    news: PrepareNews,
    id: Seq<char>,
    ts: u64,
    has_raft: bool,
    failure: Option<Refusal>,
) -> PrepareTurn {
    match (stage, news) {
        (PrepareStage::PersistRedo, PrepareNews::Done(None)) => PrepareTurn {
            stage: PrepareStage::Replicate,
            failure,
            keeps: true,
        },
        (PrepareStage::PersistRedo, PrepareNews::Done(Some(e))) => PrepareTurn {
            stage: PrepareStage::Failed,
            failure: Some(e),
            keeps: false,
        },
        (PrepareStage::Replicate, PrepareNews::Done(Some(e))) => PrepareTurn {
            stage: PrepareStage::DeleteRedo,
            failure: Some(e),
            keeps: false,
        },
        (PrepareStage::Replicate, PrepareNews::Answered(a)) => match raft::prepare_answer(a, id, ts) {
            Err(e) => PrepareTurn {
                stage: PrepareStage::DeleteRedo,
                failure: Some(e),
                keeps: false,
            },
            Ok(None) => PrepareTurn { stage: PrepareStage::Reply, failure, keeps: true },
            Ok(Some(index)) => if has_raft {
                PrepareTurn { stage: PrepareStage::MarkApplied(index), failure, keeps: true }
            } else {
                PrepareTurn {
                    stage: PrepareStage::Failed,
                    failure: Some(prepare_without_raft(id, index)),
                    keeps: true,
                }
            },
        },
        (PrepareStage::MarkApplied(_), PrepareNews::Done(None)) => PrepareTurn {
            stage: PrepareStage::Reply,
            failure,
            keeps: true,
        },
        (PrepareStage::MarkApplied(_), PrepareNews::Done(Some(e))) => PrepareTurn {
            stage: PrepareStage::Failed,
            failure: Some(e),
            keeps: true,
        },
        (PrepareStage::DeleteRedo, _) => PrepareTurn {
            stage: PrepareStage::Failed,
            failure,
            keeps: true,
        },
        _ => PrepareTurn { stage, failure, keeps: true },
    }
}

/// A transaction on its way to being prepared.
#[derive(Debug)]
pub struct PrepareFlow {
    pub transaction_id: String,
    pub prepare_ts: u64,
    pub stage: PrepareStage,
    /// Why the prepare has failed, if it has.
    pub failure: Option<CommitError>,
}

impl PrepareFlow {
    /// The failure, as contracts speak of it.
    pub open spec fn refusal(self) -> Option<Refusal> {
        match self.failure {
            Some(e) => Some(e@),
            None => None,
        }
    }

    /// Begins with a transaction that has been staged.
    pub fn start(transaction_id: &str, result: PrepareResult) -> (r: Self)
        ensures
            r.transaction_id@ == transaction_id@,
            r.prepare_ts == result.prepare_ts,
            r.stage == PrepareStage::PersistRedo,
            r.failure is None,
    {
        PrepareFlow {
            transaction_id: transaction_id.to_owned(),
            prepare_ts: result.prepare_ts,
            stage: PrepareStage::PersistRedo,
            failure: None,
        }
    }
}

impl Committer {
    /// Goes on with a prepare, given how the current stage went.
    pub fn handle_prepare(&mut self, flow: &mut PrepareFlow, event: PrepareEvent)
        ensures
            final(flow).transaction_id@ == old(flow).transaction_id@,
            final(flow).prepare_ts == old(flow).prepare_ts,
            ({
                let turn = prepare_turn(
                    old(flow).stage,
                    event@,
                    old(flow).transaction_id@,
                    old(flow).prepare_ts,
                    old(self)@.raft is Some,
                    old(flow).refusal(),
                );
                &&& final(flow).stage == turn.stage
                &&& final(flow).refusal() == turn.failure
                &&& final(self)@ == if turn.keeps {
                    old(self)@
                } else {
                    old(self)@.without_prepared(old(flow).transaction_id@)
                }
            }),
    {
        let stage: PrepareStage = flow.stage;
        match (stage, event) {
            (PrepareStage::PersistRedo, PrepareEvent::Done(Ok(()))) => {
                flow.stage = PrepareStage::Replicate;
            },
            (PrepareStage::PersistRedo, PrepareEvent::Done(Err(e))) => {
                self.forget_prepared(flow.transaction_id.as_str());
                flow.failure = Some(e);
                flow.stage = PrepareStage::Failed;
            },
            (PrepareStage::Replicate, PrepareEvent::Done(Err(e))) => {
                self.forget_prepared(flow.transaction_id.as_str());
                flow.failure = Some(e);
                flow.stage = PrepareStage::DeleteRedo;
            },
            (PrepareStage::Replicate, PrepareEvent::Answered(answer)) => {
                match raft::wait_for_raft_prepare(
                    answer,
                    flow.transaction_id.as_str(),
                    flow.prepare_ts,
                ) {
                    Err(e) => {
                        self.forget_prepared(flow.transaction_id.as_str());
                        flow.failure = Some(e);
                        flow.stage = PrepareStage::DeleteRedo;
                    },
                    Ok(None) => {
                        flow.stage = PrepareStage::Reply;
                    },
                    Ok(Some(index)) => {
                        if self.raft.is_some() {
                            flow.stage = PrepareStage::MarkApplied(index);
                        } else {
                            let mut s: String = String::new();
                            s.append("2PC Prepare txn=");
                            s.append(flow.transaction_id.as_str());
                            s.append(" returned Raft applied index ");
                            text::push_dec(&mut s, index);
                            s.append(" without Raft state");
                            assert(s@ =~= prepare_without_raft(
                                flow.transaction_id@,
                                index,
                            ).text);
                            flow.failure = Some(CommitError::new(s));
                            flow.stage = PrepareStage::Failed;
                        }
                    },
                }
            },
            (PrepareStage::MarkApplied(_), PrepareEvent::Done(Ok(()))) => {
                flow.stage = PrepareStage::Reply;
            },
            (PrepareStage::MarkApplied(_), PrepareEvent::Done(Err(e))) => {
                flow.failure = Some(e);
                flow.stage = PrepareStage::Failed;
            },
            (PrepareStage::DeleteRedo, _) => {
                flow.stage = PrepareStage::Failed;
            },
            _ => {},
        }
    }

    fn forget_prepared(&mut self, transaction_id: &str)
        ensures
            final(self)@ == old(self)@.without_prepared(transaction_id@),
    {
        let removed = self.prepared.remove(transaction_id);
        assert(self@ =~= old(self)@.without_prepared(transaction_id@));
    }
}

/// A coordinator that is told that a transaction is prepared finds it prepared:
/// no stage that leads there takes it back.
pub proof fn acknowledged_prepares_hold(
    stage: PrepareStage,
    news: PrepareNews,
    id: Seq<char>,
    ts: u64,
    has_raft: bool,
    failure: Option<Refusal>,
)
    ensures
        prepare_turn(stage, news, id, ts, has_raft, failure).stage == PrepareStage::Reply
            ==> prepare_turn(stage, news, id, ts, has_raft, failure).keeps,
        prepare_turn(stage, news, id, ts, has_raft, failure).stage is MarkApplied ==> prepare_turn(
            stage,
            news,
            id,
            ts,
            has_raft,
            failure,
        ).keeps,
{
}

/// A transaction that is taken back is never acknowledged.
pub proof fn taken_back_prepares_fail(
    stage: PrepareStage,
    news: PrepareNews,
    id: Seq<char>,
    ts: u64,
    has_raft: bool,
    failure: Option<Refusal>,
)
    requires
        !prepare_turn(stage, news, id, ts, has_raft, failure).keeps,
    ensures
        ({
            let turn = prepare_turn(stage, news, id, ts, has_raft, failure);
            &&& turn.failure is Some
            &&& turn.stage == PrepareStage::Failed || turn.stage == PrepareStage::DeleteRedo
        }),
{
}

/// A queued commit is told to others as it was staged: the same timestamp, updates
/// and source, each checked write with its document, id and previous revision, each
/// index entry, and each table under the name that it has here.
pub proof fn queued_commits_are_told_as_staged(
    d: CommitDelta,
    before: CommitterState,
    validated: ValidatedCommit,
    tables: Seq<crate::documents::TableInfo>,
    i: int,
    t: u128,
)
    requires
        is_delta_of(d, before, validated, tables),
    ensures
        d.ts == validated.commit_ts,
        d.document_updates@ == before.pending[before.pending.len() - 1].updates@,
        d.write_source@ == before.pending[before.pending.len() - 1].source@,
        d.write_bytes == validated.write_bytes,
        d.document_writes@.len() == validated.document_writes@.len(),
        0 <= i < validated.document_writes@.len() ==> {
            let e = d.document_writes@[i];
            let w = validated.document_writes@[i];
            &&& e.value == w.write
            &&& e.id == w.id
            &&& e.prev_ts == w.prev_ts
            &&& e.ts == w.commit_ts
        },
        d.index_writes@.len() == validated.index_writes@.len(),
        0 <= i < validated.index_writes@.len() ==> d.index_writes@[i]
            == validated.index_writes@[i].entry,
        before.placement matches Some(p) ==> d.source_partition == Some(p.0),
        before.placement is None ==> d.source_partition is None,
        d.tables@.contains_key(t) ==> crate::documents::name_of(
            tables,
            crate::names::TabletId(t),
        ) == Some(d.tables@[t]@),
{
    if d.tables@.contains_key(t) {
        assert(delta::table_names(d.tables@).contains_key(t));
        delta::deltas_use_the_right_names(
            before.pending.last().updates@,
            tables,
            crate::names::TabletId(t),
        );
    }
}

/// What is measured of a transaction that writes: its reads, then all its writes,
/// then those of its user and of the system, which add up.
pub proof fn write_samples_add_up(num_intervals: usize, user: WriteSize, system: WriteSize)
    ensures
        ({
            let samples = write_tx_samples(num_intervals, user, system);
            &&& samples.len() == 7
            &&& samples[0].amount->Count_0 == num_intervals
            &&& samples[1].amount->Count_0 == samples[3].amount->Count_0
                + samples[5].amount->Count_0
            &&& samples[2].amount->Count_0 == samples[4].amount->Count_0
                + samples[6].amount->Count_0
            &&& samples[3].amount->Count_0 == user.size && samples[4].amount->Count_0
                == user.num_writes
            &&& samples[5].amount->Count_0 == system.size && samples[6].amount->Count_0
                == system.num_writes
            &&& forall|i: int|
                0 <= i < 7 ==> (#[trigger] samples[i]).amount is Count && samples[i].kind
                    == metrics::SampleKind::Distribution
        }),
{
}

/// A prepare goes on exactly where its redo record was written and the group
/// accepted it; what the group accepted at an index is marked as applied first.
pub proof fn prepares_go_on_where_accepted(
    id: Seq<char>,
    ts: u64,
    has_raft: bool,
    failure: Option<Refusal>,
    answer: RaftAnswer,
    error: Refusal,
    index: u64,
)
    ensures
        ({
            let turn = |stage: PrepareStage, news: PrepareNews|
                prepare_turn(stage, news, id, ts, has_raft, failure);
            let written = turn(PrepareStage::PersistRedo, PrepareNews::Done(None));
            let unwritten = turn(PrepareStage::PersistRedo, PrepareNews::Done(Some(error)));
            let unsent = turn(PrepareStage::Replicate, PrepareNews::Done(Some(error)));
            let answered = turn(PrepareStage::Replicate, PrepareNews::Answered(answer));
            let marked = turn(PrepareStage::MarkApplied(index), PrepareNews::Done(None));
            let unmarked = turn(PrepareStage::MarkApplied(index), PrepareNews::Done(Some(error)));
            let deleted = turn(PrepareStage::DeleteRedo, PrepareNews::Done(Some(error)));
            &&& written.stage == PrepareStage::Replicate && written.keeps
            &&& unwritten.stage == PrepareStage::Failed && !unwritten.keeps && unwritten.failure
                == Some(error)
            &&& unsent.stage == PrepareStage::DeleteRedo && !unsent.keeps && unsent.failure == Some(
                error,
            )
            &&& raft::prepare_answer(answer, id, ts) is Err ==> answered.stage
                == PrepareStage::DeleteRedo && !answered.keeps && answered.failure == Some(
                raft::prepare_answer(answer, id, ts)->Err_0,
            )
            &&& raft::prepare_answer(answer, id, ts) matches Ok(None) ==> answered.stage
                == PrepareStage::Reply && answered.keeps && answered.failure == failure
            &&& raft::prepare_answer(answer, id, ts) matches Ok(Some(at)) ==> answered.keeps && (
            has_raft ==> answered.stage == PrepareStage::MarkApplied(at) && answered.failure
                == failure) && (!has_raft ==> answered.stage == PrepareStage::Failed
                && answered.failure is Some)
            &&& marked.stage == PrepareStage::Reply && marked.failure == failure
            &&& unmarked.stage == PrepareStage::Failed && unmarked.failure == Some(error)
            &&& deleted.stage == PrepareStage::Failed && deleted.failure == failure
        }),
{
}

} // verus!
