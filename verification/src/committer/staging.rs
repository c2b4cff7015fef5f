//! Checking transactions and staging them: the first half of a commit, and the
//! prepare phase of a two-phase commit.
use super::checked;
use super::checked::{CheckedPrepare, CheckedStage, CheckedTransaction};
use super::{CommitError, Committer, CommitterState, PendingWrite, PreparedTransaction, Refusal, SnapshotId, MAX_TIMESTAMP};
use crate::documents;
use crate::documents::{
    Document, DocumentLogEntry, DocumentUpdate, DocumentWrite, IndexEntry, ReadSet, StoredId,
    TableInfo, TableMapping,
};
use crate::metrics::MetricsRecorder;
use crate::names::{TabletId, WriteSource};
use crate::text;
use crate::text_map;
use std::sync::Arc;
use vstd::prelude::*;
use vstd::string::*;

verus! {

/// A transaction that is ready to commit.
#[derive(Debug)]
pub struct FinalTransaction {
    pub begin_ts: u64,
    pub reads: ReadSet,
    pub writes: Vec<DocumentWrite>,
    pub table_mapping: TableMapping,
}

impl FinalTransaction {
    /// Whether the transaction writes nothing.
    pub fn is_readonly(&self) -> (r: bool)
        ensures
            r == (self.writes@.len() == 0),
    {
        self.writes.len() == 0
    }
}

/// What applying one write to the indexes came to.
#[derive(Clone, Copy, Debug, PartialEq, Eq, Structural)]
pub struct WriteEffect {
    /// The size of the revision in the document log.
    pub entry_bytes: u64,
    /// How much was written to vector indexes.
    pub vector_bytes: u64,
    /// How much was written to text indexes.
    pub text_bytes: u64,
}

/// One change of a database index.
#[derive(Debug)]
pub struct IndexWrite {
    pub entry: IndexEntry,
    /// The size of the entry in the index log.
    pub entry_bytes: u64,
    pub key_bytes: u64,
    /// Whether the index is one of the reserved ones.
    pub is_system_index: bool,
    /// The table of the indexed document; unset for a removed key.
    pub document: Option<TabletId>,
}

/// What applying ordered writes to the base snapshot came to: one effect for
/// each write, the changes of database indexes, and the new snapshot.
#[derive(Debug)]
pub struct ComputedWrites {
    pub effects: Vec<WriteEffect>,
    pub index_writes: Vec<IndexWrite>,
    pub snapshot: SnapshotId,
}

/// One checked write.
#[derive(Debug)]
pub struct ValidatedDocumentWrite {
    pub commit_ts: u64,
    pub id: StoredId,
    pub write: Option<Arc<Document>>,
    pub vector_bytes: u64,
    pub text_bytes: u64,
    pub prev_ts: Option<u64>,
}

/// A transaction that has been checked and is pending.
#[derive(Debug)]
pub struct ValidatedCommit {
    pub commit_ts: u64,
    pub document_writes: Vec<ValidatedDocumentWrite>,
    pub index_writes: Vec<IndexWrite>,
    pub write_bytes: u64,
}

/// What a write leaves in the document log.
pub open spec fn logged(w: DocumentWrite, ts: u64) -> DocumentLogEntry {
    DocumentLogEntry { ts, id: w.id.stored(), value: w.new_document, prev_ts: w.prev_ts() }
}

/// What writes leave in the document log.
pub open spec fn log_of(writes: Seq<DocumentWrite>, ts: u64) -> Seq<DocumentLogEntry> {
    Seq::new(writes.len(), |i: int| logged(writes[i], ts))
}

/// The writes without the times of the replaced revisions.
pub open spec fn updates_of(writes: Seq<DocumentWrite>) -> Seq<DocumentUpdate> {
    Seq::new(writes.len(), |i: int| writes[i].as_update())
}

/// The checked form of a write.
pub open spec fn validated(w: DocumentWrite, effect: WriteEffect, ts: u64) -> ValidatedDocumentWrite {
    ValidatedDocumentWrite {
        commit_ts: ts,
        id: w.id.stored(),
        write: w.new_document,
        vector_bytes: effect.vector_bytes,
        text_bytes: effect.text_bytes,
        prev_ts: w.prev_ts(),
    }
}

/// How much the first `n` effects wrote to the document log.
pub open spec fn document_bytes(effects: Seq<WriteEffect>) -> nat
    decreases effects.len(),
{
    if effects.len() == 0 {
        0
    } else {
        document_bytes(effects.drop_last()) + effects.last().entry_bytes as nat
    }
}

/// How much index changes wrote to the index log.
pub open spec fn index_bytes(writes: Seq<IndexWrite>) -> nat
    decreases writes.len(),
{
    if writes.len() == 0 {
        0
    } else {
        index_bytes(writes.drop_last()) + writes.last().entry_bytes as nat
    }
}

impl ComputedWrites {
    /// How much is written in all.
    pub open spec fn bytes(self) -> nat {
        document_bytes(self.effects@) + index_bytes(self.index_writes@)
    }

    /// There is an effect for each of `n` writes, and the sizes add up.
    pub open spec fn fits(self, n: nat) -> bool {
        self.effects@.len() == n && self.bytes() <= u64::MAX
    }

    /// The index entries.
    pub open spec fn entries(self) -> Seq<IndexEntry> {
        Seq::new(self.index_writes@.len(), |i: int| self.index_writes@[i].entry)
    }
}

proof fn lemma_document_bytes(effects: Seq<WriteEffect>, i: int)
    requires
        0 <= i <= effects.len(),
    ensures
        document_bytes(effects.take(i)) <= document_bytes(effects),
    decreases effects.len() - i,
{
    if i < effects.len() {
        lemma_document_bytes(effects, i + 1);
        assert(effects.take(i + 1).drop_last() =~= effects.take(i));
    } else {
        assert(effects.take(i) =~= effects);
    }
}

proof fn lemma_index_bytes(writes: Seq<IndexWrite>, i: int)
    requires
        0 <= i <= writes.len(),
    ensures
        index_bytes(writes.take(i)) <= index_bytes(writes),
    decreases writes.len() - i,
{
    if i < writes.len() {
        lemma_index_bytes(writes, i + 1);
        assert(writes.take(i + 1).drop_last() =~= writes.take(i));
    } else {
        assert(writes.take(i) =~= writes);
    }
}

/// Adds up how much is written.
pub fn total_bytes(computed: &ComputedWrites) -> (r: u64)
    requires
        computed.bytes() <= u64::MAX,
    ensures
        r == computed.bytes(),
{
    let mut total: u64 = 0;
    let mut i: usize = 0;
    while i < computed.effects.len()
        invariant
            i <= computed.effects@.len(),
            computed.bytes() <= u64::MAX,
            total == document_bytes(computed.effects@.take(i as int)),
        decreases computed.effects@.len() - i,
    {
        proof {
            assert(computed.effects@.take(i + 1).drop_last() =~= computed.effects@.take(i as int));
            lemma_document_bytes(computed.effects@, i + 1);
        }
        total += computed.effects[i].entry_bytes;
        i += 1;
    }
    assert(computed.effects@.take(i as int) =~= computed.effects@);
    let mut j: usize = 0;
    while j < computed.index_writes.len()
        invariant
            j <= computed.index_writes@.len(),
            computed.bytes() <= u64::MAX,
            total == document_bytes(computed.effects@) + index_bytes(
                computed.index_writes@.take(j as int),
            ),
        decreases computed.index_writes@.len() - j,
    {
        proof {
            assert(computed.index_writes@.take(j + 1).drop_last()
                =~= computed.index_writes@.take(j as int));
            lemma_index_bytes(computed.index_writes@, j + 1);
        }
        total += computed.index_writes[j].entry_bytes;
        j += 1;
    }
    assert(computed.index_writes@.take(j as int) =~= computed.index_writes@);
    total
}

/// What writes leave in the document log.
pub fn log_entries(writes: &Vec<DocumentWrite>, ts: u64) -> (r: Vec<DocumentLogEntry>)
    ensures
        r@ == log_of(writes@, ts),
        r@.len() == writes@.len(),
        forall|i: int|
            0 <= i < writes@.len() ==> (#[trigger] r@[i]).value == writes@[i].new_document && r@[i].ts
                == ts,
{
    let mut r: Vec<DocumentLogEntry> = Vec::new();
    let mut i: usize = 0;
    while i < writes.len()
        invariant
            i <= writes@.len(),
            r@ == log_of(writes@, ts).take(i as int),
        decreases writes@.len() - i,
    {
        let w = &writes[i];
        r.push(
            DocumentLogEntry {
                ts,
                id: w.id.stored_id(),
                value: documents::share_document(&w.new_document),
                prev_ts: w.previous_ts(),
            },
        );
        assert(r@ =~= log_of(writes@, ts).take(i + 1));
        i += 1;
    }
    assert(r@ =~= log_of(writes@, ts));
    r
}

/// The writes without the times of the replaced revisions.
pub fn to_updates(writes: &Vec<DocumentWrite>) -> (r: Vec<DocumentUpdate>)
    ensures
        r@ == updates_of(writes@),
        r@.len() == writes@.len(),
        forall|i: int|
            0 <= i < writes@.len() ==> (#[trigger] r@[i]).id == writes@[i].id && r@[i].new_document
                == writes@[i].new_document,
{
    let mut r: Vec<DocumentUpdate> = Vec::new();
    let mut i: usize = 0;
    while i < writes.len()
        invariant
            i <= writes@.len(),
            r@ == updates_of(writes@).take(i as int),
        decreases writes@.len() - i,
    {
        r.push(writes[i].to_update());
        assert(r@ =~= updates_of(writes@).take(i + 1));
        i += 1;
    }
    assert(r@ =~= updates_of(writes@));
    r
}

/// The index entries of index changes.
pub fn index_entries(writes: &Vec<IndexWrite>) -> (r: Vec<IndexEntry>)
    ensures
        r@ == Seq::new(writes@.len(), |i: int| writes@[i].entry),
{
    let mut r: Vec<IndexEntry> = Vec::new();
    let mut i: usize = 0;
    while i < writes.len()
        invariant
            i <= writes@.len(),
            r@ == Seq::new(writes@.len(), |k: int| writes@[k].entry).take(i as int),
        decreases writes@.len() - i,
    {
        r.push(writes[i].entry.copy());
        assert(r@ =~= Seq::new(writes@.len(), |k: int| writes@[k].entry).take(i + 1));
        i += 1;
    }
    assert(r@ =~= Seq::new(writes@.len(), |k: int| writes@[k].entry));
    r
}

/// The checked form of ordered writes.
pub fn compute_writes(commit_ts: u64, ordered: &Vec<DocumentWrite>, effects: &Vec<WriteEffect>) -> (r: Vec<
    ValidatedDocumentWrite,
>)
    requires
        effects@.len() == ordered@.len(),
    ensures
        r@ == Seq::new(ordered@.len(), |i: int| validated(ordered@[i], effects@[i], commit_ts)),
        forall|i: int|
            0 <= i < ordered@.len() ==> {
                &&& (#[trigger] r@[i]).write == ordered@[i].new_document
                &&& r@[i].id.tablet == ordered@[i].id.tablet
                &&& r@[i].id.internal == ordered@[i].id.internal
                &&& r@[i].commit_ts == commit_ts
                &&& match ordered@[i].old_document {
                    Some(old) => r@[i].prev_ts == Some(old.1),
                    None => r@[i].prev_ts is None,
                }
            },
{
    let ghost all = Seq::new(
        ordered@.len(),
        |i: int| validated(ordered@[i], effects@[i], commit_ts),
    );
    let mut r: Vec<ValidatedDocumentWrite> = Vec::new();
    let mut i: usize = 0;
    while i < ordered.len()
        invariant
            i <= ordered@.len(),
            effects@.len() == ordered@.len(),
            all == Seq::new(
                ordered@.len(),
                |i: int| validated(ordered@[i], effects@[i], commit_ts),
            ),
            r@ == all.take(i as int),
        decreases ordered@.len() - i,
    {
        let w = &ordered[i];
        r.push(
            ValidatedDocumentWrite {
                commit_ts,
                id: w.id.stored_id(),
                write: documents::share_document(&w.new_document),
                vector_bytes: effects[i].vector_bytes,
                text_bytes: effects[i].text_bytes,
                prev_ts: w.previous_ts(),
            },
        );
        assert(r@ =~= all.take(i + 1));
        i += 1;
    }
    assert(r@ =~= all);
    r
}

/// What a look for conflicting writes came to: nothing, a conflict, or a
/// failure to look.
pub type ConflictCheck = Result<Option<CommitError>, CommitError>;

/// What a look for conflicting writes came to, as contracts speak of it.
pub open spec fn conflict_in(check: ConflictCheck) -> Option<Refusal> {
    match check {
        Ok(Some(e)) => Some(e@),
        Ok(None) => None,
        Err(e) => Some(e@),
    }
}

/// The first objection from the write log, the pending commits and the prepared
/// transactions, in this order.
pub open spec fn first_conflict(log: ConflictCheck, pending: ConflictCheck, prepared: ConflictCheck) -> Option<
    Refusal,
> {
    if conflict_in(log) is Some {
        conflict_in(log)
    } else if conflict_in(pending) is Some {
        conflict_in(pending)
    } else {
        conflict_in(prepared)
    }
}

/// Whether a transaction's reads are still current, given what the write log,
/// the pending commits and the prepared transactions each say.
pub fn commit_has_conflict(log: ConflictCheck, pending: ConflictCheck, prepared: ConflictCheck) -> (r: ConflictCheck)
    ensures
        conflict_in(r) == first_conflict(log, pending, prepared),
        r is Err ==> log is Err || pending is Err || prepared is Err,
        (r matches Ok(None)) <==> (log matches Ok(None)) && (pending matches Ok(None)) && (
        prepared matches Ok(None)),
        r == log || r == pending || r == prepared,
        !(log matches Ok(None)) ==> r == log,
        (log matches Ok(None)) && !(pending matches Ok(None)) ==> r == pending,
        (log matches Ok(None)) && (pending matches Ok(None)) ==> r == prepared,
{
    match log {
        Ok(None) => {},
        other => {
            return other;
        },
    }
    match pending {
        Ok(None) => {},
        other => {
            return other;
        },
    }
    prepared
}

/// Said to a commit that meets a transaction in doubt.
pub open spec fn blocked_by_prepared(n: nat, begin_ts: u64, source: Option<Seq<char>>) -> Refusal {
    super::conflicted(
        "Commit blocked by "@ + text::dec(n)
            + " unresolved 2PC prepared transaction(s); retry after the prepared transaction commits or rolls back"@,
        Some(begin_ts),
        source,
    )
}

/// Said to a prepare that meets a commit on its way to persistence.
pub open spec fn blocked_by_pending(id: Seq<char>, ts: u64, begin_ts: u64, source: Option<Seq<char>>) -> Refusal {
    super::conflicted(
        "2PC Prepare for txn="@ + id + " blocked by an unresolved pending write at ts="@
            + text::dec(ts as nat) + "; retry after the pending write publishes"@,
        Some(begin_ts),
        source,
    )
}

/// Said to a prepare that is repeated with another timestamp.
pub open spec fn different_timestamp(id: Seq<char>) -> Refusal {
    super::refused("2PC Prepare retried with a different commit timestamp for "@ + id)
}

/// Said to a prepare whose timestamp has passed.
pub open spec fn timestamp_passed(ts: u64, floor: u64) -> Refusal {
    super::refused(
        "2PC Prepare assigned ts="@ + text::dec(ts as nat)
            + " but this participant requires ts>="@ + text::dec(floor as nat),
    )
}

impl CommitterState {
    /// How many transactions are prepared.
    pub open spec fn num_prepared(self) -> nat {
        text_map::in_order(self.prepared.dom()).len()
    }

    /// The first objection to a commit, before it is given a timestamp.
    pub open spec fn commit_refusal(
        self,
        begin_ts: u64,
        tablets: Seq<TabletId>,
        writes: Seq<DocumentWrite>,
        tables: Seq<TableInfo>,
        source: Option<Seq<char>>,
    ) -> Option<Refusal> {
        if self.leadership_objection() is Some {
            self.leadership_objection()
        } else if !self.prepared.dom().is_empty() {
            Some(blocked_by_prepared(self.num_prepared(), begin_ts, source))
        } else if self.commit_ownership_objection(writes, tables, source) is Some {
            self.commit_ownership_objection(writes, tables, source)
        } else {
            self.frontier_objection(begin_ts, tablets, tables, source)
        }
    }

    /// The first timestamp a prepared transaction may be staged at.
    pub open spec fn prepare_floor(self) -> Option<u64> {
        super::next_ts(super::later(self.log_max_ts, self.latest_ts))
    }

    /// The first objection to a prepare, before anything is known of timestamps.
    pub open spec fn prepare_refusal(
        self,
        begin_ts: u64,
        tablets: Seq<TabletId>,
        writes: Seq<DocumentWrite>,
        tables: Seq<TableInfo>,
        source: Option<Seq<char>>,
        require_leader: bool,
    ) -> Option<Refusal> {
        if require_leader && self.leadership_objection() is Some {
            self.leadership_objection()
        } else if self.ownership_objection(writes, tables, source) is Some {
            self.ownership_objection(writes, tables, source)
        } else {
            self.frontier_objection(begin_ts, tablets, tables, source)
        }
    }

    /// What is to be done about a prepare that met no such objection.
    pub open spec fn prepare_plan(
        self,
        id: Seq<char>,
        begin_ts: u64,
        source: Option<Seq<char>>,
        explicit_ts: Option<u64>,
        allow_rewrite: bool,
    ) -> Result<PreparePlan, Refusal> {
        match self.prepare_floor() {
            None => Err(super::overflow_refusal()),
            Some(floor) => if self.prepared.contains_key(id) {
                match explicit_ts {
                    Some(ts) => if self.prepared[id].origin_ts == ts {
                        Ok(PreparePlan::AlreadyPrepared { prepare_ts: ts })
                    } else {
                        Err(different_timestamp(id))
                    },
                    None => Ok(
                        PreparePlan::AlreadyPrepared { prepare_ts: self.prepared[id].origin_ts },
                    ),
                }
            } else if self.pending.len() > 0 {
                Err(blocked_by_pending(id, super::least_pending(self.pending), begin_ts, source))
            } else {
                match explicit_ts {
                    None => Ok(PreparePlan::Draw),
                    Some(ts) => if ts >= floor {
                        Ok(PreparePlan::At { origin_ts: ts, commit_ts: ts })
                    } else if allow_rewrite {
                        Ok(PreparePlan::At { origin_ts: ts, commit_ts: floor })
                    } else {
                        Err(timestamp_passed(ts, floor))
                    },
                }
            },
        }
    }

    /// The timestamps of a prepare.
    pub open spec fn prepare_times(
        self,
        plan: PreparePlan,
        begin_ts: u64,
        allow_rewrite: bool,
        drawn: Result<u64, Refusal>,
    ) -> Result<PrepareTimes, Refusal> {
        let assigned = match plan {
            PreparePlan::At { origin_ts, commit_ts } => Ok((origin_ts, commit_ts)),
            _ => match self.commit_ts(drawn) {
                Ok(ts) => Ok((ts, ts)),
                Err(e) => Err(e),
            },
        };
        match assigned {
            Err(e) => Err(e),
            Ok((origin_ts, commit_ts)) => if !allow_rewrite {
                Ok(PrepareTimes { origin_ts, commit_ts, conflict_begin_ts: begin_ts })
            } else if commit_ts == 0 {
                Err(super::underflow_refusal())
            } else {
                Ok(PrepareTimes { origin_ts, commit_ts, conflict_begin_ts: (commit_ts - 1) as u64 })
            },
        }
    }

    /// The state once the timestamps of a prepare are known.
    pub open spec fn prepare_assigned(self, plan: PreparePlan, drawn: Result<u64, Refusal>) -> CommitterState {
        match plan {
            PreparePlan::At { commit_ts, .. } => self.assigned(
                super::later(commit_ts, self.last_assigned_ts),
            ),
            _ => match self.commit_ts(drawn) {
                Ok(ts) => self.assigned(ts),
                Err(_) => self,
            },
        }
    }
}

/// What is to be done about a prepare.
#[derive(Clone, Copy, Debug, PartialEq, Eq, Structural)]
pub enum PreparePlan {
    /// Nothing: the transaction is prepared already.
    AlreadyPrepared { prepare_ts: u64 },
    /// Stage it at a new timestamp.
    Draw,
    /// Stage it at a timestamp that is given.
    At { origin_ts: u64, commit_ts: u64 },
}

/// The timestamps of a transaction that is staged.
#[derive(Clone, Copy, Debug, PartialEq, Eq, Structural)]
pub struct PrepareTimes {
    /// What whoever asked is told.
    pub origin_ts: u64,
    /// Where the transaction is staged.
    pub commit_ts: u64,
    /// From where on reads are checked for conflicts.
    pub conflict_begin_ts: u64,
}

/// The result of a successful prepare.
#[derive(Clone, Copy, Debug, PartialEq, Eq, Structural)]
pub struct PrepareResult {
    pub prepare_ts: u64,
}

/// The prepared form of a transaction, whatever handles it holds.
pub open spec fn is_prepared_form(
    p: PreparedTransaction,
    times: PrepareTimes,
    ordered: Seq<DocumentWrite>,
    source: Option<Seq<char>>,
    computed: ComputedWrites,
) -> bool {
    &&& p.origin_ts == times.origin_ts
    &&& p.commit_ts == times.commit_ts
    &&& p.write_bytes == computed.bytes()
    &&& p.document_writes@ == log_of(ordered, times.commit_ts)
    &&& p.index_writes@ == computed.entries()
    &&& p.updates@ == updates_of(ordered)
    &&& p.source@ == source
    &&& p.snapshot == computed.snapshot
}

/// The pending form of a transaction, whatever handles it holds.
pub open spec fn is_pending_form(
    p: PendingWrite,
    ts: u64,
    ordered: Seq<DocumentWrite>,
    source: Option<Seq<char>>,
    snapshot: SnapshotId,
) -> bool {
    &&& p.ts == ts
    &&& p.updates@ == updates_of(ordered)
    &&& p.source@ == source
    &&& p.snapshot == snapshot
}

impl Committer {
    /// The first part of checking a commit: everything that can be told before it is
    /// given a timestamp.
    ///
    /// No commit is accepted while a transaction is prepared, so that nothing is
    /// published over a transaction in doubt.
    pub fn validate_commit(
        &self,
        metrics: &mut MetricsRecorder,
        transaction: &FinalTransaction,
        write_source: &WriteSource,
    ) -> (r: Result<CheckedTransaction, CommitError>)
        ensures
            match r {
                Ok(t) => {
                    &&& self@.commit_refusal(
                        transaction.begin_ts,
                        transaction.reads.tablets(),
                        transaction.writes@,
                        transaction.table_mapping.tables@,
                        write_source@,
                    ) is None
                    &&& t.is_of(
                        transaction.begin_ts,
                        transaction.writes@,
                        transaction.table_mapping.tables@,
                        write_source@,
                    )
                    &&& t.stage == CheckedStage::Assign
                    &&& t.wf()
                },
                Err(e) => self@.commit_refusal(
                    transaction.begin_ts,
                    transaction.reads.tablets(),
                    transaction.writes@,
                    transaction.table_mapping.tables@,
                    write_source@,
                ) == Some(e@),
            },
            final(metrics)@ == self@.after_leadership_check(old(metrics)@),
    {
        if let Err(e) = self.ensure_leader_for_writes(metrics) {
            return Err(e);
        }
        if !self.prepared.is_empty() {
            let n: usize = self.prepared.len();
            let mut s: String = String::new();
            s.append("Commit blocked by ");
            text::push_dec(&mut s, n as u64);
            s.append(
                " unresolved 2PC prepared transaction(s); retry after the prepared transaction commits or rolls back",
            );
            assert(s@ =~= blocked_by_prepared(n as nat, transaction.begin_ts, write_source@).text);
            return Err(CommitError::system_occ(s, Some(transaction.begin_ts), write_source));
        }
        if let Err(e) = self.ensure_commit_ownership(
            &transaction.writes,
            &transaction.table_mapping,
            write_source,
        ) {
            return Err(e);
        }
        if let Err(e) = self.validate_remote_read_frontiers(
            transaction.begin_ts,
            &transaction.reads,
            &transaction.table_mapping,
            write_source,
        ) {
            return Err(e);
        }
        Ok(
            CheckedTransaction::begin(
                transaction.begin_ts,
                &transaction.writes,
                &transaction.table_mapping,
                write_source,
            ),
        )
    }

    /// The second part: assigns the commit's timestamp, given what the oracle or the
    /// clock gave. Its reads are then checked from where the transaction began.
    pub fn assign_commit(
        &mut self,
        transaction: &mut CheckedTransaction,
        drawn: Result<u64, CommitError>,
    ) -> (r: Result<(), CommitError>)
        requires
            old(transaction).stage == CheckedStage::Assign,
        ensures
            final(transaction).is_same(*old(transaction)),
            final(transaction).wf(),
            match old(self)@.commit_ts(super::outcome(drawn)) {
                Ok(ts) => {
                    &&& r is Ok
                    &&& final(transaction).stage == CheckedStage::CheckReads(
                        PrepareTimes {
                            origin_ts: ts,
                            commit_ts: ts,
                            conflict_begin_ts: old(transaction).begin_ts,
                        },
                    )
                    &&& final(self)@ == old(self)@.assigned(ts)
                },
                Err(e) => {
                    &&& r matches Err(x)
                    &&& x@ == e
                    &&& final(transaction).stage == CheckedStage::Failed
                    &&& final(self)@ == old(self)@
                },
            },
    {
        match self.next_commit_ts(drawn) {
            Ok(ts) => {
                transaction.stage = CheckedStage::CheckReads(
                    PrepareTimes {
                        origin_ts: ts,
                        commit_ts: ts,
                        conflict_begin_ts: transaction.begin_ts,
                    },
                );
                Ok(())
            },
            Err(e) => {
                transaction.stage = CheckedStage::Failed;
                Err(e)
            },
        }
    }

    /// The last part: given what the ordered writes do to the snapshot, makes the
    /// commit pending, so that later commits are checked against it and build on it.
    pub fn stage_commit(
        &mut self,
        transaction: &CheckedTransaction,
        computed: Result<ComputedWrites, CommitError>,
    ) -> (r: Result<ValidatedCommit, CommitError>)
        requires
            transaction.wf(),
            transaction.stage is Apply,
            computed matches Ok(c) ==> c.fits(transaction.writes@.len()),
        ensures
            match computed {
                Err(e) => r matches Err(x) && x@ == e@ && final(self)@ == old(self)@,
                Ok(c) => {
                    let commit_ts = transaction.stage->Apply_0.commit_ts;
                    let ordered = checked::applied_order(
                        transaction.bootstrap_tables,
                        transaction.writes@,
                    );
                    &&& r matches Ok(v)
                    &&& v.commit_ts == commit_ts
                    &&& v.document_writes@ == Seq::new(
                        ordered.len(),
                        |i: int| validated(ordered[i], c.effects@[i], commit_ts),
                    )
                    &&& forall|i: int|
                        0 <= i < ordered.len() ==> (#[trigger] v.document_writes@[i]).write
                            == ordered[i].new_document && final(self)@.pending.last().updates@[i].new_document
                            == v.document_writes@[i].write
                    &&& v.index_writes == c.index_writes
                    &&& v.write_bytes == c.bytes()
                    &&& final(self)@.pending.len() == old(self)@.pending.len() + 1
                    &&& is_pending_form(
                        final(self)@.pending.last(),
                        commit_ts,
                        ordered,
                        transaction.source@,
                        c.snapshot,
                    )
                    &&& final(self)@ == (CommitterState {
                        pending: old(self)@.pending.push(final(self)@.pending.last()),
                        ..old(self)@
                    })
                },
            },
    {
        proof {
            checked::lemma_applied_len(transaction.bootstrap_tables, transaction.writes@);
        }
        let computed = match computed {
            Ok(c) => c,
            Err(e) => {
                return Err(e);
            },
        };
        let commit_ts: u64 = match transaction.stage {
            CheckedStage::Apply(times) => times.commit_ts,
            _ => 0,
        };
        let write_bytes: u64 = total_bytes(&computed);
        let document_writes = compute_writes(commit_ts, &transaction.ordered, &computed.effects);
        let pending = PendingWrite {
            ts: commit_ts,
            updates: Arc::new(to_updates(&transaction.ordered)),
            source: Arc::new(transaction.source.copy()),
            snapshot: computed.snapshot,
        };
        self.pending.push(pending);
        assert(self@ =~= (CommitterState {
            pending: old(self)@.pending.push(self@.pending.last()),
            ..old(self)@
        }));
        Ok(
            ValidatedCommit {
                commit_ts,
                document_writes,
                index_writes: computed.index_writes,
                write_bytes,
            },
        )
    }

    /// The first part of staging a prepared transaction: checks it and decides
    /// where it goes.
    ///
    /// A transaction that is prepared already is not prepared again, and its
    /// timestamp stands. A given timestamp that has passed is refused, or, where
    /// a prepare is replayed that its leader has accepted, moved up.
    pub fn plan_prepare(
        &self,
        metrics: &mut MetricsRecorder,
        transaction_id: &str,
        begin_ts: u64,
        reads: &ReadSet,
        writes: &Vec<DocumentWrite>,
        table_mapping: &TableMapping,
        write_source: &WriteSource,
        explicit_commit_ts: Option<u64>,
        require_leader: bool,
        allow_explicit_ts_rewrite: bool,
    ) -> (r: Result<CheckedPrepare, CommitError>)
        ensures
            ({
                let plan = match self@.prepare_refusal(
                    begin_ts,
                    reads.tablets(),
                    writes@,
                    table_mapping.tables@,
                    write_source@,
                    require_leader,
                ) {
                    Some(e) => Err::<PreparePlan, Refusal>(e),
                    None => self@.prepare_plan(
                        transaction_id@,
                        begin_ts,
                        write_source@,
                        explicit_commit_ts,
                        allow_explicit_ts_rewrite,
                    ),
                };
                match r {
                    Ok(p) => {
                        &&& plan == Ok::<PreparePlan, Refusal>(p.plan)
                        &&& p.transaction_id@ == transaction_id@
                        &&& p.replayed == allow_explicit_ts_rewrite
                        &&& p.transaction.is_of(
                            begin_ts,
                            writes@,
                            table_mapping.tables@,
                            write_source@,
                        )
                        &&& p.transaction.stage == CheckedStage::Assign
                        &&& p.transaction.wf()
                    },
                    Err(e) => plan == Err::<PreparePlan, Refusal>(e@),
                }
            }),
            final(metrics)@ == if require_leader {
                self@.after_leadership_check(old(metrics)@)
            } else {
                old(metrics)@
            },
    {
        if require_leader {
            if let Err(e) = self.ensure_leader_for_writes(metrics) {
                return Err(e);
            }
        }
        if let Err(e) = self.ensure_prepare_ownership(writes, table_mapping, write_source) {
            return Err(e);
        }
        if let Err(e) = self.validate_remote_read_frontiers(
            begin_ts,
            reads,
            table_mapping,
            write_source,
        ) {
            return Err(e);
        }
        let plan: PreparePlan = match self.place_prepare(
            transaction_id,
            begin_ts,
            write_source,
            explicit_commit_ts,
            allow_explicit_ts_rewrite,
        ) {
            Ok(plan) => plan,
            Err(e) => {
                return Err(e);
            },
        };
        Ok(
            CheckedPrepare {
                transaction_id: transaction_id.to_owned(),
                plan,
                replayed: allow_explicit_ts_rewrite,
                transaction: CheckedTransaction::begin(
                    begin_ts,
                    writes,
                    table_mapping,
                    write_source,
                ),
            },
        )
    }

    /// Decides where a prepare that met no objection goes.
    fn place_prepare(
        &self,
        transaction_id: &str,
        begin_ts: u64,
        write_source: &WriteSource,
        explicit_commit_ts: Option<u64>,
        allow_explicit_ts_rewrite: bool,
    ) -> (r: Result<PreparePlan, CommitError>)
        ensures
            super::outcome(r) == self@.prepare_plan(
                transaction_id@,
                begin_ts,
                write_source@,
                explicit_commit_ts,
                allow_explicit_ts_rewrite,
            ),
    {
        let newest: u64 = super::later_of(self.log_max_ts, self.latest_ts);
        if newest >= MAX_TIMESTAMP {
            return Err(super::overflow_error());
        }
        let local_commit_floor: u64 = newest + 1;
        if let Some(existing) = self.prepared.get(transaction_id) {
            if let Some(ts) = explicit_commit_ts {
                if existing.origin_ts != ts {
                    let mut s: String = String::new();
                    s.append("2PC Prepare retried with a different commit timestamp for ");
                    s.append(transaction_id);
                    assert(s@ =~= different_timestamp(transaction_id@).text);
                    return Err(CommitError::new(s));
                }
            }
            return Ok(PreparePlan::AlreadyPrepared { prepare_ts: existing.origin_ts });
        }
        if let Some(min_pending_ts) = self.min_pending_ts() {
            let mut s: String = String::new();
            s.append("2PC Prepare for txn=");
            s.append(transaction_id);
            s.append(" blocked by an unresolved pending write at ts=");
            text::push_dec(&mut s, min_pending_ts);
            s.append("; retry after the pending write publishes");
            assert(s@ =~= blocked_by_pending(
                transaction_id@,
                min_pending_ts,
                begin_ts,
                write_source@,
            ).text);
            return Err(CommitError::system_occ(s, Some(begin_ts), write_source));
        }
        match explicit_commit_ts {
            None => Ok(PreparePlan::Draw),
            Some(ts) => {
                if ts >= local_commit_floor {
                    Ok(PreparePlan::At { origin_ts: ts, commit_ts: ts })
                } else if allow_explicit_ts_rewrite {
                    Ok(PreparePlan::At { origin_ts: ts, commit_ts: local_commit_floor })
                } else {
                    let mut s: String = String::new();
                    s.append("2PC Prepare assigned ts=");
                    text::push_dec(&mut s, ts);
                    s.append(" but this participant requires ts>=");
                    text::push_dec(&mut s, local_commit_floor);
                    assert(s@ =~= timestamp_passed(ts, local_commit_floor).text);
                    Err(CommitError::new(s))
                }
            },
        }
    }

    /// The second part: settles the timestamps, given what the oracle or the
    /// clock gave where a new one is needed.
    ///
    /// A prepare that is replayed was accepted by its leader and written durably.
    /// Its reads are not checked again from where the transaction began: a
    /// follower may have dropped that part of the log.
    pub fn assign_prepare(&mut self, prepare: &mut CheckedPrepare, drawn: Result<u64, CommitError>) -> (r: Result<
        (),
        CommitError,
    >)
        requires
            !(old(prepare).plan is AlreadyPrepared),
            old(prepare).transaction.stage == CheckedStage::Assign,
        ensures
            final(prepare).is_same(*old(prepare)),
            final(prepare).transaction.wf(),
            match old(self)@.prepare_times(
                old(prepare).plan,
                old(prepare).transaction.begin_ts,
                old(prepare).replayed,
                super::outcome(drawn),
            ) {
                Ok(times) => r is Ok && final(prepare).transaction.stage
                    == CheckedStage::CheckReads(times),
                Err(e) => r matches Err(x) && x@ == e && final(prepare).transaction.stage
                    == CheckedStage::Failed,
            },
            final(self)@ == old(self)@.prepare_assigned(old(prepare).plan, super::outcome(drawn)),
    {
        prepare.transaction.stage = CheckedStage::Failed;
        let (origin_ts, commit_ts): (u64, u64) = match prepare.plan {
            PreparePlan::At { origin_ts, commit_ts } => {
                if commit_ts > self.last_assigned_ts {
                    self.last_assigned_ts = commit_ts;
                }
                (origin_ts, commit_ts)
            },
            _ => match self.next_commit_ts(drawn) {
                Ok(ts) => (ts, ts),
                Err(e) => {
                    return Err(e);
                },
            },
        };
        let conflict_begin_ts: u64 = if !prepare.replayed {
            prepare.transaction.begin_ts
        } else if commit_ts == 0 {
            return Err(super::underflow_error());
        } else {
            commit_ts - 1
        };
        prepare.transaction.stage = CheckedStage::CheckReads(
            PrepareTimes { origin_ts, commit_ts, conflict_begin_ts },
        );
        Ok(())
    }

    /// The last part: given what the ordered writes do to the snapshot, holds the
    /// transaction as prepared until it is committed or rolled back. Nothing is
    /// published.
    pub fn stage_prepared_transaction(
        &mut self,
        prepare: &CheckedPrepare,
        computed: Result<ComputedWrites, CommitError>,
    ) -> (r: Result<PrepareResult, CommitError>)
        requires
            prepare.transaction.wf(),
            prepare.transaction.stage is Apply,
            computed matches Ok(c) ==> c.fits(prepare.transaction.writes@.len()),
        ensures
            match computed {
                Err(e) => r matches Err(x) && x@ == e@ && final(self)@ == old(self)@,
                Ok(c) => {
                    let times = prepare.transaction.stage->Apply_0;
                    let id = prepare.transaction_id@;
                    &&& r matches Ok(v)
                    &&& v.prepare_ts == times.origin_ts
                    &&& final(self)@.prepared.contains_key(id)
                    &&& is_prepared_form(
                        final(self)@.prepared[id],
                        times,
                        checked::applied_order(
                            prepare.transaction.bootstrap_tables,
                            prepare.transaction.writes@,
                        ),
                        prepare.transaction.source@,
                        c,
                    )
                    &&& final(self)@ == (CommitterState {
                        prepared: old(self)@.prepared.insert(id, final(self)@.prepared[id]),
                        ..old(self)@
                    })
                },
            },
    {
        proof {
            checked::lemma_applied_len(
                prepare.transaction.bootstrap_tables,
                prepare.transaction.writes@,
            );
        }
        let times: PrepareTimes = match prepare.transaction.stage {
            CheckedStage::Apply(times) => times,
            _ => PrepareTimes { origin_ts: 0, commit_ts: 0, conflict_begin_ts: 0 },
        };
        let computed = match computed {
            Ok(c) => c,
            Err(e) => {
                return Err(e);
            },
        };
        let write_bytes: u64 = total_bytes(&computed);
        let entries = index_entries(&computed.index_writes);
        assert(entries@ =~= computed.entries());
        let prepared = PreparedTransaction {
            origin_ts: times.origin_ts,
            commit_ts: times.commit_ts,
            write_bytes,
            document_writes: Arc::new(log_entries(&prepare.transaction.ordered, times.commit_ts)),
            index_writes: Arc::new(entries),
            updates: Arc::new(to_updates(&prepare.transaction.ordered)),
            source: Arc::new(prepare.transaction.source.copy()),
            snapshot: computed.snapshot,
        };
        self.prepared.insert(prepare.transaction_id.as_str().to_owned(), prepared);
        assert(self@ =~= (CommitterState {
            prepared: old(self)@.prepared.insert(
                prepare.transaction_id@,
                self@.prepared[prepare.transaction_id@],
            ),
            ..old(self)@
        }));
        Ok(PrepareResult { prepare_ts: times.origin_ts })
    }
}

/// A commit that is accepted meets no transaction in doubt.
pub proof fn accepted_commits_meet_no_prepared_transaction(
    state: CommitterState,
    begin_ts: u64,
    tablets: Seq<TabletId>,
    writes: Seq<DocumentWrite>,
    tables: Seq<TableInfo>,
    source: Option<Seq<char>>,
)
    requires
        state.commit_refusal(begin_ts, tablets, writes, tables, source) is None,
    ensures
        state.leads(),
        state.prepared.dom().is_empty(),
{
}

/// A transaction is staged after everything that is published, whatever the
/// coordinator asked for.
pub proof fn prepared_transactions_are_staged_in_the_future(
    state: CommitterState,
    id: Seq<char>,
    begin_ts: u64,
    source: Option<Seq<char>>,
    explicit_ts: Option<u64>,
    allow_rewrite: bool,
    drawn: Result<u64, Refusal>,
)
    ensures
        state.prepare_plan(id, begin_ts, source, explicit_ts, allow_rewrite) matches Ok(plan) ==> (
        plan is AlreadyPrepared || (state.prepare_times(
            plan,
            begin_ts,
            allow_rewrite,
            drawn,
        ) matches Ok(times) ==> times.commit_ts > state.log_max_ts && times.commit_ts
            > state.latest_ts && times.commit_ts >= times.origin_ts)),
{
}

/// Preparing a transaction twice with the same timestamp gives the same answer
/// both times.
pub proof fn preparing_is_idempotent(
    state: CommitterState,
    id: Seq<char>,
    begin_ts: u64,
    source: Option<Seq<char>>,
    allow_rewrite: bool,
)
    requires
        state.prepared.contains_key(id),
        state.prepare_floor() is Some,
    ensures
        state.prepare_plan(
            id,
            begin_ts,
            source,
            Some(state.prepared[id].origin_ts),
            allow_rewrite,
        ) == Ok::<PreparePlan, Refusal>(
            PreparePlan::AlreadyPrepared { prepare_ts: state.prepared[id].origin_ts },
        ),
        state.prepare_plan(id, begin_ts, source, None, allow_rewrite) == Ok::<
            PreparePlan,
            Refusal,
        >(PreparePlan::AlreadyPrepared { prepare_ts: state.prepared[id].origin_ts }),
{
}

/// A check for conflicts passes exactly where none of the three sources objects or
/// fails; an objection of any of them is an objection, that of the first that has
/// one is the one reported, and so is one that is alone.
pub proof fn every_source_of_conflicts_counts(log: ConflictCheck, pending: ConflictCheck, prepared: ConflictCheck)
    ensures
        first_conflict(log, pending, prepared) is None <==> {
            &&& log matches Ok(None)
            &&& pending matches Ok(None)
            &&& prepared matches Ok(None)
        },
        log matches Ok(Some(e)) ==> first_conflict(log, pending, prepared) == Some(e@),
        log matches Err(e) ==> first_conflict(log, pending, prepared) == Some(e@),
        (log matches Ok(None)) && (pending matches Ok(Some(e)) && first_conflict(
            log,
            pending,
            prepared,
        ) != Some(e@)) ==> false,
        (log matches Ok(None)) && (pending matches Err(e) && first_conflict(log, pending, prepared)
            != Some(e@)) ==> false,
        (log matches Ok(None)) && (pending matches Ok(None)) && (prepared matches Ok(Some(e))
            && first_conflict(log, pending, prepared) != Some(e@)) ==> false,
        (log matches Ok(None)) && (pending matches Ok(None)) && (prepared matches Err(e)
            && first_conflict(log, pending, prepared) != Some(e@)) ==> false,
{
}

/// A check passes exactly where nothing was found and looking did not fail.
pub proof fn conflicts_are_what_was_found(check: ConflictCheck)
    ensures
        conflict_in(check) is None <==> (check matches Ok(None)),
        check matches Ok(Some(e)) ==> conflict_in(check) == Some(e@),
        check matches Err(e) ==> conflict_in(check) == Some(e@),
{
}

/// What a write leaves in the document log and in the checked form of a commit is
/// the document that it writes, or that there is none where it deletes, under the
/// document's own id, with the time of the revision it replaces.
pub proof fn writes_are_staged_as_they_are(w: DocumentWrite, effect: WriteEffect, ts: u64)
    ensures
        ({
            let v = validated(w, effect, ts);
            let l = logged(w, ts);
            &&& v.write == w.new_document
            &&& v.write is None <==> w.new_document is None
            &&& v.id.tablet == w.id.tablet
            &&& v.id.internal == w.id.internal
            &&& v.commit_ts == ts
            &&& v.vector_bytes == effect.vector_bytes
            &&& v.text_bytes == effect.text_bytes
            &&& l.value == w.new_document
            &&& l.id.tablet == w.id.tablet
            &&& l.id.internal == w.id.internal
            &&& l.ts == ts
            &&& match w.old_document {
                Some(old) => v.prev_ts == Some(old.1) && l.prev_ts == Some(old.1),
                None => v.prev_ts is None && l.prev_ts is None,
            }
        }),
{
}

/// The log and the updates of writes have one entry for each write, in order, with
/// the write's own documents.
pub proof fn every_write_is_staged(writes: Seq<DocumentWrite>, ts: u64, i: int)
    requires
        0 <= i < writes.len(),
    ensures
        log_of(writes, ts).len() == writes.len(),
        updates_of(writes).len() == writes.len(),
        log_of(writes, ts)[i].value == writes[i].new_document,
        log_of(writes, ts)[i].id.tablet == writes[i].id.tablet,
        log_of(writes, ts)[i].id.internal == writes[i].id.internal,
        log_of(writes, ts)[i].ts == ts,
        updates_of(writes)[i].id == writes[i].id,
        updates_of(writes)[i].new_document == writes[i].new_document,
        updates_of(writes)[i].old_document is Some <==> writes[i].old_document is Some,
        writes[i].old_document matches Some(old) ==> updates_of(writes)[i].old_document == Some(old.0),
{
}

/// A pending commit holds what was written, where and when, on its new snapshot.
pub proof fn pending_commits_hold_what_was_written(
    p: PendingWrite,
    ts: u64,
    ordered: Seq<DocumentWrite>,
    source: Option<Seq<char>>,
    snapshot: SnapshotId,
)
    requires
        is_pending_form(p, ts, ordered, source, snapshot),
    ensures
        p.ts == ts,
        p.source@ == source,
        p.snapshot == snapshot,
        p.updates@.len() == ordered.len(),
        forall|i: int|
            0 <= i < ordered.len() ==> (#[trigger] p.updates@[i]).id == ordered[i].id
                && p.updates@[i].new_document == ordered[i].new_document,
{
}

/// A prepared transaction holds what was written, where and when it was staged, what
/// its coordinator was told, and what goes to persistence once it is committed.
pub proof fn prepared_transactions_hold_what_was_written(
    p: PreparedTransaction,
    times: PrepareTimes,
    ordered: Seq<DocumentWrite>,
    source: Option<Seq<char>>,
    computed: ComputedWrites,
)
    requires
        is_prepared_form(p, times, ordered, source, computed),
    ensures
        p.origin_ts == times.origin_ts,
        p.commit_ts == times.commit_ts,
        p.source@ == source,
        p.snapshot == computed.snapshot,
        p.updates@.len() == ordered.len(),
        p.document_writes@.len() == ordered.len(),
        forall|i: int|
            0 <= i < ordered.len() ==> {
                &&& (#[trigger] p.updates@[i]).id == ordered[i].id
                &&& p.updates@[i].new_document == ordered[i].new_document
                &&& p.document_writes@[i].value == ordered[i].new_document
                &&& p.document_writes@[i].id.tablet == ordered[i].id.tablet
                &&& p.document_writes@[i].id.internal == ordered[i].id.internal
                &&& p.document_writes@[i].ts == times.commit_ts
            },
        p.index_writes@.len() == computed.index_writes@.len(),
        forall|i: int|
            0 <= i < computed.index_writes@.len() ==> (#[trigger] p.index_writes@[i])
                == computed.index_writes@[i].entry,
{
}

/// How much a commit writes is the sum over its documents and index entries: nothing
/// without any, and each one adds its own size.
pub proof fn sizes_add_up(
    effects: Seq<WriteEffect>,
    effect: WriteEffect,
    writes: Seq<IndexWrite>,
    write: IndexWrite,
)
    ensures
        document_bytes(Seq::empty()) == 0,
        document_bytes(effects.push(effect)) == document_bytes(effects) + effect.entry_bytes,
        index_bytes(Seq::empty()) == 0,
        index_bytes(writes.push(write)) == index_bytes(writes) + write.entry_bytes,
{
    assert(effects.push(effect).drop_last() =~= effects);
    assert(writes.push(write).drop_last() =~= writes);
}

/// What is computed for a commit is that of all its documents and all its index
/// entries.
pub proof fn computed_sizes_count_both(computed: ComputedWrites, n: nat)
    ensures
        computed.bytes() == document_bytes(computed.effects@) + index_bytes(computed.index_writes@),
        computed.fits(n) ==> computed.effects@.len() == n,
        computed.entries().len() == computed.index_writes@.len(),
        forall|i: int|
            0 <= i < computed.index_writes@.len() ==> (#[trigger] computed.entries()[i])
                == computed.index_writes@[i].entry,
{
}

/// A commit is refused exactly where this node does not lead, a transaction is
/// prepared, another partition owns a table it writes, or writes of another
/// partition that it read may be missing. A transaction in doubt may be retried.
pub proof fn commits_are_refused_for_four_reasons(
    state: CommitterState,
    begin_ts: u64,
    tablets: Seq<TabletId>,
    writes: Seq<DocumentWrite>,
    tables: Seq<TableInfo>,
    source: Option<Seq<char>>,
)
    ensures
        state.commit_refusal(begin_ts, tablets, writes, tables, source) is None <==> {
            &&& state.raft matches Some(raft) ==> raft.is_leader
            &&& state.prepared.dom().is_empty()
            &&& state.commit_ownership_objection(writes, tables, source) is None
            &&& state.frontier_objection(begin_ts, tablets, tables, source) is None
        },
        (state.raft matches Some(raft) ==> raft.is_leader) && !state.prepared.dom().is_empty() ==> (
        state.commit_refusal(begin_ts, tablets, writes, tables, source) matches Some(e) && e.occ
            == Some((Some(begin_ts), source))),
{
}

/// A prepare is refused at once exactly where a leader is asked for and this node is
/// none, it writes a table that is not this node's, or writes of another partition
/// that it read may be missing.
pub proof fn prepares_are_refused_for_three_reasons(
    state: CommitterState,
    begin_ts: u64,
    tablets: Seq<TabletId>,
    writes: Seq<DocumentWrite>,
    tables: Seq<TableInfo>,
    source: Option<Seq<char>>,
    require_leader: bool,
)
    ensures
        state.prepare_refusal(begin_ts, tablets, writes, tables, source, require_leader) is None <==> {
            &&& require_leader ==> (state.raft matches Some(raft) ==> raft.is_leader)
            &&& state.ownership_objection(writes, tables, source) is None
            &&& state.frontier_objection(begin_ts, tablets, tables, source) is None
        },
{
}

/// A prepare is placed exactly where it should be: not at all while a commit is on
/// its way, at a new timestamp where none was given, at the given one where that is
/// not past, and otherwise, only where that is allowed, just after everything that is
/// published; what the coordinator is told stays what it asked for.
pub proof fn prepares_are_placed_as_asked(
    state: CommitterState,
    id: Seq<char>,
    begin_ts: u64,
    source: Option<Seq<char>>,
    explicit_ts: Option<u64>,
    allow_rewrite: bool,
)
    requires
        state.log_max_ts < 0x7fff_ffff_ffff_ffff,
        state.latest_ts < 0x7fff_ffff_ffff_ffff,
        !state.prepared.contains_key(id),
    ensures
        ({
            let plan = state.prepare_plan(id, begin_ts, source, explicit_ts, allow_rewrite);
            &&& state.pending.len() > 0 ==> (plan matches Err(e) && e.occ == Some(
                (Some(begin_ts), source),
            ))
            &&& state.pending.len() == 0 ==> match explicit_ts {
                None => plan == Ok::<PreparePlan, Refusal>(PreparePlan::Draw),
                Some(ts) => if ts > state.log_max_ts && ts > state.latest_ts {
                    plan == Ok::<PreparePlan, Refusal>(
                        PreparePlan::At { origin_ts: ts, commit_ts: ts },
                    )
                } else if allow_rewrite {
                    &&& plan matches Ok(PreparePlan::At { origin_ts, commit_ts })
                    &&& origin_ts == ts
                    &&& commit_ts > state.log_max_ts
                    &&& commit_ts > state.latest_ts
                    &&& commit_ts == state.log_max_ts + 1 || commit_ts == state.latest_ts + 1
                } else {
                    plan is Err
                },
            }
        }),
{
}

/// A transaction that is prepared already stays prepared as it was: it is told its
/// own timestamp, and asking for another one is refused.
pub proof fn prepared_timestamps_stand(
    state: CommitterState,
    id: Seq<char>,
    begin_ts: u64,
    source: Option<Seq<char>>,
    explicit_ts: Option<u64>,
    allow_rewrite: bool,
)
    requires
        state.prepared.contains_key(id),
    ensures
        state.prepare_plan(id, begin_ts, source, explicit_ts, allow_rewrite) matches Ok(plan) ==> {
            &&& plan == (PreparePlan::AlreadyPrepared { prepare_ts: state.prepared[id].origin_ts })
            &&& explicit_ts matches Some(ts) ==> ts == state.prepared[id].origin_ts
        },
{
}

/// The timestamps of a prepare: as planned, or as drawn for a commit. Reads are
/// checked from where the transaction began, or, where the prepare is replayed, from
/// just before where it is staged. No later commit comes before it.
pub proof fn prepares_are_timed_as_planned(
    state: CommitterState,
    plan: PreparePlan,
    begin_ts: u64,
    allow_rewrite: bool,
    drawn: Result<u64, Refusal>,
)
    requires
        !(plan is AlreadyPrepared),
    ensures
        state.prepare_times(plan, begin_ts, allow_rewrite, drawn) matches Ok(times) ==> {
            &&& match plan {
                PreparePlan::At { origin_ts, commit_ts } => times.origin_ts == origin_ts
                    && times.commit_ts == commit_ts,
                _ => {
                    &&& times.origin_ts == times.commit_ts
                    &&& state.commit_ts(drawn) == Ok::<u64, Refusal>(times.commit_ts)
                },
            }
            &&& !allow_rewrite ==> times.conflict_begin_ts == begin_ts
            &&& allow_rewrite ==> times.conflict_begin_ts + 1 == times.commit_ts
            &&& state.prepare_assigned(plan, drawn).last_assigned_ts >= times.commit_ts
        },
        state.prepare_assigned(plan, drawn).last_assigned_ts >= state.last_assigned_ts,
        state.prepare_assigned(plan, drawn) == (CommitterState {
            last_assigned_ts: state.prepare_assigned(plan, drawn).last_assigned_ts,
            ..state
        }),
{
}

/// A write that is blocked can be tried again and is told by what; a prepare whose
/// timestamp has passed is told both timestamps.
pub proof fn blocked_writes_are_told_by_what(
    n: nat,
    begin_ts: u64,
    source: Option<Seq<char>>,
    id: Seq<char>,
    ts: u64,
    floor: u64,
)
    ensures
        blocked_by_prepared(n, begin_ts, source).text == "Commit blocked by "@ + text::dec(n)
            + " unresolved 2PC prepared transaction(s); retry after the prepared transaction commits or rolls back"@,
        blocked_by_prepared(n, begin_ts, source).occ is Some,
        blocked_by_pending(id, ts, begin_ts, source).text == "2PC Prepare for txn="@ + id
            + " blocked by an unresolved pending write at ts="@ + text::dec(ts as nat)
            + "; retry after the pending write publishes"@,
        blocked_by_pending(id, ts, begin_ts, source).occ is Some,
        timestamp_passed(ts, floor).text == "2PC Prepare assigned ts="@ + text::dec(ts as nat)
            + " but this participant requires ts>="@ + text::dec(floor as nat),
        timestamp_passed(ts, floor).occ is None,
{
}

} // verus!
