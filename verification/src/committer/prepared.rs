//! Prepared transactions: finding them, taking them back, and rebuilding them
//! from the durable redo records.
use super::staging::PrepareResult;
use super::{CommitError, Committer, CommitterState, PreparedTransaction, Refusal};
use crate::documents;
use crate::documents::{
    Document, DocumentId, DocumentWrite, Namespace, ReadSet, StoredId, TableInfo, TableMapping,
    INDEX_TABLE, TABLES_TABLE,
};
use crate::names::WriteSource;
use crate::partition::PartitionId;
use crate::text;
use crate::text_map;
use crate::text_map::TextMap;
use std::sync::Arc;
use vstd::prelude::*;
use vstd::string::*;

verus! {

/// The part of a transaction that one partition takes part in.
#[derive(Debug)]
pub struct ParticipantTransaction {
    pub begin_ts: u64,
    pub reads: ReadSet,
    pub writes: Vec<DocumentWrite>,
    /// The tables of the transaction that the participant may not know.
    pub tables: Vec<TableInfo>,
}

/// What a participant remembers of a prepared transaction until the transaction
/// is committed or rolled back.
#[derive(Debug)]
pub struct TwoPhaseRedoEntry {
    pub transaction_id: String,
    pub prepare_ts: u64,
    pub partition: PartitionId,
    pub participants: Vec<PartitionId>,
    pub transaction: ParticipantTransaction,
    pub write_source: WriteSource,
}

/// The transactions of `ids` that are prepared for `origin_ts`.
pub open spec fn prepared_at(
    ids: Seq<Seq<char>>,
    prepared: Map<Seq<char>, PreparedTransaction>,
    origin_ts: u64,
) -> Seq<Seq<char>>
    decreases ids.len(),
{
    if ids.len() == 0 {
        Seq::empty()
    } else {
        let rest = prepared_at(ids.drop_last(), prepared, origin_ts);
        if prepared[ids.last()].origin_ts == origin_ts {
            rest.push(ids.last())
        } else {
            rest
        }
    }
}

/// Said when two prepared transactions share a timestamp.
pub open spec fn ambiguous_origin(n: nat, ts: u64) -> Refusal {
    super::refused(
        "Found "@ + text::dec(n) + " prepared transactions at origin ts="@ + text::dec(ts as nat)
            + "; expected at most one"@,
    )
}

/// Said when two prepared transactions share a timestamp, on clean-up.
pub open spec fn ambiguous_cleanup(n: nat, ts: u64) -> Refusal {
    super::refused(
        "Found "@ + text::dec(n) + " prepared transactions at ts="@ + text::dec(ts as nat)
            + "; expected at most one"@,
    )
}

/// Said of a transaction that is to be rolled back and is not known.
pub open spec fn unknown_rollback(id: Seq<char>) -> Refusal {
    super::refused("2PC RollbackPrepared: unknown transaction "@ + id)
}

/// Said of a transaction that is to be committed and is not known.
pub open spec fn unknown_commit(id: Seq<char>) -> Refusal {
    super::refused("2PC CommitPrepared: unknown transaction "@ + id)
}

/// Said of a redo record of another partition.
pub open spec fn foreign_redo(id: Seq<char>, partition: PartitionId, local: PartitionId) -> Refusal {
    super::refused(
        "2PC redo txn="@ + id + " belongs to partition "@ + text::dec(partition.0 as nat)
            + ", local partition is "@ + text::dec(local.0 as nat),
    )
}

/// Said when a table of the system is not there.
pub open spec fn missing_system_table(name: Seq<char>) -> Refusal {
    super::refused("cannot find table "@ + name)
}

impl CommitterState {
    /// The transactions that are prepared for `origin_ts`, in order.
    pub open spec fn prepared_for(self, origin_ts: u64) -> Seq<Seq<char>> {
        prepared_at(text_map::in_order(self.prepared.dom()), self.prepared, origin_ts)
    }

    /// Where the transaction that is prepared for `origin_ts` is staged.
    pub open spec fn staged_ts(self, origin_ts: u64) -> Result<Option<u64>, Refusal> {
        let found = self.prepared_for(origin_ts);
        if found.len() > 1 {
            Err(ambiguous_origin(found.len(), origin_ts))
        } else if found.len() == 1 {
            Ok(Some(self.prepared[found[0]].commit_ts))
        } else {
            Ok(None)
        }
    }

    /// The state without one prepared transaction.
    pub open spec fn without_prepared(self, id: Seq<char>) -> CommitterState {
        CommitterState { prepared: self.prepared.remove(id), ..self }
    }
}

/// What rolling a transaction back takes.
#[derive(Clone, Copy, Debug, PartialEq, Eq, Structural)]
pub enum Rollback {
    /// The transaction is no longer prepared.
    Removed,
    /// The transaction was prepared on disk only: its redo record is deleted.
    OnlyDurable,
}

impl Committer {
    fn matching(&self, origin_ts: u64) -> (r: Vec<usize>)
        ensures
            r@.len() == self@.prepared_for(origin_ts).len(),
            forall|j: int|
                0 <= j < r@.len() ==> (#[trigger] r@[j]) < text_map::in_order(
                    self@.prepared.dom(),
                ).len() && text_map::in_order(self@.prepared.dom())[r@[j] as int]
                    == self@.prepared_for(origin_ts)[j],
    {
        let ghost ids = text_map::in_order(self@.prepared.dom());
        let mut found: Vec<usize> = Vec::new();
        let n: usize = self.prepared.len();
        let mut i: usize = 0;
        while i < n
            invariant
                i <= n,
                n == ids.len(),
                ids == text_map::in_order(self.prepared@.dom()),
                found@.len() == prepared_at(ids.take(i as int), self.prepared@, origin_ts).len(),
                forall|j: int|
                    0 <= j < found@.len() ==> (#[trigger] found@[j]) < ids.len()
                        && ids[found@[j] as int] == prepared_at(
                        ids.take(i as int),
                        self.prepared@,
                        origin_ts,
                    )[j],
            decreases n - i,
        {
            assert(ids.take(i + 1).drop_last() =~= ids.take(i as int));
            let p = self.prepared.value_at(i);
            if p.origin_ts == origin_ts {
                found.push(i);
            }
            i += 1;
        }
        assert(ids.take(i as int) =~= ids);
        found
    }

    /// Where the transaction that is prepared for `origin_commit_ts` is staged
    /// here, if there is one.
    pub fn local_prepared_commit_ts_for_origin(&self, origin_commit_ts: u64) -> (r: Result<
        Option<u64>,
        CommitError,
    >)
        ensures
            super::outcome(r) == self@.staged_ts(origin_commit_ts),
    {
        let found = self.matching(origin_commit_ts);
        if found.len() > 1 {
            let mut s: String = String::new();
            s.append("Found ");
            text::push_dec(&mut s, found.len() as u64);
            s.append(" prepared transactions at origin ts=");
            text::push_dec(&mut s, origin_commit_ts);
            s.append("; expected at most one");
            assert(s@ =~= ambiguous_origin(found@.len(), origin_commit_ts).text);
            return Err(CommitError::new(s));
        }
        if found.len() == 0 {
            return Ok(None);
        }
        assert(found@[0] < text_map::in_order(self@.prepared.dom()).len());
        Ok(Some(self.prepared.value_at(found[0]).commit_ts))
    }

    /// Forgets the transaction that is prepared for `origin_commit_ts`, which has
    /// been committed, and says which it was.
    pub fn remove_prepared_transaction_at_origin_ts(&mut self, origin_commit_ts: u64) -> (r: Result<
        Option<String>,
        CommitError,
    >)
        ensures
            ({
                let found = old(self)@.prepared_for(origin_commit_ts);
                if found.len() > 1 {
                    r matches Err(e) && e@ == ambiguous_cleanup(found.len(), origin_commit_ts)
                        && final(self)@ == old(self)@
                } else if found.len() == 1 {
                    r matches Ok(Some(id)) && id@ == found[0] && final(self)@
                        == old(self)@.without_prepared(found[0])
                } else {
                    r matches Ok(None) && final(self)@ == old(self)@
                }
            }),
    {
        let found = self.matching(origin_commit_ts);
        if found.len() > 1 {
            let mut s: String = String::new();
            s.append("Found ");
            text::push_dec(&mut s, found.len() as u64);
            s.append(" prepared transactions at ts=");
            text::push_dec(&mut s, origin_commit_ts);
            s.append("; expected at most one");
            assert(s@ =~= ambiguous_cleanup(found@.len(), origin_commit_ts).text);
            return Err(CommitError::new(s));
        }
        if found.len() == 0 {
            return Ok(None);
        }
        assert(found@[0] < text_map::in_order(self@.prepared.dom()).len());
        let id: String = self.prepared.key_at(found[0]).as_str().to_owned();
        let removed = self.prepared.remove(id.as_str());
        assert(self@ =~= old(self)@.without_prepared(id@));
        Ok(Some(id))
    }

    /// Rolls a prepared transaction back, so that it no longer stands in the way
    /// of others. A transaction that only a redo record remembers (the node was
    /// restarted or is a follower) loses the record.
    pub fn handle_rollback_prepared(&mut self, transaction_id: &str, has_redo: bool) -> (r: Result<
        Rollback,
        CommitError,
    >)
        ensures
            if old(self)@.prepared.contains_key(transaction_id@) {
                &&& r matches Ok(Rollback::Removed)
                &&& final(self)@ == old(self)@.without_prepared(transaction_id@)
            } else if has_redo {
                &&& r matches Ok(Rollback::OnlyDurable)
                &&& final(self)@ == old(self)@
            } else {
                &&& r matches Err(e)
                &&& e@ == unknown_rollback(transaction_id@)
                &&& final(self)@ == old(self)@
            },
    {
        if self.prepared.contains_key(transaction_id) {
            let removed = self.prepared.remove(transaction_id);
            assert(self@ =~= old(self)@.without_prepared(transaction_id@));
            return Ok(Rollback::Removed);
        }
        if has_redo {
            return Ok(Rollback::OnlyDurable);
        }
        let mut s: String = String::new();
        s.append("2PC RollbackPrepared: unknown transaction ");
        s.append(transaction_id);
        assert(s@ =~= unknown_rollback(transaction_id@).text);
        Err(CommitError::new(s))
    }

    /// Refuses a redo record of another partition.
    pub fn ensure_redo_is_local(&self, entry: &TwoPhaseRedoEntry) -> (r: Result<(), CommitError>)
        ensures
            super::routing::objection(r) == if entry.partition == self@.local_partition() {
                None
            } else {
                Some(foreign_redo(entry.transaction_id@, entry.partition, self@.local_partition()))
            },
    {
        let local: PartitionId = self.local_partition_for_two_phase();
        if entry.partition == local {
            return Ok(());
        }
        let mut s: String = String::new();
        s.append("2PC redo txn=");
        s.append(entry.transaction_id.as_str());
        s.append(" belongs to partition ");
        text::push_dec(&mut s, entry.partition.0 as u64);
        s.append(", local partition is ");
        text::push_dec(&mut s, local.0 as u64);
        assert(s@ =~= foreign_redo(entry.transaction_id@, entry.partition, local).text);
        Err(CommitError::new(s))
    }

    /// Whether the durable redo record of a transaction has to be staged before
    /// the transaction can be finished: it has to, where there is one and the
    /// transaction is not prepared.
    pub fn needs_durable_redo(&self, transaction_id: &str, records: &TextMap<TwoPhaseRedoEntry>) -> (r: bool)
        ensures
            r == (!self@.prepared.contains_key(transaction_id@) && records@.contains_key(
                transaction_id@,
            )),
    {
        !self.prepared.contains_key(transaction_id) && records.contains_key(transaction_id)
    }
}

/// Why the transaction of a redo record is staged.
#[derive(Clone, Copy, Debug, PartialEq, Eq, Structural)]
pub enum RedoUse {
    /// The record came through Raft.
    RaftApply,
    /// The transaction is to be finished, and only the record remembers it.
    Finish,
    /// The committer starts.
    Recovery,
}

/// Said in front of why the transaction of a redo record could not be staged.
pub open spec fn stage_context(why: RedoUse, id: Seq<char>) -> Seq<char> {
    match why {
        RedoUse::RaftApply => "2PC Raft Prepare Apply: failed to stage txn="@ + id,
        RedoUse::Finish => "2PC: failed to stage durable redo txn="@ + id,
        RedoUse::Recovery => "2PC Recovery: failed to stage prepared txn="@ + id,
    }
}

/// Says why the transaction of a redo record could not be staged.
pub fn stage_failure(why: RedoUse, transaction_id: &str, cause: CommitError) -> (r: CommitError)
    ensures
        r@ == super::in_context(stage_context(why, transaction_id@), cause@),
{
    let mut s: String = String::new();
    match why {
        RedoUse::RaftApply => {
            s.append("2PC Raft Prepare Apply: failed to stage txn=");
        },
        RedoUse::Finish => {
            s.append("2PC: failed to stage durable redo txn=");
        },
        RedoUse::Recovery => {
            s.append("2PC Recovery: failed to stage prepared txn=");
        },
    }
    s.append(transaction_id);
    assert(s@ =~= stage_context(why, transaction_id@));
    cause.context(s.as_str())
}

/// What went wrong with redo records.
#[derive(Clone, Copy, Debug)]
pub enum RedoStep<'a> {
    /// The stored records could not be read.
    ParseRecords,
    /// The records could not be turned into what is stored.
    SerializeRecords,
    /// The records could not be stored.
    PersistRecords,
    /// The transaction in the record of this name could not be read.
    DecodeTransaction(RedoUse, &'a str),
}

impl<'a> RedoStep<'a> {
    /// Said in front of what went wrong.
    pub open spec fn text(self) -> Seq<char> {
        match self {
            RedoStep::ParseRecords => "2PC: Failed to parse durable redo records"@,
            RedoStep::SerializeRecords => "2PC: Failed to serialize redo records"@,
            RedoStep::PersistRecords => "2PC: Failed to persist redo records"@,
            RedoStep::DecodeTransaction(why, id) => if why == RedoUse::Recovery {
                "2PC Recovery: failed to decode participant transaction for txn="@ + id@
            } else {
                "2PC: failed to decode participant transaction for redo txn="@ + id@
            },
        }
    }
}

/// Says what went wrong with redo records.
pub fn redo_failure(step: RedoStep, cause: CommitError) -> (r: CommitError)
    ensures
        r@ == super::in_context(step.text(), cause@),
{
    let mut s: String = String::new();
    match step {
        RedoStep::ParseRecords => {
            s.append("2PC: Failed to parse durable redo records");
        },
        RedoStep::SerializeRecords => {
            s.append("2PC: Failed to serialize redo records");
        },
        RedoStep::PersistRecords => {
            s.append("2PC: Failed to persist redo records");
        },
        RedoStep::DecodeTransaction(why, id) => {
            if why == RedoUse::Recovery {
                s.append("2PC Recovery: failed to decode participant transaction for txn=");
            } else {
                s.append("2PC: failed to decode participant transaction for redo txn=");
            }
            s.append(id);
        },
    }
    assert(s@ =~= step.text());
    cause.context(s.as_str())
}

impl Committer {
    /// Finishes a prepare that came through Raft and has been staged, given
    /// whether its redo record could be written. Without the record it is taken
    /// back.
    pub fn handle_raft_prepared_redo(
        &mut self,
        transaction_id: &str,
        staged: PrepareResult,
        persisted: Result<(), CommitError>,
    ) -> (r: Result<PrepareResult, CommitError>)
        ensures
            match persisted {
                Ok(()) => r == Ok::<PrepareResult, CommitError>(staged) && final(self)@ == old(
                    self,
                )@,
                Err(e) => r == Err::<PrepareResult, CommitError>(e) && final(self)@ == old(
                    self,
                )@.without_prepared(transaction_id@),
            },
    {
        match persisted {
            Ok(()) => Ok(staged),
            Err(e) => {
                let removed = self.prepared.remove(transaction_id);
                assert(self@ =~= old(self)@.without_prepared(transaction_id@));
                Err(e)
            },
        }
    }
}

/// What is done with one redo record when the committer starts.
#[derive(Clone, Copy, Debug, PartialEq, Eq, Structural)]
pub enum Recovery {
    /// It belongs to another partition: it is left alone.
    Ignore,
    /// Its transaction was committed: it is deleted.
    Delete,
    /// Its transaction is prepared again.
    Stage,
}

/// All of a transaction's documents are among those that were written at its
/// timestamp.
pub open spec fn is_committed(writes: Seq<DocumentWrite>, written: Seq<StoredId>) -> bool {
    writes.len() > 0 && forall|i: int|
        0 <= i < writes.len() ==> written.contains((#[trigger] writes[i]).id.stored())
}

/// Whether a redo record's transaction has been committed, given the documents
/// that were written at its timestamp.
pub fn redo_entry_is_already_committed(transaction: &ParticipantTransaction, written: &Vec<StoredId>) -> (r: bool)
    ensures
        r == is_committed(transaction.writes@, written@),
{
    if transaction.writes.len() == 0 {
        return false;
    }
    let mut i: usize = 0;
    while i < transaction.writes.len()
        invariant
            i <= transaction.writes@.len(),
            forall|k: int|
                0 <= k < i ==> written@.contains((#[trigger] transaction.writes@[k]).id.stored()),
        decreases transaction.writes@.len() - i,
    {
        let id: StoredId = transaction.writes[i].id.stored_id();
        let mut found = false;
        let mut j: usize = 0;
        while j < written.len() && !found
            invariant
                j <= written@.len(),
                found ==> written@.contains(id),
                !found ==> forall|k: int| 0 <= k < j ==> written@[k] != id,
            decreases written@.len() - j,
        {
            if written[j] == id {
                found = true;
                assert(written@[j as int] == id);
            }
            j += 1;
        }
        if !found {
            assert(!written@.contains(transaction.writes@[i as int].id.stored()));
            return false;
        }
        i += 1;
    }
    true
}

/// Decides what is done with one redo record when the committer starts.
pub fn recover_two_phase_redo_record(
    entry: &TwoPhaseRedoEntry,
    local_partition: PartitionId,
    written: &Vec<StoredId>,
) -> (r: Recovery)
    ensures
        r == if entry.partition != local_partition {
            Recovery::Ignore
        } else if is_committed(entry.transaction.writes@, written@) {
            Recovery::Delete
        } else {
            Recovery::Stage
        },
{
    if entry.partition != local_partition {
        return Recovery::Ignore;
    }
    if redo_entry_is_already_committed(&entry.transaction, written) {
        Recovery::Delete
    } else {
        Recovery::Stage
    }
}

/// Adds a redo record to the durable ones.
pub fn persist_two_phase_redo(records: &mut TextMap<TwoPhaseRedoEntry>, entry: TwoPhaseRedoEntry)
    ensures
        final(records)@ == old(records)@.insert(entry.transaction_id@, entry),
{
    let id: String = entry.transaction_id.as_str().to_owned();
    records.insert(id, entry);
}

/// Takes a redo record from the durable ones. Says whether there was one, for
/// only then the records are written back.
pub fn delete_two_phase_redo(records: &mut TextMap<TwoPhaseRedoEntry>, transaction_id: &str) -> (r: bool)
    ensures
        r == old(records)@.contains_key(transaction_id@),
        final(records)@ == old(records)@.remove(transaction_id@),
{
    let removed = records.remove(transaction_id);
    removed.is_some()
}

/// The document under another id.
pub open spec fn with_id(d: Document, id: DocumentId) -> Document {
    Document { id, creation_time: d.creation_time, size: d.size, content: d.content }
}

/// The write under another id.
pub open spec fn write_with_id(w: DocumentWrite, id: DocumentId) -> DocumentWrite {
    DocumentWrite {
        id,
        old_document: match w.old_document {
            Some((d, ts)) => Some((Arc::new(with_id(*d, id)), ts)),
            None => None,
        },
        new_document: match w.new_document {
            Some(d) => Some(Arc::new(with_id(*d, id))),
            None => None,
        },
    }
}

/// A participant's write, with rows of the tables that describe the others
/// moved to where this node keeps them.
pub open spec fn localized(w: DocumentWrite, source: Seq<TableInfo>, local: Seq<TableInfo>) -> Result<
    DocumentWrite,
    Refusal,
> {
    match documents::name_of(source, w.id.tablet) {
        None => Ok(w),
        Some(name) => if name != TABLES_TABLE@ && name != INDEX_TABLE@ {
            Ok(w)
        } else {
            match documents::called_in(local, Namespace::Global, name) {
                None => Err(missing_system_table(name)),
                Some(t) => Ok(
                    write_with_id(
                        w,
                        DocumentId { tablet: t.tablet, number: t.number, internal: w.id.internal },
                    ),
                ),
            }
        },
    }
}

/// A participant's writes, localized, or the first failure to do so.
pub open spec fn all_localized(writes: Seq<DocumentWrite>, source: Seq<TableInfo>, local: Seq<TableInfo>) -> Result<
    Seq<DocumentWrite>,
    Refusal,
>
    decreases writes.len(),
{
    if writes.len() == 0 {
        Ok(Seq::empty())
    } else {
        match all_localized(writes.drop_last(), source, local) {
            Err(e) => Err(e),
            Ok(rest) => match localized(writes.last(), source, local) {
                Err(e) => Err(e),
                Ok(w) => Ok(rest.push(w)),
            },
        }
    }
}

fn remap_document_id(d: &Arc<Document>, id: DocumentId) -> (r: Arc<Document>)
    ensures
        r == Arc::new(with_id(**d, id)),
{
    Arc::new(
        Document {
            id,
            creation_time: d.creation_time,
            size: d.size,
            content: d.content.copy(),
        },
    )
}

fn localize(w: &DocumentWrite, source_mapping: &TableMapping, local_mapping: &TableMapping) -> (r: Result<
    DocumentWrite,
    CommitError,
>)
    ensures
        super::outcome(r) == localized(*w, source_mapping.tables@, local_mapping.tables@),
{
    let name = match source_mapping.tablet_name(w.id.tablet) {
        Some(name) => name,
        None => {
            return Ok(w.copy());
        },
    };
    if !text::same(name.as_str(), TABLES_TABLE) && !text::same(name.as_str(), INDEX_TABLE) {
        return Ok(w.copy());
    }
    match local_mapping.find_in(Namespace::Global, name.as_str()) {
        None => {
            let mut s: String = String::new();
            s.append("cannot find table ");
            s.append(name.as_str());
            assert(s@ =~= missing_system_table(name@).text);
            Err(CommitError::new(s))
        },
        Some(t) => {
            let id = DocumentId { tablet: t.tablet, number: t.number, internal: w.id.internal };
            Ok(
                DocumentWrite {
                    id,
                    old_document: match &w.old_document {
                        Some(p) => Some((remap_document_id(&p.0, id), p.1)),
                        None => None,
                    },
                    new_document: match &w.new_document {
                        Some(d) => Some(remap_document_id(d, id)),
                        None => None,
                    },
                },
            )
        },
    }
}

proof fn lemma_localized_failure_sticks(
    writes: Seq<DocumentWrite>,
    i: int,
    source: Seq<TableInfo>,
    local: Seq<TableInfo>,
)
    requires
        0 <= i <= writes.len(),
    ensures
        all_localized(writes.take(i), source, local) is Err ==> all_localized(writes, source, local)
            == all_localized(writes.take(i), source, local),
    decreases writes.len() - i,
{
    if i < writes.len() {
        lemma_localized_failure_sticks(writes, i + 1, source, local);
        assert(writes.take(i + 1).drop_last() =~= writes.take(i));
    } else {
        assert(writes.take(i) =~= writes);
    }
}

/// Moves a participant's writes to the tables that describe the others to where
/// this node keeps these tables. Nodes create them on their own, so they are
/// stored under different names everywhere.
pub fn remap_participant_system_table_writes(
    writes: &Vec<DocumentWrite>,
    source_mapping: &TableMapping,
    local_mapping: &TableMapping,
) -> (r: Result<Vec<DocumentWrite>, CommitError>)
    ensures
        match r {
            Ok(v) => all_localized(writes@, source_mapping.tables@, local_mapping.tables@) == Ok::<
                Seq<DocumentWrite>,
                Refusal,
            >(v@),
            Err(e) => all_localized(writes@, source_mapping.tables@, local_mapping.tables@) == Err::<
                Seq<DocumentWrite>,
                Refusal,
            >(e@),
        },
{
    let mut out: Vec<DocumentWrite> = Vec::new();
    let mut i: usize = 0;
    while i < writes.len()
        invariant
            i <= writes@.len(),
            all_localized(
                writes@.take(i as int),
                source_mapping.tables@,
                local_mapping.tables@,
            ) == Ok::<Seq<DocumentWrite>, Refusal>(out@),
        decreases writes@.len() - i,
    {
        proof {
            assert(writes@.take(i + 1).drop_last() =~= writes@.take(i as int));
            lemma_localized_failure_sticks(
                writes@,
                i + 1,
                source_mapping.tables@,
                local_mapping.tables@,
            );
        }
        match localize(&writes[i], source_mapping, local_mapping) {
            Ok(w) => {
                out.push(w);
            },
            Err(e) => {
                return Err(e);
            },
        }
        i += 1;
    }
    assert(writes@.take(i as int) =~= writes@);
    Ok(out)
}

/// Rolling a transaction back undoes preparing it: the committer is as it was,
/// except for the timestamps it has handed out.
pub proof fn rollback_undoes_prepare(
    before: CommitterState,
    id: Seq<char>,
    prepared: PreparedTransaction,
)
    requires
        !before.prepared.contains_key(id),
    ensures
        (CommitterState { prepared: before.prepared.insert(id, prepared), ..before }).without_prepared(
            id,
        ) == before,
{
    let s = (CommitterState { prepared: before.prepared.insert(id, prepared), ..before });
    assert(s.without_prepared(id).prepared =~= before.prepared);
}

proof fn lemma_prepared_at(
    ids: Seq<Seq<char>>,
    prepared: Map<Seq<char>, PreparedTransaction>,
    origin_ts: u64,
    id: Seq<char>,
)
    ensures
        prepared_at(ids, prepared, origin_ts).contains(id) <==> ids.contains(id)
            && prepared[id].origin_ts == origin_ts,
    decreases ids.len(),
{
    if ids.len() > 0 {
        let front = ids.drop_last();
        let rest = prepared_at(front, prepared, origin_ts);
        let all = prepared_at(ids, prepared, origin_ts);
        let n = ids.len() - 1;
        lemma_prepared_at(front, prepared, origin_ts, id);
        assert(ids[n] == ids.last());
        if front.contains(id) {
            let k = choose|k: int| 0 <= k < front.len() && front[k] == id;
            assert(ids[k] == id);
        }
        if ids.contains(id) && !front.contains(id) {
            let k = choose|k: int| 0 <= k < ids.len() && ids[k] == id;
            if k < n {
                assert(front[k] == id);
            }
        }
        if rest.contains(id) {
            let k = choose|k: int| 0 <= k < rest.len() && rest[k] == id;
            assert(all[k] == id);
        }
        if all.contains(id) && !rest.contains(id) {
            let k = choose|k: int| 0 <= k < all.len() && all[k] == id;
            if k < rest.len() {
                assert(rest[k] == id);
            }
        }
        if prepared[ids[n]].origin_ts == origin_ts {
            assert(all[rest.len() as int] == ids[n]);
        }
    }
}

/// The transactions prepared for a timestamp are exactly those that their
/// coordinators were told it of.
pub proof fn prepared_transactions_are_found_by_timestamp(
    state: CommitterState,
    origin_ts: u64,
    id: Seq<char>,
)
    requires
        state.prepared.dom().finite(),
    ensures
        state.prepared_for(origin_ts).contains(id) <==> state.prepared.contains_key(id)
            && state.prepared[id].origin_ts == origin_ts,
{
    let ids = text_map::in_order(state.prepared.dom());
    text_map::lemma_in_order(state.prepared.dom());
    lemma_prepared_at(ids, state.prepared, origin_ts, id);
    assert(ids.to_set().contains(id) <==> ids.contains(id));
}

/// Where a transaction is staged is where the one transaction is that was prepared
/// for the timestamp; there is no answer where there is none.
pub proof fn staged_timestamps_are_those_of_the_prepared(
    state: CommitterState,
    origin_ts: u64,
    id: Seq<char>,
)
    requires
        state.prepared.dom().finite(),
    ensures
        match state.staged_ts(origin_ts) {
            Ok(Some(ts)) => exists|found: Seq<char>| #[trigger]
                state.prepared.contains_key(found) && state.prepared[found].origin_ts == origin_ts
                    && state.prepared[found].commit_ts == ts,
            Ok(None) => !(state.prepared.contains_key(id) && state.prepared[id].origin_ts
                == origin_ts),
            Err(_) => state.prepared_for(origin_ts).len() > 1,
        },
        state.staged_ts(origin_ts) is Ok && state.prepared.contains_key(id)
            && state.prepared[id].origin_ts == origin_ts ==> state.staged_ts(origin_ts) == Ok::<
            Option<u64>,
            Refusal,
        >(Some(state.prepared[id].commit_ts)),
{
    let found = state.prepared_for(origin_ts);
    prepared_transactions_are_found_by_timestamp(state, origin_ts, id);
    if found.len() > 0 {
        assert(found.contains(found[0]));
        prepared_transactions_are_found_by_timestamp(state, origin_ts, found[0]);
        assert(state.prepared.contains_key(found[0]));
    }
    if found.contains(id) {
        let k = choose|k: int| 0 <= k < found.len() && found[k] == id;
        assert(found[k] == id);
    }
}

/// Without one prepared transaction everything else is as it was.
pub proof fn forgetting_one_keeps_the_others(state: CommitterState, id: Seq<char>, other: Seq<char>)
    ensures
        !state.without_prepared(id).prepared.contains_key(id),
        other != id ==> (state.without_prepared(id).prepared.contains_key(other)
            <==> state.prepared.contains_key(other)),
        other != id && state.prepared.contains_key(other) ==> state.without_prepared(
            id,
        ).prepared[other] == state.prepared[other],
        state.without_prepared(id) == (CommitterState {
            prepared: state.without_prepared(id).prepared,
            ..state
        }),
{
}

/// A redo record that counts as committed writes something, and each document it
/// writes was written at its timestamp.
pub proof fn committed_records_have_all_their_documents(
    writes: Seq<DocumentWrite>,
    written: Seq<StoredId>,
    i: int,
)
    requires
        is_committed(writes, written),
    ensures
        writes.len() > 0,
        0 <= i < writes.len() ==> exists|j: int|
            0 <= j < written.len() && (#[trigger] written[j]).tablet == writes[i].id.tablet
                && written[j].internal == writes[i].id.internal,
{
    if 0 <= i < writes.len() {
        assert(written.contains(writes[i].id.stored()));
        let j = choose|j: int| 0 <= j < written.len() && written[j] == writes[i].id.stored();
        assert(written[j].tablet == writes[i].id.tablet);
    }
}

/// A redo record that does not count as committed writes nothing, or one of its
/// documents was not written at its timestamp.
pub proof fn uncommitted_records_lack_a_document(writes: Seq<DocumentWrite>, written: Seq<StoredId>)
    requires
        !is_committed(writes, written),
        writes.len() > 0,
    ensures
        exists|i: int|
            0 <= i < writes.len() && {
                let id = (#[trigger] writes[i]).id;
                !written.contains(StoredId { tablet: id.tablet, internal: id.internal })
            },
{
    let i = choose|i: int|
        0 <= i < writes.len() && !written.contains((#[trigger] writes[i]).id.stored());
    assert(!written.contains(
        StoredId { tablet: writes[i].id.tablet, internal: writes[i].id.internal },
    ));
}

/// A participant's write keeps its documents: one that describes no table or index
/// stays as it is, and one that does moves to where this node keeps such rows, with
/// the same content, times and sizes.
pub proof fn localized_writes_keep_their_documents(
    w: DocumentWrite,
    source: Seq<TableInfo>,
    local: Seq<TableInfo>,
)
    ensures
        documents::name_of(source, w.id.tablet) != Some("_tables"@) && documents::name_of(
            source,
            w.id.tablet,
        ) != Some("_index"@) ==> localized(w, source, local) == Ok::<DocumentWrite, Refusal>(w),
        documents::name_of(source, w.id.tablet) matches Some(name) ==> ((name == "_tables"@ || name
            == "_index"@) ==> match documents::called_in(local, Namespace::Global, name) {
            None => localized(w, source, local) is Err,
            Some(t) => {
                &&& localized(w, source, local) matches Ok(l)
                &&& l.id.tablet == t.tablet
                &&& l.id.number == t.number
                &&& l.id.internal == w.id.internal
                &&& l.new_document is Some <==> w.new_document is Some
                &&& l.old_document is Some <==> w.old_document is Some
                &&& w.new_document matches Some(d) ==> {
                    let n = l.new_document->0;
                    n.content == d.content && n.creation_time == d.creation_time && n.size == d.size
                        && n.id == l.id
                }
                &&& w.old_document matches Some((d, ts)) ==> {
                    let o = l.old_document->0;
                    o.1 == ts && o.0.content == d.content && o.0.creation_time == d.creation_time
                        && o.0.size == d.size && o.0.id == l.id
                }
            },
        }),
{
}

/// All of a participant's writes are taken over, in order, or none is.
pub proof fn every_write_is_localized(writes: Seq<DocumentWrite>, source: Seq<TableInfo>, local: Seq<TableInfo>)
    ensures
        all_localized(writes, source, local) matches Ok(all) ==> {
            &&& all.len() == writes.len()
            &&& forall|i: int|
                0 <= i < writes.len() ==> localized(#[trigger] writes[i], source, local) == Ok::<
                    DocumentWrite,
                    Refusal,
                >(all[i])
        },
        (forall|i: int| 0 <= i < writes.len() ==> localized(#[trigger] writes[i], source, local) is Ok)
            ==> all_localized(writes, source, local) is Ok,
    decreases writes.len(),
{
    if writes.len() > 0 {
        let front = writes.drop_last();
        let n = writes.len() - 1;
        every_write_is_localized(front, source, local);
        assert(writes[n] == writes.last());
        if forall|i: int|
            0 <= i < writes.len() ==> localized(#[trigger] writes[i], source, local) is Ok {
            assert forall|i: int| 0 <= i < front.len() implies localized(
                #[trigger] front[i],
                source,
                local,
            ) is Ok by {
                assert(writes[i] == front[i]);
            }
            assert(localized(writes[n], source, local) is Ok);
        }
        if let Ok(all) = all_localized(writes, source, local) {
            assert forall|i: int| 0 <= i < writes.len() implies localized(
                #[trigger] writes[i],
                source,
                local,
            ) == Ok::<DocumentWrite, Refusal>(all[i]) by {
                if i < n {
                    assert(front[i] == writes[i]);
                }
            }
        }
    }
}

/// What is ambiguous is named with how much of it there is and where, and a record of
/// another partition with both partitions.
pub proof fn ambiguous_records_are_named(
    n: nat,
    ts: u64,
    id: Seq<char>,
    partition: PartitionId,
    local: PartitionId,
)
    ensures
        ambiguous_origin(n, ts).text == "Found "@ + text::dec(n)
            + " prepared transactions at origin ts="@ + text::dec(ts as nat)
            + "; expected at most one"@,
        ambiguous_origin(n, ts).occ is None,
        ambiguous_cleanup(n, ts).text == "Found "@ + text::dec(n)
            + " prepared transactions at ts="@ + text::dec(ts as nat) + "; expected at most one"@,
        ambiguous_cleanup(n, ts).occ is None,
        foreign_redo(id, partition, local).text == "2PC redo txn="@ + id
            + " belongs to partition "@ + text::dec(partition.0 as nat) + ", local partition is "@
            + text::dec(local.0 as nat),
        foreign_redo(id, partition, local).occ is None,
        unknown_rollback(id).text == "2PC RollbackPrepared: unknown transaction "@ + id,
        unknown_rollback(id).occ is None,
        unknown_commit(id).text == "2PC CommitPrepared: unknown transaction "@ + id,
        unknown_commit(id).occ is None,
{
}

} // verus!
