//! Applying the deltas of other nodes.
//!
//! A delta is applied in three phases: first the rows of the `_tables` table,
//! which create tables; then everything else, moved to where this node keeps the
//! tables; and at last the result is queued for persistence behind what is
//! queued already. All writes, local and replicated, go through one queue.
//!
//! Applying one update to the working snapshot is done outside. A
//! [`ReplicaApply`] hands the updates out one by one, and is shown the tables and
//! indexes of the working snapshot each time.
use super::delta;
use super::delta::CommitDelta;
use super::delta_flow::{DeltaFlow, DeltaStage};
use super::index_metadata;
use super::index_metadata::IndexInfo;
use super::routing;
use super::{CommitError, Committer, CommitterState, PreparedTransaction, QueuedSnapshot, Refusal, SnapshotId, MAX_TIMESTAMP};
use crate::documents;
use crate::documents::{Content, Document, DocumentLogEntry, DocumentUpdate, IndexEntry, TableInfo, TableMapping, INDEX_TABLE, TABLES_TABLE};
use crate::names;
use crate::names::{TableName, TabletId};
use crate::partition::PartitionId;
use crate::text;
use crate::text_map;
use std::collections::BTreeMap;
use std::sync::Arc;
use vstd::prelude::*;
use vstd::string::*;

verus! {

broadcast use {vstd::std_specs::btree::group_btree_axioms, vstd::laws_cmp::group_laws_cmp};

/// Why a delta is applied.
#[derive(Clone, Copy, Debug, PartialEq, Eq, Structural)]
pub enum ReplicaDeltaApplyMode {
    /// This node reads data of another partition. State that is local to the
    /// other node is left out.
    CrossPartitionReplica,
    /// This node may come to lead the partition. It takes everything.
    FullRaftState,
}

/// The two timestamps of a delta.
#[derive(Clone, Copy, Debug, PartialEq, Eq, Structural)]
pub struct ReplicaDeltaTimestamps {
    /// The timestamp the source partition committed the write at.
    pub origin_ts: u64,
    /// The timestamp at which this node can safely publish it.
    pub local_apply_ts: u64,
}

/// The timestamps of a delta: never before the source's, and after everything
/// local.
pub open spec fn delta_times(origin_ts: u64, latest_ts: u64, last_assigned_ts: u64) -> Result<
    ReplicaDeltaTimestamps,
    Refusal,
> {
    match (super::next_ts(latest_ts), super::next_ts(last_assigned_ts)) {
        (Some(latest), Some(assigned)) => Ok(
            ReplicaDeltaTimestamps {
                origin_ts,
                local_apply_ts: super::later(origin_ts, super::later(latest, assigned)),
            },
        ),
        _ => Err(super::overflow_refusal()),
    }
}

/// Finds the timestamps of a delta.
pub fn replica_delta_timestamps(origin_ts: u64, latest_local_ts: u64, last_assigned_ts: u64) -> (r: Result<
    ReplicaDeltaTimestamps,
    CommitError,
>)
    ensures
        super::outcome(r) == delta_times(origin_ts, latest_local_ts, last_assigned_ts),
{
    if latest_local_ts >= MAX_TIMESTAMP || last_assigned_ts >= MAX_TIMESTAMP {
        return Err(super::overflow_error());
    }
    let local: u64 = super::later_of(latest_local_ts + 1, last_assigned_ts + 1);
    Ok(ReplicaDeltaTimestamps { origin_ts, local_apply_ts: super::later_of(origin_ts, local) })
}

/// The earliest timestamp at which one of `ids` is staged.
pub open spec fn least_staged(ids: Seq<Seq<char>>, prepared: Map<Seq<char>, PreparedTransaction>) -> Option<u64>
    decreases ids.len(),
{
    if ids.len() == 0 {
        None
    } else {
        let ts = prepared[ids.last()].commit_ts;
        match least_staged(ids.drop_last(), prepared) {
            Some(rest) => if ts < rest {
                Some(ts)
            } else {
                Some(rest)
            },
            None => Some(ts),
        }
    }
}

/// Said of a delta that would be published over a transaction in doubt.
pub open spec fn overtakes(ts: u64, prepared_ts: u64) -> Refusal {
    super::refused(
        "Replica delta at ts="@ + text::dec(ts as nat)
            + " would overtake unresolved 2PC prepared transaction at ts="@ + text::dec(
            prepared_ts as nat,
        ) + "; retry after the prepared transaction commits or rolls back"@,
    )
}

impl CommitterState {
    /// The earliest timestamp at which a prepared transaction is staged.
    pub open spec fn min_prepared_ts(self) -> Option<u64> {
        least_staged(text_map::in_order(self.prepared.dom()), self.prepared)
    }

    /// Where the transaction that a delta commits is staged here, if the delta
    /// commits one.
    pub open spec fn staged_for_delta(
        self,
        mode: ReplicaDeltaApplyMode,
        source: Option<PartitionId>,
        origin_ts: u64,
    ) -> Result<Option<u64>, Refusal> {
        if mode == ReplicaDeltaApplyMode::FullRaftState && source == Some(self.local_partition()) {
            self.staged_ts(origin_ts)
        } else {
            Ok(None)
        }
    }

    /// The timestamp a delta is applied at: where its transaction is staged, as
    /// long as that is still in the future.
    pub open spec fn delta_ts(self, staged: Option<u64>, times: ReplicaDeltaTimestamps) -> u64 {
        match staged {
            Some(ts) => if ts > self.latest_ts && ts > self.last_assigned_ts {
                ts
            } else {
                times.local_apply_ts
            },
            None => times.local_apply_ts,
        }
    }

    /// The objection to applying a delta of another partition at `ts`.
    pub open spec fn overtaking_objection(
        self,
        mode: ReplicaDeltaApplyMode,
        source: Option<PartitionId>,
        ts: u64,
    ) -> Option<Refusal> {
        if mode == ReplicaDeltaApplyMode::CrossPartitionReplica && source != Some(
            self.local_partition(),
        ) {
            match self.min_prepared_ts() {
                Some(prepared_ts) => if ts >= prepared_ts {
                    Some(overtakes(ts, prepared_ts))
                } else {
                    None
                },
                None => None,
            }
        } else {
            None
        }
    }

    /// Whether a delta with data has been applied before.
    pub open spec fn is_duplicate(
        self,
        source: Option<PartitionId>,
        staged: Option<u64>,
        origin_ts: u64,
    ) -> bool {
        match source {
            Some(p) => staged is None && self.data_watermarks.contains_key(p.0)
                && self.data_watermarks[p.0] >= origin_ts,
            None => false,
        }
    }
}

/// A table of the system that every node needs a copy of: what functions there
/// are, and how they are run.
pub open spec fn is_global(name: Seq<char>) -> bool {
    name == "_modules"@ || name == "_udf_config"@ || name == "_source_packages"@
}

/// Whether a table of the system is one that every node needs a copy of.
pub fn is_global_deployment_table(name: &str) -> (r: bool)
    ensures
        r == is_global(name@),
{
    text::same(name, "_modules") || text::same(name, "_udf_config") || text::same(
        name,
        "_source_packages",
    )
}

/// What is done with one update of a delta.
#[derive(Clone, Copy, Debug, PartialEq, Eq, Structural)]
pub enum Share {
    /// It is about a table: it is applied first.
    Table,
    /// It is applied.
    Other,
    /// It is local to the other node: it is left out.
    Skipped,
}

/// A table's data, and what describes it, goes to other partitions.
pub open spec fn is_replicated(name: Seq<char>) -> bool {
    !names::is_system_name(name) || is_global(name)
}

/// What is done with an update: it is sorted by what it describes, not by the
/// table it is stored in. A row of the `_index` table is part of the table whose
/// index it describes.
pub open spec fn share_of(mode: ReplicaDeltaApplyMode, u: DocumentUpdate, tables: Map<u128, Seq<char>>) -> Share {
    let known = tables.contains_key(u.id.tablet.0);
    let name = tables[u.id.tablet.0];
    if known && name == TABLES_TABLE@ {
        Share::Table
    } else if mode == ReplicaDeltaApplyMode::FullRaftState {
        Share::Other
    } else if known && name == INDEX_TABLE@ {
        match u.new_document {
            None => Share::Skipped,
            Some(d) => match index_metadata::indexed_table(*d) {
                None => Share::Skipped,
                Some(t) => if tables.contains_key(t.0) && is_replicated(tables[t.0]) {
                    Share::Other
                } else {
                    Share::Skipped
                },
            },
        }
    } else if known && is_replicated(name) {
        Share::Other
    } else {
        Share::Skipped
    }
}

/// Sorts an update by what it describes.
pub fn classify(mode: ReplicaDeltaApplyMode, update: &DocumentUpdate, tables: &BTreeMap<u128, Arc<TableName>>) -> (r:
    Share)
    ensures
        r == share_of(mode, *update, delta::table_names(tables@)),
{
    let ghost names = delta::table_names(tables@);
    assert(names.dom() =~= tables@.dom());
    let name = tables.get(&update.id.tablet.0);
    if let Some(n) = name {
        assert(names[update.id.tablet.0] == n@);
        if text::same(n.as_str(), TABLES_TABLE) {
            return Share::Table;
        }
    }
    if mode == ReplicaDeltaApplyMode::FullRaftState {
        return Share::Other;
    }
    match name {
        None => Share::Skipped,
        Some(n) => {
            if text::same(n.as_str(), INDEX_TABLE) {
                match &update.new_document {
                    None => Share::Skipped,
                    Some(d) => match index_metadata::index_metadata_tablet_id(d) {
                        None => Share::Skipped,
                        Some(t) => match tables.get(&t.0) {
                            None => Share::Skipped,
                            Some(indexed) => {
                                assert(names[t.0] == indexed@);
                                if !indexed.is_system() || is_global_deployment_table(
                                    indexed.as_str(),
                                ) {
                                    Share::Other
                                } else {
                                    Share::Skipped
                                }
                            },
                        },
                    },
                }
            } else if !n.is_system() || is_global_deployment_table(n.as_str()) {
                Share::Other
            } else {
                Share::Skipped
            }
        },
    }
}

/// Where the updates of one kind are.
pub open spec fn positions(
    mode: ReplicaDeltaApplyMode,
    updates: Seq<DocumentUpdate>,
    tables: Map<u128, Seq<char>>,
    wanted: Share,
) -> Seq<usize>
    decreases updates.len(),
{
    if updates.len() == 0 {
        Seq::empty()
    } else {
        let rest = positions(mode, updates.drop_last(), tables, wanted);
        if share_of(mode, updates.last(), tables) == wanted {
            rest.push((updates.len() - 1) as usize)
        } else {
            rest
        }
    }
}

proof fn lemma_positions_in_range(
    mode: ReplicaDeltaApplyMode,
    updates: Seq<DocumentUpdate>,
    tables: Map<u128, Seq<char>>,
    wanted: Share,
)
    requires
        updates.len() <= usize::MAX,
    ensures
        forall|j: int|
            0 <= j < positions(mode, updates, tables, wanted).len() ==> (#[trigger] positions(
                mode,
                updates,
                tables,
                wanted,
            )[j]) < updates.len(),
    decreases updates.len(),
{
    if updates.len() > 0 {
        lemma_positions_in_range(mode, updates.drop_last(), tables, wanted);
        let rest = positions(mode, updates.drop_last(), tables, wanted);
        let all = positions(mode, updates, tables, wanted);
        assert forall|j: int| 0 <= j < all.len() implies (#[trigger] all[j]) < updates.len() by {
            if j < rest.len() {
                assert(all[j] == rest[j]);
            }
        }
    }
}

fn find_positions(mode: ReplicaDeltaApplyMode, delta: &CommitDelta, wanted: Share) -> (r: Vec<usize>)
    ensures
        r@ == positions(
            mode,
            delta.document_updates@,
            delta::table_names(delta.tables@),
            wanted,
        ),
{
    let mut found: Vec<usize> = Vec::new();
    let mut i: usize = 0;
    while i < delta.document_updates.len()
        invariant
            i <= delta.document_updates@.len(),
            found@ == positions(
                mode,
                delta.document_updates@.take(i as int),
                delta::table_names(delta.tables@),
                wanted,
            ),
        decreases delta.document_updates@.len() - i,
    {
        assert(delta.document_updates@.take(i + 1).drop_last() =~= delta.document_updates@.take(
            i as int,
        ));
        if classify(mode, &delta.document_updates[i], &delta.tables) == wanted {
            found.push(i);
        }
        i += 1;
    }
    assert(delta.document_updates@.take(i as int) =~= delta.document_updates@);
    found
}

/// Where this node keeps the tables that a delta names.
pub open spec fn local_tablets(tables: Map<u128, Seq<char>>, local: Seq<TableInfo>) -> Map<u128, u128> {
    Map::new(
        |t: u128| tables.contains_key(t) && documents::called(local, tables[t]) is Some,
        |t: u128| (documents::called(local, tables[t])->0).tablet.0,
    )
}

fn keys_of(tables: &BTreeMap<u128, Arc<TableName>>) -> (r: Vec<u128>)
    ensures
        r@.to_set() == tables@.dom(),
{
    let mut r: Vec<u128> = Vec::new();
    for k in it: tables.keys()
        invariant
            r@ == it.seq().unref().take(it.index() as int),
    {
        assert(it.seq().unref().take(it.index() as int + 1) =~= it.seq().unref().take(
            it.index() as int,
        ).push(*k));
        r.push(*k);
    }
    proof {
        let q = vstd::std_specs::iter::IteratorSpec::remaining(
            &vstd::std_specs::btree::spec_keys_iter(tables),
        );
        assert(r@ =~= q.unref());
        assert(q.unref().to_set() == tables@.dom());
    }
    r
}

/// Finds where this node keeps the tables that a delta names.
pub fn build_remap(tables: &BTreeMap<u128, Arc<TableName>>, local: &TableMapping) -> (r: BTreeMap<u128, u128>)
    ensures
        r@ == local_tablets(delta::table_names(tables@), local.tables@),
{
    let ghost names = delta::table_names(tables@);
    assert(names.dom() =~= tables@.dom());
    let keys = keys_of(tables);
    let mut r: BTreeMap<u128, u128> = BTreeMap::new();
    let mut i: usize = 0;
    while i < keys.len()
        invariant
            i <= keys@.len(),
            keys@.to_set() == tables@.dom(),
            names == delta::table_names(tables@),
            names.dom() == tables@.dom(),
            forall|t: u128| #[trigger]
                r@.contains_key(t) ==> local_tablets(names, local.tables@).contains_key(t) && r@[t]
                    == local_tablets(names, local.tables@)[t],
            forall|j: int|
                0 <= j < i && local_tablets(names, local.tables@).contains_key(#[trigger] keys@[j])
                    ==> r@.contains_key(keys@[j]),
        decreases keys@.len() - i,
    {
        let k: u128 = keys[i];
        assert(keys@.to_set().contains(k));
        if let Some(name) = tables.get(&k) {
            assert(names[k] == name@);
            if let Some(t) = local.find_named(name) {
                r.insert(k, t.tablet.0);
            }
        }
        i += 1;
    }
    assert forall|t: u128| local_tablets(names, local.tables@).contains_key(t) implies r@.contains_key(
        t,
    ) by {
        assert(keys@.to_set().contains(t));
        let j = choose|j: int| 0 <= j < keys@.len() && keys@[j] == t;
        assert(local_tablets(names, local.tables@).contains_key(keys@[j]));
    }
    assert(r@ =~= local_tablets(names, local.tables@));
    r
}

/// Said of a row of the `_tables` table that describes no table.
pub open spec fn not_table_metadata() -> Refusal {
    super::refused("Document is not table metadata"@)
}

/// Said of a table that has another number here: documents refer to each other
/// by it, so it has to be the same everywhere.
pub open spec fn different_number(name: Seq<char>, number: u32, local: u32) -> Refusal {
    super::refused(
        "Replicated table '"@ + name + "' has table number "@ + text::dec(number as nat)
            + " but local table uses "@ + text::dec(local as nat),
    )
}

/// Said of data of a table that this node does not have yet.
pub open spec fn unmapped_table(ts: u64, name: Option<Seq<char>>, tablet: TabletId) -> Refusal {
    super::refused(
        "Cannot apply replica delta at ts="@ + text::dec(ts as nat) + " because table "@
            + match name {
            Some(n) => "Some("@ + n + ")"@,
            None => "None"@,
        } + " (TabletId "@ + routing::tablet_text(tablet)
            + ") is not mapped locally; retry after table metadata is available"@,
    )
}

/// What applying one row of the `_tables` table takes: nothing, one update, or
/// a refusal.
///
/// A table that is there already is not created again. Its number has to be the
/// one that the row gives.
pub open spec fn table_effect(u: DocumentUpdate, remap: Map<u128, u128>, local: Seq<TableInfo>) -> Result<
    Option<DocumentUpdate>,
    Refusal,
> {
    if !remap.contains_key(u.id.tablet.0) {
        Ok(None)
    } else {
        let moved = documents::moved_update(u, TabletId(remap[u.id.tablet.0]));
        match u.new_document {
            None => Ok(Some(moved)),
            Some(d) => match d.content {
                Content::Table(m) => match documents::called_in(local, m.namespace, m.name@) {
                    None => Ok(Some(moved)),
                    Some(t) => if t.number == m.number {
                        Ok(None)
                    } else {
                        Err(different_number(m.name@, m.number, t.number))
                    },
                },
                _ => Err(not_table_metadata()),
            },
        }
    }
}

/// Decides what applying one row of the `_tables` table takes.
pub fn apply_table_update(update: &DocumentUpdate, remap: &BTreeMap<u128, u128>, local: &TableMapping) -> (r: Result<
    Option<DocumentUpdate>,
    CommitError,
>)
    ensures
        super::outcome(r) == table_effect(*update, remap@, local.tables@),
{
    let tablet: TabletId = match remap.get(&update.id.tablet.0) {
        Some(t) => TabletId(*t),
        None => {
            return Ok(None);
        },
    };
    if let Some(d) = &update.new_document {
        match &d.content {
            Content::Table(m) => {
                if let Some(t) = local.find_in(m.namespace, m.name.as_str()) {
                    if t.number == m.number {
                        return Ok(None);
                    }
                    let mut s: String = String::new();
                    s.append("Replicated table '");
                    s.append(m.name.as_str());
                    s.append("' has table number ");
                    text::push_dec(&mut s, m.number as u64);
                    s.append(" but local table uses ");
                    text::push_dec(&mut s, t.number as u64);
                    assert(s@ =~= different_number(m.name@, m.number, t.number).text);
                    return Err(CommitError::new(s));
                }
            },
            _ => {
                return Err(CommitError::new("Document is not table metadata".to_owned()));
            },
        }
    }
    Ok(Some(update.to_remapped(tablet)))
}

/// Why a delta is not applied.
#[derive(Debug)]
pub enum ReplicaFailure {
    /// The sender is told, and sends the delta again.
    Retry(CommitError),
    /// The delta cannot be applied.
    Broken(CommitError),
}

/// Why a delta is not applied, as contracts speak of it.
pub enum Failure {
    Retry(Refusal),
    Broken(Refusal),
}

impl View for ReplicaFailure {
    type V = Failure;

    open spec fn view(&self) -> Failure {
        match self {
            ReplicaFailure::Retry(e) => Failure::Retry(e@),
            ReplicaFailure::Broken(e) => Failure::Broken(e@),
        }
    }
}

/// The delta comes from another partition.
pub open spec fn crosses(mode: ReplicaDeltaApplyMode) -> bool {
    mode == ReplicaDeltaApplyMode::CrossPartitionReplica
}

/// The update is about an index.
pub open spec fn describes_index(u: DocumentUpdate, tables: Map<u128, Seq<char>>) -> bool {
    tables.contains_key(u.id.tablet.0) && tables[u.id.tablet.0] == INDEX_TABLE@
}

/// `r` is what applying one other update takes: nothing, one update, or a
/// refusal.
pub open spec fn is_other_effect(
    r: Result<Option<DocumentUpdate>, Failure>,
    u: DocumentUpdate,
    mode: ReplicaDeltaApplyMode,
    origin_ts: u64,
    tables: Map<u128, Seq<char>>,
    remap: Map<u128, u128>,
    indexes: Seq<IndexInfo>,
) -> bool {
    let tablet = u.id.tablet;
    if !remap.contains_key(tablet.0) {
        r == Err::<Option<DocumentUpdate>, Failure>(
            Failure::Retry(
                unmapped_table(
                    origin_ts,
                    if tables.contains_key(tablet.0) {
                        Some(tables[tablet.0])
                    } else {
                        None
                    },
                    tablet,
                ),
            ),
        )
    } else if !describes_index(u, tables) {
        r == Ok::<Option<DocumentUpdate>, Failure>(
            Some(documents::moved_update(u, TabletId(remap[tablet.0]))),
        )
    } else if index_metadata::update_remap_objection(u, remap) is Some {
        r == Err::<Option<DocumentUpdate>, Failure>(
            Failure::Broken(index_metadata::update_remap_objection(u, remap)->0),
        )
    } else {
        exists|moved: DocumentUpdate| #[trigger]
            index_metadata::is_remapped_update(
                u,
                moved,
                TabletId(remap[tablet.0]),
                remap,
                crosses(mode),
            ) && r == match index_metadata::already_present(indexes, moved) {
                Ok(true) => Ok::<Option<DocumentUpdate>, Failure>(None),
                Ok(false) => Ok(Some(moved)),
                Err(e) => Err(Failure::Broken(e)),
            }
    }
}

/// A result of applying an update, as contracts speak of it.
pub open spec fn effect(r: Result<Option<DocumentUpdate>, ReplicaFailure>) -> Result<
    Option<DocumentUpdate>,
    Failure,
> {
    match r {
        Ok(u) => Ok(u),
        Err(e) => Err(e@),
    }
}

/// Decides what applying one other update takes.
pub fn apply_other_update(
    update: &DocumentUpdate,
    mode: ReplicaDeltaApplyMode,
    origin_ts: u64,
    tables: &BTreeMap<u128, Arc<TableName>>,
    remap: &BTreeMap<u128, u128>,
    indexes: &Vec<IndexInfo>,
) -> (r: Result<Option<DocumentUpdate>, ReplicaFailure>)
    ensures
        is_other_effect(
            effect(r),
            *update,
            mode,
            origin_ts,
            delta::table_names(tables@),
            remap@,
            indexes@,
        ),
{
    let ghost names = delta::table_names(tables@);
    assert(names.dom() =~= tables@.dom());
    let name = tables.get(&update.id.tablet.0);
    let tablet: TabletId = match remap.get(&update.id.tablet.0) {
        Some(t) => TabletId(*t),
        None => {
            let mut s: String = String::new();
            s.append("Cannot apply replica delta at ts=");
            text::push_dec(&mut s, origin_ts);
            s.append(" because table ");
            match name {
                Some(n) => {
                    s.append("Some(");
                    s.append(n.as_str());
                    s.append(")");
                },
                None => {
                    s.append("None");
                },
            }
            s.append(" (TabletId ");
            text::push_hex32(&mut s, update.id.tablet.0);
            s.append(") is not mapped locally; retry after table metadata is available");
            proof {
                let known = if names.contains_key(update.id.tablet.0) {
                    Some(names[update.id.tablet.0])
                } else {
                    None
                };
                assert(s@ =~= unmapped_table(origin_ts, known, update.id.tablet).text);
            }
            return Err(ReplicaFailure::Retry(CommitError::new(s)));
        },
    };
    let about_index: bool = match name {
        Some(n) => text::same(n.as_str(), INDEX_TABLE),
        None => false,
    };
    assert(about_index == describes_index(*update, names));
    if !about_index {
        return Ok(Some(update.to_remapped(tablet)));
    }
    let cross: bool = mode == ReplicaDeltaApplyMode::CrossPartitionReplica;
    let moved = match index_metadata::remap_index_metadata_update(update, tablet, remap, cross) {
        Ok(u) => u,
        Err(e) => {
            return Err(ReplicaFailure::Broken(e));
        },
    };
    assert(index_metadata::is_remapped_update(*update, moved, tablet, remap@, crosses(mode)));
    match index_metadata::replicated_index_update_is_already_present(indexes, &moved) {
        Ok(present) => {
            if present {
                Ok(None)
            } else {
                Ok(Some(moved))
            }
        },
        Err(e) => Err(ReplicaFailure::Broken(e)),
    }
}

/// A delta on its way into the working snapshot.
#[derive(Debug)]
pub struct ReplicaApply {
    pub mode: ReplicaDeltaApplyMode,
    /// The timestamp the source partition committed at.
    pub remote_ts: u64,
    /// The timestamp the delta is applied at here.
    pub commit_ts: u64,
    /// Where the rows of the `_tables` table are among the delta's updates.
    pub tables_updates: Vec<usize>,
    /// Where the other updates are.
    pub other_updates: Vec<usize>,
    /// The snapshot that the delta is applied to.
    pub base: SnapshotId,
}

/// What is to be done about a delta.
#[derive(Debug)]
pub enum ReplicaPlan {
    /// Nothing: the sender is told this.
    Reply(Result<u64, CommitError>),
    /// The delta has nothing for this node but its timestamp: a
    /// [`HeartbeatFlow`](super::delta_flow::HeartbeatFlow) takes over.
    Heartbeat {
        commit_ts: u64,
        source_partition: PartitionId,
        frontiers: BTreeMap<u32, u64>,
        watermarks: BTreeMap<u32, u64>,
    },
    /// The delta is applied.
    Apply(ReplicaApply),
}

/// What a plan is about, whatever maps and handles it holds.
pub open spec fn is_plan(
    plan: ReplicaPlan,
    before: CommitterState,
    after: CommitterState,
    delta: CommitDelta,
    mode: ReplicaDeltaApplyMode,
    staged: Option<u64>,
    times: ReplicaDeltaTimestamps,
) -> bool {
    let ts = before.delta_ts(staged, times);
    let names = delta::table_names(delta.tables@);
    let updates = delta.document_updates@;
    let tables_updates = positions(mode, updates, names, Share::Table);
    let other_updates = positions(mode, updates, names, Share::Other);
    let raised = before.assigned(super::later(ts, before.last_assigned_ts));
    match before.overtaking_objection(mode, delta.source_partition, ts) {
        Some(e) => {
            &&& plan matches ReplicaPlan::Reply(r)
            &&& super::outcome(r) == Err::<u64, Refusal>(e)
            &&& after == before
        },
        None => if tables_updates.len() == 0 && other_updates.len() == 0 {
            match delta.source_partition {
                None => {
                    &&& plan matches ReplicaPlan::Reply(r)
                    &&& super::outcome(r) == Ok::<u64, Refusal>(ts)
                    &&& after == raised
                },
                Some(p) => {
                    &&& plan matches ReplicaPlan::Heartbeat {
                        commit_ts,
                        source_partition,
                        frontiers,
                        watermarks,
                    }
                    &&& commit_ts == ts
                    &&& source_partition == p
                    &&& frontiers@ == super::raised(before.frontiers, p, ts)
                    &&& watermarks@ == super::raised(before.watermarks, p, delta.ts)
                    &&& after == (CommitterState {
                        watermarks: super::raised(before.watermarks, p, delta.ts),
                        ..raised
                    })
                },
            }
        } else if before.is_duplicate(delta.source_partition, staged, delta.ts) {
            &&& plan matches ReplicaPlan::Reply(r)
            &&& super::outcome(r) == Ok::<u64, Refusal>(delta.ts)
            &&& after == before
        } else {
            &&& plan matches ReplicaPlan::Apply(a)
            &&& a.mode == mode
            &&& a.remote_ts == delta.ts
            &&& a.commit_ts == ts
            &&& a.tables_updates@ == tables_updates
            &&& a.other_updates@ == other_updates
            &&& a.base == before.base_snapshot()
            &&& after == raised
        },
    }
}

impl Committer {
    /// The earliest timestamp at which a prepared transaction is staged.
    pub fn min_prepared_ts(&self) -> (r: Option<u64>)
        ensures
            r == self@.min_prepared_ts(),
    {
        let ghost ids = text_map::in_order(self@.prepared.dom());
        let n: usize = self.prepared.len();
        let mut least: Option<u64> = None;
        let mut i: usize = 0;
        while i < n
            invariant
                i <= n,
                n == ids.len(),
                ids == text_map::in_order(self.prepared@.dom()),
                least == least_staged(ids.take(i as int), self.prepared@),
            decreases n - i,
        {
            assert(ids.take(i + 1).drop_last() =~= ids.take(i as int));
            let ts: u64 = self.prepared.value_at(i).commit_ts;
            least = match least {
                Some(rest) => if ts < rest {
                    Some(ts)
                } else {
                    Some(rest)
                },
                None => Some(ts),
            };
            i += 1;
        }
        assert(ids.take(i as int) =~= ids);
        least
    }

    /// Decides what is done about a delta.
    ///
    /// It is applied in the timestamps of its source: the source's timestamp is a
    /// floor, raised only where local order requires it. A delta of another
    /// partition is not published over a transaction in doubt. One that carries
    /// nothing for this node still says how far its source has come. One that was
    /// applied before is not applied again.
    pub fn apply_replica_delta(&mut self, delta: &CommitDelta, mode: ReplicaDeltaApplyMode) -> (r: Result<
        ReplicaPlan,
        CommitError,
    >)
        ensures
            match old(self)@.staged_for_delta(mode, delta.source_partition, delta.ts) {
                Err(e) => r matches Err(x) && x@ == e && final(self)@ == old(self)@,
                Ok(staged) => match delta_times(
                    delta.ts,
                    old(self)@.latest_ts,
                    old(self)@.last_assigned_ts,
                ) {
                    Err(e) => r matches Err(x) && x@ == e && final(self)@ == old(self)@,
                    Ok(times) => {
                        &&& r matches Ok(plan)
                        &&& is_plan(plan, old(self)@, final(self)@, *delta, mode, staged, times)
                    },
                },
            },
    {
        let local_partition: PartitionId = self.local_partition_for_two_phase();
        let is_local: bool = match delta.source_partition {
            Some(p) => p == local_partition,
            None => false,
        };
        let staged: Option<u64> = if mode == ReplicaDeltaApplyMode::FullRaftState && is_local {
            match self.local_prepared_commit_ts_for_origin(delta.ts) {
                Ok(staged) => staged,
                Err(e) => {
                    return Err(e);
                },
            }
        } else {
            None
        };
        let times: ReplicaDeltaTimestamps = match replica_delta_timestamps(
            delta.ts,
            self.latest_ts,
            self.last_assigned_ts,
        ) {
            Ok(times) => times,
            Err(e) => {
                return Err(e);
            },
        };
        let commit_ts: u64 = match staged {
            Some(ts) => {
                if ts > self.latest_ts && ts > self.last_assigned_ts {
                    ts
                } else {
                    times.local_apply_ts
                }
            },
            None => times.local_apply_ts,
        };
        if mode == ReplicaDeltaApplyMode::CrossPartitionReplica && !is_local {
            if let Some(prepared_ts) = self.min_prepared_ts() {
                if commit_ts >= prepared_ts {
                    let mut s: String = String::new();
                    s.append("Replica delta at ts=");
                    text::push_dec(&mut s, commit_ts);
                    s.append(" would overtake unresolved 2PC prepared transaction at ts=");
                    text::push_dec(&mut s, prepared_ts);
                    s.append("; retry after the prepared transaction commits or rolls back");
                    assert(s@ =~= overtakes(commit_ts, prepared_ts).text);
                    return Ok(ReplicaPlan::Reply(Err(CommitError::new(s))));
                }
            }
        }
        let tables_updates = find_positions(mode, delta, Share::Table);
        let other_updates = find_positions(mode, delta, Share::Other);
        if tables_updates.len() == 0 && other_updates.len() == 0 {
            if commit_ts > self.last_assigned_ts {
                self.last_assigned_ts = commit_ts;
            }
            let source_partition: PartitionId = match delta.source_partition {
                Some(p) => p,
                None => {
                    return Ok(ReplicaPlan::Reply(Ok(commit_ts)));
                },
            };
            let mut frontiers = super::copy_timestamps(&self.frontiers);
            super::raise(&mut frontiers, source_partition, commit_ts);
            super::raise(&mut self.watermarks, source_partition, delta.ts);
            let watermarks = super::copy_timestamps(&self.watermarks);
            return Ok(
                ReplicaPlan::Heartbeat { commit_ts, source_partition, frontiers, watermarks },
            );
        }
        if let Some(p) = delta.source_partition {
            if staged.is_none() {
                if let Some(frontier) = self.data_watermarks.get(&p.0) {
                    if *frontier >= delta.ts {
                        return Ok(ReplicaPlan::Reply(Ok(delta.ts)));
                    }
                }
            }
        }
        if commit_ts > self.last_assigned_ts {
            self.last_assigned_ts = commit_ts;
        }
        let base: SnapshotId = self.base_snapshot_for_new_writes();
        Ok(
            ReplicaPlan::Apply(
                ReplicaApply {
                    mode,
                    remote_ts: delta.ts,
                    commit_ts,
                    tables_updates,
                    other_updates,
                    base,
                },
            ),
        )
    }
}

/// How far a delta has been applied to the working snapshot.
#[derive(Clone, Copy, Debug, PartialEq, Eq, Structural)]
pub enum ReplicaPhase {
    /// Nothing has been looked at.
    Start,
    /// The rows of the `_tables` table, up to this one, have been looked at.
    Tables(usize),
    /// The tables are there, and the other updates, up to this one, have been
    /// looked at.
    Others(usize),
}

/// A delta that is being applied to the working snapshot.
#[derive(Debug)]
pub struct ReplicaCursor {
    pub apply: ReplicaApply,
    pub phase: ReplicaPhase,
    /// Where this node keeps the tables that the delta names.
    pub remap: BTreeMap<u128, u128>,
    /// What has been applied.
    pub applied: Vec<DocumentUpdate>,
}

/// What comes next in applying a delta.
#[derive(Debug)]
pub enum ReplicaStep {
    /// This is to be applied to the working snapshot.
    Apply(DocumentUpdate),
    /// Nothing is to be done for one of the updates.
    Skipped,
    /// The next phase begins.
    Entered,
    /// Everything has been applied.
    Finished,
}

impl ReplicaApply {
    /// The plan is about this delta.
    pub open spec fn is_about(self, delta: CommitDelta) -> bool {
        let names = delta::table_names(delta.tables@);
        &&& self.remote_ts == delta.ts
        &&& self.tables_updates@ == positions(
            self.mode,
            delta.document_updates@,
            names,
            Share::Table,
        )
        &&& self.other_updates@ == positions(
            self.mode,
            delta.document_updates@,
            names,
            Share::Other,
        )
    }
}

/// What one step may do to a cursor and hand out.
pub open spec fn is_replica_step(
    before: ReplicaCursor,
    after: ReplicaCursor,
    r: Result<ReplicaStep, Failure>,
    delta: CommitDelta,
    local: Seq<TableInfo>,
    indexes: Seq<IndexInfo>,
) -> bool {
    let names = delta::table_names(delta.tables@);
    let updates = delta.document_updates@;
    &&& after.apply == before.apply
    &&& match before.phase {
        ReplicaPhase::Start => {
            &&& r == Ok::<ReplicaStep, Failure>(ReplicaStep::Entered)
            &&& after.phase == ReplicaPhase::Tables(0)
            &&& after.remap@ == local_tablets(names, local)
            &&& after.applied@ == before.applied@
        },
        ReplicaPhase::Tables(n) => if n >= before.apply.tables_updates@.len() {
            &&& r == Ok::<ReplicaStep, Failure>(ReplicaStep::Entered)
            &&& after.phase == ReplicaPhase::Others(0)
            &&& after.remap@ == local_tablets(names, local)
            &&& after.applied@ == before.applied@
        } else {
            let u = updates[before.apply.tables_updates@[n as int] as int];
            &&& after.remap@ == before.remap@
            &&& match table_effect(u, before.remap@, local) {
                Err(e) => {
                    &&& r == Err::<ReplicaStep, Failure>(Failure::Broken(e))
                    &&& after.phase == before.phase
                    &&& after.applied@ == before.applied@
                },
                Ok(None) => {
                    &&& r == Ok::<ReplicaStep, Failure>(ReplicaStep::Skipped)
                    &&& after.phase == ReplicaPhase::Tables((n + 1) as usize)
                    &&& after.applied@ == before.applied@
                },
                Ok(Some(u)) => {
                    &&& r == Ok::<ReplicaStep, Failure>(ReplicaStep::Apply(u))
                    &&& after.phase == ReplicaPhase::Tables((n + 1) as usize)
                    &&& after.applied@ == before.applied@.push(u)
                },
            }
        },
        ReplicaPhase::Others(n) => {
            &&& after.remap@ == before.remap@
            &&& if n >= before.apply.other_updates@.len() {
                &&& r == Ok::<ReplicaStep, Failure>(ReplicaStep::Finished)
                &&& after.phase == before.phase
                &&& after.applied@ == before.applied@
            } else {
                let u = updates[before.apply.other_updates@[n as int] as int];
                match r {
                    Err(e) => {
                        &&& is_other_effect(
                            Err(e),
                            u,
                            before.apply.mode,
                            before.apply.remote_ts,
                            names,
                            before.remap@,
                            indexes,
                        )
                        &&& after.phase == before.phase
                        &&& after.applied@ == before.applied@
                    },
                    Ok(ReplicaStep::Skipped) => {
                        &&& is_other_effect(
                            Ok(None),
                            u,
                            before.apply.mode,
                            before.apply.remote_ts,
                            names,
                            before.remap@,
                            indexes,
                        )
                        &&& after.phase == ReplicaPhase::Others((n + 1) as usize)
                        &&& after.applied@ == before.applied@
                    },
                    Ok(ReplicaStep::Apply(a)) => {
                        &&& is_other_effect(
                            Ok(Some(a)),
                            u,
                            before.apply.mode,
                            before.apply.remote_ts,
                            names,
                            before.remap@,
                            indexes,
                        )
                        &&& after.phase == ReplicaPhase::Others((n + 1) as usize)
                        &&& after.applied@ == before.applied@.push(a)
                    },
                    _ => false,
                }
            }
        },
    }
}

/// A step, as contracts speak of it.
pub open spec fn step_of(r: Result<ReplicaStep, ReplicaFailure>) -> Result<ReplicaStep, Failure> {
    match r {
        Ok(s) => Ok(s),
        Err(e) => Err(e@),
    }
}

impl ReplicaCursor {
    /// A delta of which nothing has been looked at.
    pub fn new(apply: ReplicaApply) -> (r: Self)
        ensures
            r.apply == apply,
            r.phase == ReplicaPhase::Start,
            r.applied@ == Seq::<DocumentUpdate>::empty(),
    {
        ReplicaCursor {
            apply,
            phase: ReplicaPhase::Start,
            remap: BTreeMap::new(),
            applied: Vec::new(),
        }
    }

    /// Takes one step: looks at one update, given the tables and indexes of the
    /// working snapshot, or goes on to the next phase.
    ///
    /// Rows of the `_tables` table come first, and where the tables are kept is
    /// looked up again once they are all there.
    pub fn step(&mut self, delta: &CommitDelta, local: &TableMapping, indexes: &Vec<IndexInfo>) -> (r: Result<
        ReplicaStep,
        ReplicaFailure,
    >)
        requires
            old(self).apply.is_about(*delta),
        ensures
            is_replica_step(
                *old(self),
                *final(self),
                step_of(r),
                *delta,
                local.tables@,
                indexes@,
            ),
    {
        let total: usize = delta.document_updates.len();
        proof {
            assert(total == delta.document_updates@.len());
            let names = delta::table_names(delta.tables@);
            lemma_positions_in_range(
                self.apply.mode,
                delta.document_updates@,
                names,
                Share::Table,
            );
            lemma_positions_in_range(
                self.apply.mode,
                delta.document_updates@,
                names,
                Share::Other,
            );
        }
        match self.phase {
            ReplicaPhase::Start => {
                self.remap = build_remap(&delta.tables, local);
                self.phase = ReplicaPhase::Tables(0);
                Ok(ReplicaStep::Entered)
            },
            ReplicaPhase::Tables(n) => {
                if n >= self.apply.tables_updates.len() {
                    self.remap = build_remap(&delta.tables, local);
                    self.phase = ReplicaPhase::Others(0);
                    return Ok(ReplicaStep::Entered);
                }
                let at: usize = self.apply.tables_updates[n];
                assert(at < delta.document_updates@.len());
                match apply_table_update(&delta.document_updates[at], &self.remap, local) {
                    Err(e) => Err(ReplicaFailure::Broken(e)),
                    Ok(None) => {
                        self.phase = ReplicaPhase::Tables(n + 1);
                        Ok(ReplicaStep::Skipped)
                    },
                    Ok(Some(u)) => {
                        self.phase = ReplicaPhase::Tables(n + 1);
                        self.applied.push(u.copy());
                        Ok(ReplicaStep::Apply(u))
                    },
                }
            },
            ReplicaPhase::Others(n) => {
                if n >= self.apply.other_updates.len() {
                    return Ok(ReplicaStep::Finished);
                }
                let at: usize = self.apply.other_updates[n];
                assert(at < delta.document_updates@.len());
                match apply_other_update(
                    &delta.document_updates[at],
                    self.apply.mode,
                    self.apply.remote_ts,
                    &delta.tables,
                    &self.remap,
                    indexes,
                ) {
                    Err(e) => Err(e),
                    Ok(None) => {
                        self.phase = ReplicaPhase::Others(n + 1);
                        Ok(ReplicaStep::Skipped)
                    },
                    Ok(Some(u)) => {
                        self.phase = ReplicaPhase::Others(n + 1);
                        self.applied.push(u.copy());
                        Ok(ReplicaStep::Apply(u))
                    },
                }
            },
        }
    }
}

/// What updates that were applied leave in the document log.
pub open spec fn replica_log(applied: Seq<DocumentUpdate>, ts: u64) -> Seq<DocumentLogEntry> {
    Seq::new(
        applied.len(),
        |i: int|
            DocumentLogEntry {
                ts,
                id: applied[i].id.stored(),
                value: applied[i].new_document,
                prev_ts: None,
            },
    )
}

/// A delta that was applied, on its way to persistence.
#[derive(Debug)]
pub struct QueuedDelta {
    pub document_writes: Vec<DocumentLogEntry>,
    pub index_writes: Vec<IndexEntry>,
    pub frontiers: Option<BTreeMap<u32, u64>>,
    pub watermarks: Option<BTreeMap<u32, u64>>,
    pub data_watermarks: Option<BTreeMap<u32, u64>>,
    /// Whether the delta goes to the outbox, to be published by whoever leads.
    pub records_outbox: bool,
}

fn replica_log_entries(applied: &Vec<DocumentUpdate>, ts: u64) -> (r: Vec<DocumentLogEntry>)
    ensures
        r@ == replica_log(applied@, ts),
{
    let mut r: Vec<DocumentLogEntry> = Vec::new();
    let mut i: usize = 0;
    while i < applied.len()
        invariant
            i <= applied@.len(),
            r@ == replica_log(applied@, ts).take(i as int),
        decreases applied@.len() - i,
    {
        r.push(
            DocumentLogEntry {
                ts,
                id: applied[i].id.stored_id(),
                value: documents::share_document(&applied[i].new_document),
                prev_ts: None,
            },
        );
        assert(r@ =~= replica_log(applied@, ts).take(i + 1));
        i += 1;
    }
    assert(r@ =~= replica_log(applied@, ts));
    r
}

/// What changes of indexes leave in the index log.
pub open spec fn replica_index_log(index_updates: Seq<IndexEntry>, ts: u64) -> Seq<IndexEntry> {
    index_updates.map_values(|e: IndexEntry| IndexEntry { ts, ..e })
}

fn replica_index_entries(index_updates: &Vec<IndexEntry>, ts: u64) -> (r: Vec<IndexEntry>)
    ensures
        r@ == replica_index_log(index_updates@, ts),
{
    let mut r: Vec<IndexEntry> = Vec::new();
    let mut i: usize = 0;
    while i < index_updates.len()
        invariant
            i <= index_updates@.len(),
            r@ == replica_index_log(index_updates@, ts).take(i as int),
        decreases index_updates@.len() - i,
    {
        let e: IndexEntry = index_updates[i].copy();
        r.push(IndexEntry { ts, index_id: e.index_id, key: e.key, value: e.value });
        assert(r@ =~= replica_index_log(index_updates@, ts).take(i + 1));
        i += 1;
    }
    assert(r@ =~= replica_index_log(index_updates@, ts));
    r
}

/// A map that is only there where the delta has a source.
pub open spec fn raised_for(
    r: Option<BTreeMap<u32, u64>>,
    m: Map<u32, u64>,
    source: Option<PartitionId>,
    ts: u64,
) -> bool {
    match (r, source) {
        (Some(b), Some(p)) => b@ == super::raised(m, p, ts),
        (None, None) => true,
        _ => false,
    }
}

impl Committer {
    /// Queues a delta that was applied: says what is written to persistence, and
    /// remembers that the delta was received. `index_updates` is what applying it
    /// changed in the database's indexes, whatever timestamps it carries, and
    /// `has_writes` whether it changes an index that subscriptions read.
    pub fn queue_replica_delta(
        &mut self,
        delta: &CommitDelta,
        apply: &ReplicaApply,
        applied: &Vec<DocumentUpdate>,
        index_updates: &Vec<IndexEntry>,
        snapshot: SnapshotId,
        commit_id: usize,
        has_writes: bool,
    ) -> (r: DeltaFlow)
        requires
            old(self)@.can_queue(commit_id, apply.commit_ts),
        ensures
            r == (DeltaFlow {
                commit_id,
                commit_ts: apply.commit_ts,
                remote_ts: apply.remote_ts,
                source_partition: delta.source_partition,
                snapshot,
                has_writes,
                queued: r.queued,
                stage: DeltaStage::WriteRows,
                committed: None,
                failure: None,
            }),
            r.queued.document_writes@ == replica_log(applied@, apply.commit_ts),
            r.queued.index_writes@ == replica_index_log(index_updates@, apply.commit_ts),
            raised_for(
                r.queued.frontiers,
                old(self)@.frontiers,
                delta.source_partition,
                apply.commit_ts,
            ),
            raised_for(
                r.queued.watermarks,
                old(self)@.watermarks,
                delta.source_partition,
                apply.remote_ts,
            ),
            raised_for(
                r.queued.data_watermarks,
                old(self)@.data_watermarks,
                delta.source_partition,
                apply.remote_ts,
            ),
            r.queued.records_outbox == (apply.mode == ReplicaDeltaApplyMode::FullRaftState
                && delta.source_partition is Some),
            final(self)@ == (CommitterState {
                queued: old(self)@.queued.push(
                    QueuedSnapshot { commit_id, ts: apply.commit_ts, snapshot },
                ),
                watermarks: match delta.source_partition {
                    Some(p) => super::raised(old(self)@.watermarks, p, apply.remote_ts),
                    None => old(self)@.watermarks,
                },
                data_watermarks: match delta.source_partition {
                    Some(p) => super::raised(old(self)@.data_watermarks, p, apply.remote_ts),
                    None => old(self)@.data_watermarks,
                },
                ..old(self)@
            }),
            old(self)@.queue_in_order() ==> final(self)@.queue_in_order(),
    {
        let document_writes = replica_log_entries(applied, apply.commit_ts);
        let index_writes = replica_index_entries(index_updates, apply.commit_ts);
        let records_outbox: bool = apply.mode == ReplicaDeltaApplyMode::FullRaftState
            && delta.source_partition.is_some();
        self.enqueue_snapshot(commit_id, apply.commit_ts, snapshot);
        let queued: QueuedDelta = match delta.source_partition {
            None => QueuedDelta {
                document_writes,
                index_writes,
                frontiers: None,
                watermarks: None,
                data_watermarks: None,
                records_outbox,
            },
            Some(p) => {
                let mut frontiers = super::copy_timestamps(&self.frontiers);
                super::raise(&mut frontiers, p, apply.commit_ts);
                super::raise(&mut self.watermarks, p, apply.remote_ts);
                super::raise(&mut self.data_watermarks, p, apply.remote_ts);
                let watermarks = super::copy_timestamps(&self.watermarks);
                let data_watermarks = super::copy_timestamps(&self.data_watermarks);
                QueuedDelta {
                    document_writes,
                    index_writes,
                    frontiers: Some(frontiers),
                    watermarks: Some(watermarks),
                    data_watermarks: Some(data_watermarks),
                    records_outbox,
                }
            },
        };
        DeltaFlow::start(
            commit_id,
            apply.commit_ts,
            apply.remote_ts,
            delta.source_partition,
            snapshot,
            has_writes,
            queued,
        )
    }
}

proof fn lemma_least_staged(ids: Seq<Seq<char>>, prepared: Map<Seq<char>, PreparedTransaction>, i: int)
    requires
        0 <= i < ids.len(),
    ensures
        least_staged(ids, prepared) matches Some(ts) && ts <= prepared[ids[i]].commit_ts,
    decreases ids.len(),
{
    if i < ids.len() - 1 {
        assert(ids.drop_last()[i] == ids[i]);
        lemma_least_staged(ids.drop_last(), prepared, i);
    }
}

/// A delta is applied no earlier than its source committed it, and after
/// everything that is published or handed out here.
pub proof fn deltas_apply_in_order(state: CommitterState, times: ReplicaDeltaTimestamps, origin_ts: u64)
    requires
        delta_times(origin_ts, state.latest_ts, state.last_assigned_ts) == Ok::<
            ReplicaDeltaTimestamps,
            Refusal,
        >(times),
    ensures
        state.delta_ts(None, times) >= origin_ts,
        state.delta_ts(None, times) > state.latest_ts,
        state.delta_ts(None, times) > state.last_assigned_ts,
        forall|staged: u64| #[trigger]
            state.delta_ts(Some(staged), times) > state.latest_ts && state.delta_ts(
                Some(staged),
                times,
            ) > state.last_assigned_ts,
{
}

/// A delta of another partition that is not refused is applied before every
/// prepared transaction.
pub proof fn deltas_do_not_overtake_prepared_transactions(
    state: CommitterState,
    source: Option<PartitionId>,
    ts: u64,
    id: Seq<char>,
)
    requires
        source != Some(state.local_partition()),
        state.overtaking_objection(ReplicaDeltaApplyMode::CrossPartitionReplica, source, ts) is None,
        state.prepared.dom().finite(),
        state.prepared.contains_key(id),
    ensures
        ts < state.prepared[id].commit_ts,
{
    let ids = text_map::in_order(state.prepared.dom());
    text_map::lemma_in_order(state.prepared.dom());
    assert(ids.to_set().contains(id));
    let i = choose|i: int| 0 <= i < ids.len() && ids[i] == id;
    lemma_least_staged(ids, state.prepared, i);
}

/// A delta that was applied is recognized when it is delivered again.
pub proof fn deltas_are_applied_once(
    state: CommitterState,
    source: PartitionId,
    origin_ts: u64,
)
    ensures
        (CommitterState {
            data_watermarks: super::raised(state.data_watermarks, source, origin_ts),
            ..state
        }).is_duplicate(Some(source), None, origin_ts),
{
}

/// Heartbeats do not make data look as if it had been received.
pub proof fn heartbeats_hide_no_data(state: CommitterState, source: PartitionId, heartbeat_ts: u64, origin_ts: u64)
    ensures
        (CommitterState {
            watermarks: super::raised(state.watermarks, source, heartbeat_ts),
            ..state
        }).is_duplicate(Some(source), None, origin_ts) == state.is_duplicate(
            Some(source),
            None,
            origin_ts,
        ),
{
}

/// Another partition's copy never gets state that is local to a node: what it is
/// given describes tables, or belongs to a table that every node needs or that
/// is a user's.
pub proof fn cross_partition_replicas_get_no_local_state(u: DocumentUpdate, tables: Map<u128, Seq<char>>)
    requires
        share_of(ReplicaDeltaApplyMode::CrossPartitionReplica, u, tables) == Share::Other,
    ensures
        tables.contains_key(u.id.tablet.0),
        is_replicated(tables[u.id.tablet.0]) || tables[u.id.tablet.0] == INDEX_TABLE@,
{
}

/// A follower that may come to lead leaves nothing out.
pub proof fn raft_followers_get_everything(u: DocumentUpdate, tables: Map<u128, Seq<char>>)
    ensures
        share_of(ReplicaDeltaApplyMode::FullRaftState, u, tables) != Share::Skipped,
{
}

/// The timestamps of a delta: the source's is kept, and the one here is the first
/// that is not before the source's and after everything local.
pub proof fn deltas_are_applied_as_early_as_possible(origin_ts: u64, latest_ts: u64, last_assigned_ts: u64)
    ensures
        delta_times(origin_ts, latest_ts, last_assigned_ts) is Err <==> latest_ts
            >= 0x7fff_ffff_ffff_ffff || last_assigned_ts >= 0x7fff_ffff_ffff_ffff,
        delta_times(origin_ts, latest_ts, last_assigned_ts) matches Ok(t) ==> {
            &&& t.origin_ts == origin_ts
            &&& t.local_apply_ts >= origin_ts
            &&& t.local_apply_ts > latest_ts
            &&& t.local_apply_ts > last_assigned_ts
            &&& t.local_apply_ts == origin_ts || t.local_apply_ts == latest_ts + 1
                || t.local_apply_ts == last_assigned_ts + 1
        },
{
}

/// A delta that commits a transaction prepared here is applied where that is staged,
/// as long as that is not past; any other as early as possible.
pub proof fn committing_deltas_are_applied_where_staged(
    state: CommitterState,
    staged: u64,
    times: ReplicaDeltaTimestamps,
)
    ensures
        state.delta_ts(None, times) == times.local_apply_ts,
        staged > state.latest_ts && staged > state.last_assigned_ts ==> state.delta_ts(
            Some(staged),
            times,
        ) == staged,
        !(staged > state.latest_ts && staged > state.last_assigned_ts) ==> state.delta_ts(
            Some(staged),
            times,
        ) == times.local_apply_ts,
{
}

/// Only a follower of the delta's own partition looks for a transaction that the
/// delta commits, among those prepared for the delta's timestamp.
pub proof fn only_followers_commit_by_delta(
    state: CommitterState,
    mode: ReplicaDeltaApplyMode,
    source: Option<PartitionId>,
    origin_ts: u64,
)
    ensures
        mode == ReplicaDeltaApplyMode::FullRaftState && source == Some(state.local_partition())
            ==> state.staged_for_delta(mode, source, origin_ts) == state.staged_ts(origin_ts),
        mode == ReplicaDeltaApplyMode::CrossPartitionReplica || source != Some(
            state.local_partition(),
        ) ==> state.staged_for_delta(mode, source, origin_ts) == Ok::<Option<u64>, Refusal>(None),
{
}

proof fn lemma_least_staged_is_staged(ids: Seq<Seq<char>>, prepared: Map<Seq<char>, PreparedTransaction>)
    ensures
        least_staged(ids, prepared) is None <==> ids.len() == 0,
        least_staged(ids, prepared) matches Some(ts) ==> exists|i: int|
            0 <= i < ids.len() && prepared[#[trigger] ids[i]].commit_ts == ts,
    decreases ids.len(),
{
    if ids.len() > 0 {
        let front = ids.drop_last();
        lemma_least_staged_is_staged(front, prepared);
        assert(ids[ids.len() - 1] == ids.last());
        if front.len() > 0 {
            let ts = least_staged(front, prepared)->0;
            let i = choose|i: int|
                0 <= i < front.len() && prepared[#[trigger] front[i]].commit_ts == ts;
            assert(ids[i] == front[i]);
        }
    }
}

/// A delta is refused for overtaking exactly where it comes from another partition
/// and a prepared transaction is staged no later than it would be applied.
pub proof fn deltas_are_refused_for_overtaking(
    state: CommitterState,
    mode: ReplicaDeltaApplyMode,
    source: Option<PartitionId>,
    ts: u64,
)
    requires
        state.prepared.dom().finite(),
    ensures
        state.overtaking_objection(mode, source, ts) is Some <==> {
            &&& mode == ReplicaDeltaApplyMode::CrossPartitionReplica
            &&& source != Some(state.local_partition())
            &&& exists|id: Seq<char>| #[trigger]
                state.prepared.contains_key(id) && state.prepared[id].commit_ts <= ts
        },
{
    let ids = text_map::in_order(state.prepared.dom());
    text_map::lemma_in_order(state.prepared.dom());
    lemma_least_staged_is_staged(ids, state.prepared);
    if let Some(least) = state.min_prepared_ts() {
        let i = choose|i: int|
            0 <= i < ids.len() && state.prepared[#[trigger] ids[i]].commit_ts == least;
        assert(ids.to_set().contains(ids[i]));
        assert(state.prepared.contains_key(ids[i]));
    }
    assert forall|id: Seq<char>| #[trigger] state.prepared.contains_key(id) implies (
    state.min_prepared_ts() matches Some(least) && least <= state.prepared[id].commit_ts) by {
        assert(ids.to_set().contains(id));
        let i = choose|i: int| 0 <= i < ids.len() && ids[i] == id;
        lemma_least_staged(ids, state.prepared, i);
    }
}

/// A delta counts as applied before exactly where data of its source has been
/// received up to its timestamp and it commits nothing that is prepared here.
pub proof fn duplicates_are_known_by_their_timestamp(
    state: CommitterState,
    source: Option<PartitionId>,
    staged: Option<u64>,
    origin_ts: u64,
)
    ensures
        state.is_duplicate(source, staged, origin_ts) <==> {
            &&& source matches Some(p) && state.data_watermarks.contains_key(p.0)
                && state.data_watermarks[p.0] >= origin_ts
            &&& staged is None
        },
{
}

/// A description of a table comes first; a user's data and what every node needs are
/// applied everywhere; the description of an index goes where its table goes; and the
/// rest of the system's tables only to followers of the same partition.
pub proof fn updates_are_shared_by_what_they_are_about(u: DocumentUpdate, tables: Map<u128, Seq<char>>)
    requires
        tables.contains_key(u.id.tablet.0),
        tables[u.id.tablet.0].len() > 0,
    ensures
        ({
            let name = tables[u.id.tablet.0];
            let across = share_of(ReplicaDeltaApplyMode::CrossPartitionReplica, u, tables);
            let follower = share_of(ReplicaDeltaApplyMode::FullRaftState, u, tables);
            &&& name == "_tables"@ ==> across == Share::Table && follower == Share::Table
            &&& name != "_tables"@ ==> follower == Share::Other
            &&& name[0] != '_' ==> across == Share::Other
            &&& name == "_modules"@ || name == "_udf_config"@ || name == "_source_packages"@
                ==> across == Share::Other
            &&& name[0] == '_' && name != "_tables"@ && name != "_index"@ && name != "_modules"@
                && name != "_udf_config"@ && name != "_source_packages"@ ==> across
                == Share::Skipped
            &&& name == "_index"@ ==> match u.new_document {
                None => across == Share::Skipped,
                Some(d) => d.content matches Content::Index(m) ==> {
                    &&& !tables.contains_key(m.table.0) ==> across == Share::Skipped
                    &&& tables.contains_key(m.table.0) && tables[m.table.0].len() > 0 ==> {
                        let about = tables[m.table.0];
                        across == if about[0] != '_' || about == "_modules"@ || about
                            == "_udf_config"@ || about == "_source_packages"@ {
                            Share::Other
                        } else {
                            Share::Skipped
                        }
                    }
                },
            }
        }),
{
    reveal_strlit("_tables");
    reveal_strlit("_index");
    reveal_strlit("_modules");
    reveal_strlit("_udf_config");
    reveal_strlit("_source_packages");
    assert("_tables"@[0] == '_' && "_index"@[0] == '_');
    assert("_tables"@[1] == 't' && "_modules"@[1] == 'm' && "_udf_config"@[1] == 'u'
        && "_source_packages"@[1] == 's' && "_index"@[1] == 'i');
}

/// Updates of one kind are found, all of them, in order.
pub proof fn updates_are_found_in_order(
    mode: ReplicaDeltaApplyMode,
    updates: Seq<DocumentUpdate>,
    tables: Map<u128, Seq<char>>,
    wanted: Share,
    i: int,
)
    requires
        updates.len() <= usize::MAX,
        0 <= i < updates.len(),
    ensures
        positions(mode, updates, tables, wanted).contains(i as usize) <==> share_of(
            mode,
            updates[i],
            tables,
        ) == wanted,
        forall|a: int, b: int|
            0 <= a < b < positions(mode, updates, tables, wanted).len() ==> (#[trigger] positions(
                mode,
                updates,
                tables,
                wanted,
            )[a]) < (#[trigger] positions(mode, updates, tables, wanted)[b]),
    decreases updates.len(),
{
    let front = updates.drop_last();
    let rest = positions(mode, front, tables, wanted);
    let all = positions(mode, updates, tables, wanted);
    let n = updates.len() - 1;
    lemma_positions_in_range(mode, front, tables, wanted);
    if front.len() > 0 {
        updates_are_found_in_order(
            mode,
            front,
            tables,
            wanted,
            if i < n {
                i
            } else {
                0
            },
        );
    }
    if i < n {
        assert(front[i] == updates[i]);
        if rest.contains(i as usize) {
            let k = choose|k: int| 0 <= k < rest.len() && rest[k] == i as usize;
            assert(all[k] == i as usize);
        }
        if all.contains(i as usize) {
            let k = choose|k: int| 0 <= k < all.len() && all[k] == i as usize;
            if k < rest.len() {
                assert(rest[k] == i as usize);
            }
        }
    } else {
        if share_of(mode, updates[i], tables) == wanted {
            assert(all[rest.len() as int] == i as usize);
        } else if all.contains(i as usize) {
            let k = choose|k: int| 0 <= k < all.len() && all[k] == i as usize;
            assert(rest[k] < front.len());
        }
    }
    assert forall|a: int, b: int| 0 <= a < b < all.len() implies (#[trigger] all[a]) < (
    #[trigger] all[b]) by {
        if b < rest.len() {
            assert(rest[a] < rest[b]);
        } else {
            assert(rest[a] < front.len());
        }
    }
}

/// A table of a delta is kept where this node has the active table of the same name,
/// and nowhere where it has none.
pub proof fn tables_are_kept_under_their_names(tables: Map<u128, Seq<char>>, local: Seq<TableInfo>, t: u128)
    ensures
        local_tablets(tables, local).contains_key(t) ==> {
            &&& tables.contains_key(t)
            &&& documents::called(local, tables[t]) matches Some(found)
                && local_tablets(tables, local)[t] == found.tablet.0
        },
        tables.contains_key(t) && documents::called(local, tables[t]) is Some ==> local_tablets(
            tables,
            local,
        ).contains_key(t),
{
}

/// A table is created unless it is there, is refused where it is there with another
/// number, and what is created is what the source created.
pub proof fn tables_are_created_once(
    u: DocumentUpdate,
    remap: Map<u128, u128>,
    local: Seq<TableInfo>,
    row: Document,
    m: documents::TableMetadata,
)
    requires
        remap.contains_key(u.id.tablet.0),
        u.new_document matches Some(d) && *d == row,
        row.content matches Content::Table(t) && *t == m,
    ensures
        match documents::called_in(local, m.namespace, m.name@) {
            Some(t) => {
                &&& t.number == m.number ==> table_effect(u, remap, local) == Ok::<
                    Option<DocumentUpdate>,
                    Refusal,
                >(None)
                &&& t.number != m.number ==> table_effect(u, remap, local) is Err
            },
            None => {
                &&& table_effect(u, remap, local) matches Ok(Some(a))
                &&& a.id.tablet.0 == remap[u.id.tablet.0]
                &&& a.id.internal == u.id.internal
                &&& documents::differs_in_table_only(
                    u.new_document,
                    a.new_document,
                    TabletId(remap[u.id.tablet.0]),
                )
                &&& documents::differs_in_table_only(
                    u.old_document,
                    a.old_document,
                    TabletId(remap[u.id.tablet.0]),
                )
            },
        },
{
}

/// A table that goes at its source goes here too.
pub proof fn tables_that_go_go_everywhere(u: DocumentUpdate, remap: Map<u128, u128>, local: Seq<TableInfo>)
    requires
        remap.contains_key(u.id.tablet.0),
        u.new_document is None,
    ensures
        table_effect(u, remap, local) matches Ok(Some(a)) && a.new_document is None && a.id.internal
            == u.id.internal && a.id.tablet.0 == remap[u.id.tablet.0]
            && documents::differs_in_table_only(
            u.old_document,
            a.old_document,
            TabletId(remap[u.id.tablet.0]),
        ),
{
}

/// An update of a table's data is applied as the source committed it, in this node's
/// own table, and waits where this node has no such table yet.
pub proof fn data_is_applied_as_committed(
    r: Result<Option<DocumentUpdate>, Failure>,
    u: DocumentUpdate,
    mode: ReplicaDeltaApplyMode,
    origin_ts: u64,
    tables: Map<u128, Seq<char>>,
    remap: Map<u128, u128>,
    indexes: Seq<IndexInfo>,
)
    requires
        is_other_effect(r, u, mode, origin_ts, tables, remap, indexes),
    ensures
        !remap.contains_key(u.id.tablet.0) ==> r matches Err(Failure::Retry(_)),
        remap.contains_key(u.id.tablet.0) && !(tables.contains_key(u.id.tablet.0)
            && tables[u.id.tablet.0] == "_index"@) ==> {
            &&& r matches Ok(Some(a))
            &&& a.id.tablet.0 == remap[u.id.tablet.0]
            &&& a.id.internal == u.id.internal
            &&& a.id.number == u.id.number
            &&& documents::differs_in_table_only(
                u.new_document,
                a.new_document,
                TabletId(remap[u.id.tablet.0]),
            )
            &&& documents::differs_in_table_only(
                u.old_document,
                a.old_document,
                TabletId(remap[u.id.tablet.0]),
            )
        },
{
}

/// A description of an index that is applied describes the same index, of this
/// node's own table, and is left out only where the node has the index.
pub proof fn descriptions_of_indexes_are_applied(
    r: Result<Option<DocumentUpdate>, Failure>,
    u: DocumentUpdate,
    mode: ReplicaDeltaApplyMode,
    origin_ts: u64,
    tables: Map<u128, Seq<char>>,
    remap: Map<u128, u128>,
    indexes: Seq<IndexInfo>,
)
    requires
        is_other_effect(r, u, mode, origin_ts, tables, remap, indexes),
        tables.contains_key(u.id.tablet.0),
        tables[u.id.tablet.0] == "_index"@,
    ensures
        r matches Ok(Some(a)) ==> index_metadata::is_remapped_update(
            u,
            a,
            TabletId(remap[u.id.tablet.0]),
            remap,
            mode == ReplicaDeltaApplyMode::CrossPartitionReplica,
        ),
        r matches Ok(None) ==> exists|moved: DocumentUpdate|
            index_metadata::is_remapped_update(
                u,
                moved,
                TabletId(remap[u.id.tablet.0]),
                remap,
                mode == ReplicaDeltaApplyMode::CrossPartitionReplica,
            ) && #[trigger] index_metadata::already_present(indexes, moved) == Ok::<bool, Refusal>(
                true,
            ),
{
}

/// What is handed out is what is remembered as applied, one at a time and in order,
/// and nothing is finished before every update has been looked at.
pub proof fn cursors_remember_what_they_hand_out(
    before: ReplicaCursor,
    after: ReplicaCursor,
    r: Result<ReplicaStep, Failure>,
    delta: CommitDelta,
    local: Seq<TableInfo>,
    indexes: Seq<IndexInfo>,
)
    requires
        is_replica_step(before, after, r, delta, local, indexes),
    ensures
        r matches Ok(ReplicaStep::Apply(a)) ==> after.applied@ == before.applied@.push(a),
        !(r matches Ok(ReplicaStep::Apply(_))) ==> after.applied@ == before.applied@,
        r matches Ok(ReplicaStep::Finished) ==> (before.phase matches ReplicaPhase::Others(n) && n
            >= before.apply.other_updates@.len()),
        after.phase matches ReplicaPhase::Others(_) ==> (before.phase matches ReplicaPhase::Others(_))
            || (before.phase matches ReplicaPhase::Tables(n) && n
            >= before.apply.tables_updates@.len()),
        r is Err ==> after.phase == before.phase,
        after.apply == before.apply,
        (r matches Ok(ReplicaStep::Apply(_)) || r matches Ok(ReplicaStep::Skipped))
            ==> match before.phase {
            ReplicaPhase::Tables(n) => after.phase == ReplicaPhase::Tables((n + 1) as usize),
            ReplicaPhase::Others(n) => after.phase == ReplicaPhase::Others((n + 1) as usize),
            ReplicaPhase::Start => false,
        },
{
}

/// An update of a table's data that a cursor hands out is the one of the delta whose
/// turn it is, as the source committed it, in this node's own table.
pub proof fn cursors_hand_out_what_was_committed(
    before: ReplicaCursor,
    after: ReplicaCursor,
    a: DocumentUpdate,
    delta: CommitDelta,
    local: Seq<TableInfo>,
    indexes: Seq<IndexInfo>,
    n: usize,
)
    requires
        is_replica_step(before, after, Ok(ReplicaStep::Apply(a)), delta, local, indexes),
        before.phase == ReplicaPhase::Others(n),
        ({
            let u = delta.document_updates@[before.apply.other_updates@[n as int] as int];
            let names = delta::table_names(delta.tables@);
            !(names.contains_key(u.id.tablet.0) && names[u.id.tablet.0] == "_index"@)
        }),
    ensures
        ({
            let u = delta.document_updates@[before.apply.other_updates@[n as int] as int];
            let tablet = TabletId(before.remap@[u.id.tablet.0]);
            &&& before.remap@.contains_key(u.id.tablet.0)
            &&& a.id.tablet == tablet
            &&& a.id.internal == u.id.internal
            &&& documents::differs_in_table_only(u.new_document, a.new_document, tablet)
            &&& documents::differs_in_table_only(u.old_document, a.old_document, tablet)
        }),
{
}

/// What was applied goes to the document log as it was applied: each document or its
/// absence, where it is stored, at the timestamp the delta is applied at.
pub proof fn applied_updates_are_logged(
    applied: Seq<DocumentUpdate>,
    index_updates: Seq<IndexEntry>,
    ts: u64,
    i: int,
)
    ensures
        replica_log(applied, ts).len() == applied.len(),
        0 <= i < applied.len() ==> {
            let e = replica_log(applied, ts)[i];
            &&& e.value == applied[i].new_document
            &&& e.id.tablet == applied[i].id.tablet
            &&& e.id.internal == applied[i].id.internal
            &&& e.ts == ts
        },
        replica_index_log(index_updates, ts).len() == index_updates.len(),
        0 <= i < index_updates.len() ==> {
            let e = replica_index_log(index_updates, ts)[i];
            &&& e.index_id == index_updates[i].index_id
            &&& e.key == index_updates[i].key
            &&& e.value == index_updates[i].value
            &&& e.ts == ts
        },
{
}

/// What is decided about a delta: one that would overtake is refused and changes
/// nothing; one with nothing for this node still says how far its source has come;
/// one that was applied before is answered and not applied again; any other is
/// applied, on the newest snapshot, at a timestamp that no later commit takes.
pub proof fn plans_follow_from_the_delta(
    plan: ReplicaPlan,
    before: CommitterState,
    after: CommitterState,
    delta: CommitDelta,
    mode: ReplicaDeltaApplyMode,
    staged: Option<u64>,
    times: ReplicaDeltaTimestamps,
)
    requires
        is_plan(plan, before, after, delta, mode, staged, times),
    ensures
        before.overtaking_objection(
            mode,
            delta.source_partition,
            before.delta_ts(staged, times),
        ) is Some ==> (plan matches ReplicaPlan::Reply(Err(_))) && after == before,
        plan matches ReplicaPlan::Reply(Ok(ts)) ==> {
            ||| delta.source_partition is None && ts == before.delta_ts(staged, times)
            ||| before.is_duplicate(delta.source_partition, staged, delta.ts) && ts == delta.ts
                && after == before
        },
        plan matches ReplicaPlan::Heartbeat { commit_ts, source_partition, frontiers, watermarks } ==> {
            &&& delta.source_partition == Some(source_partition)
            &&& commit_ts == before.delta_ts(staged, times)
            &&& frontiers@.contains_key(source_partition.0) && frontiers@[source_partition.0]
                >= commit_ts
            &&& watermarks@.contains_key(source_partition.0) && watermarks@[source_partition.0]
                >= delta.ts
            &&& after.watermarks == watermarks@
            &&& after.data_watermarks == before.data_watermarks
            &&& after.latest_ts == before.latest_ts
        },
        plan matches ReplicaPlan::Apply(a) ==> {
            &&& a.mode == mode
            &&& a.remote_ts == delta.ts
            &&& a.commit_ts == before.delta_ts(staged, times)
            &&& a.base == before.base_snapshot()
            &&& !before.is_duplicate(delta.source_partition, staged, delta.ts)
            &&& after.last_assigned_ts >= a.commit_ts
            &&& after == (CommitterState { last_assigned_ts: after.last_assigned_ts, ..before })
            &&& a.is_about(delta)
        },
{
}

/// What is recorded of a delta's source is at least the delta's timestamp, nothing
/// that was known goes back, and a delta without a source records nothing.
pub proof fn recorded_marks_never_go_back(
    r: Option<BTreeMap<u32, u64>>,
    m: Map<u32, u64>,
    source: Option<PartitionId>,
    ts: u64,
    other: u32,
)
    requires
        raised_for(r, m, source, ts),
    ensures
        r is Some <==> source is Some,
        (r matches Some(after) && source matches Some(p)) ==> {
            let after = r->0@;
            let p = source->0;
            &&& after.contains_key(p.0) && after[p.0] >= ts
            &&& m.contains_key(p.0) ==> after[p.0] >= m[p.0]
            &&& after[p.0] == ts || (m.contains_key(p.0) && after[p.0] == m[p.0])
            &&& other != p.0 ==> after.contains_key(other) == m.contains_key(other)
            &&& other != p.0 && m.contains_key(other) ==> after[other] == m[other]
        },
{
}

/// A delta that is refused is named with its own timestamp or number and with what is
/// in its way.
pub proof fn refused_deltas_are_named(
    ts: u64,
    prepared_ts: u64,
    name: Seq<char>,
    number: u32,
    local: u32,
)
    ensures
        overtakes(ts, prepared_ts).text == "Replica delta at ts="@ + text::dec(ts as nat)
            + " would overtake unresolved 2PC prepared transaction at ts="@
            + text::dec(prepared_ts as nat)
            + "; retry after the prepared transaction commits or rolls back"@,
        overtakes(ts, prepared_ts).occ is None,
        different_number(name, number, local).text == "Replicated table '"@ + name
            + "' has table number "@ + text::dec(number as nat) + " but local table uses "@
            + text::dec(local as nat),
        different_number(name, number, local).occ is None,
{
}

} // verus!
