//! What the committer's clients do before and after they ask it for something.
use super::routing;
use super::{CommitError, Refusal};
use crate::documents::{DocumentId, ReadSet, StoredId, TableInfo, TableMapping};
use crate::documents;
use crate::metrics;
use crate::metrics::{ErrorClass, ErrorMetadata, MetricsRecorder};
use crate::names;
use crate::names::{TableName, WriteSource};
use crate::ordered;
use crate::partition;
use crate::partition::{
    PartitionId, PartitionMap, Placement, PlacementError, PlacementMetadata, PlacementVersion,
};
use crate::placement;
use crate::placement::{PlacementRefreshTarget, PlacementState};
use crate::text;
use crate::two_phase::NodeAddresses;
use crate::two_phase_coordinator::{Classification, TransactionClassification};
use std::collections::BTreeMap;
use vstd::prelude::*;
use vstd::string::*;

verus! {

broadcast use {vstd::std_specs::btree::group_btree_axioms, vstd::laws_cmp::group_laws_cmp};

/// What a client of the committer knows of the cluster.
#[derive(Debug)]
pub struct CommitterClient {
    pub placement: Option<PlacementState>,
    /// The addresses that were configured at startup.
    pub node_addresses: Option<NodeAddresses>,
}

/// Said where a request was routed by another placement.
pub open spec fn version_mismatch(requested: PlacementVersion, local: PlacementVersion) -> Refusal {
    super::refused(
        "Placement version mismatch: request used "@ + requested.text() + ", local node is on "@
            + local.text() + ". Refresh placement metadata before retrying the write."@,
    )
}

impl CommitterClient {
    /// The placement, as contracts speak of it.
    pub open spec fn placed(self) -> Option<(PartitionId, Placement)> {
        match self.placement {
            Some(p) => Some(p@),
            None => None,
        }
    }

    /// The version of the placement in use.
    pub open spec fn version(self) -> PlacementVersion {
        match self.placement {
            Some(p) => p@.1.version,
            None => PlacementVersion(0),
        }
    }

    /// The addresses that two-phase commits use.
    pub open spec fn addresses(self) -> Option<Map<u32, Seq<Seq<char>>>> {
        let configured = match self.node_addresses {
            Some(a) => Some(a@),
            None => None,
        };
        match self.placement {
            Some(p) => if p@.1.members.dom().is_empty() {
                configured
            } else {
                Some(p@.1.members)
            },
            None => configured,
        }
    }

    /// The partition this node acts for.
    pub fn local_partition(&self) -> (r: Option<PartitionId>)
        ensures
            r == match self.placed() {
                Some(p) => Some(p.0),
                None => None,
            },
    {
        match &self.placement {
            Some(p) => Some(p.local_partition()),
            None => None,
        }
    }

    /// The addresses that two-phase commits use.
    ///
    /// Where the replicated placement record lists the cluster's members, it is
    /// preferred to what was configured at startup: a partition that is added can
    /// be reached as soon as the record says so. What was configured stands in
    /// until a record lists members.
    pub fn effective_node_addresses(&self) -> (r: Option<NodeAddresses>)
        ensures
            match r {
                Some(a) => self.addresses() == Some(a@),
                None => self.addresses() is None,
            },
    {
        if let Some(p) = &self.placement {
            if let Some(a) = p.node_addresses() {
                return Some(a);
            }
        }
        match &self.node_addresses {
            Some(a) => Some(a.copy()),
            None => None,
        }
    }

    /// The version of the placement in use.
    pub fn placement_version(&self) -> (r: PlacementVersion)
        ensures
            r == self.version(),
    {
        match &self.placement {
            Some(p) => p.placement_version(),
            None => PlacementVersion(0),
        }
    }

    /// Adopts a newer placement.
    pub fn refresh_placement_metadata(&mut self, metadata: PlacementMetadata) -> (r: Result<
        (),
        PlacementError,
    >)
        ensures
            r == match old(self).placed() {
                Some(p) => placement::checked_refresh(p.0, p.1, metadata@),
                None => Err::<(), PlacementError>(PlacementError::SinglePartition),
            },
            match r {
                Ok(()) => final(self).placed() == (match old(self).placed() {
                    Some(p) => Some((p.0, metadata@)),
                    None => None,
                }) && final(self).node_addresses == old(self).node_addresses,
                Err(_) => *final(self) == *old(self),
            },
    {
        match self.placement.take() {
            None => Err(PlacementError::SinglePartition),
            Some(mut p) => {
                let r = p.refresh(metadata);
                self.placement = Some(p);
                r
            },
        }
    }

    /// Refuses a request that was routed by another version of the placement than
    /// this node's.
    pub fn ensure_placement_version(&self, requested: PlacementVersion) -> (r: Result<(), CommitError>)
        ensures
            routing::objection(r) == if self.version() == requested {
                None
            } else {
                Some(version_mismatch(requested, self.version()))
            },
    {
        let local: PlacementVersion = self.placement_version();
        if local == requested {
            return Ok(());
        }
        let mut s: String = String::new();
        s.append("Placement version mismatch: request used ");
        requested.push_to(&mut s);
        s.append(", local node is on ");
        local.push_to(&mut s);
        s.append(". Refresh placement metadata before retrying the write.");
        assert(s@ =~= version_mismatch(requested, local).text);
        Err(CommitError::new(s))
    }
}

impl PlacementRefreshTarget for CommitterClient {
    open spec fn version_in_use(&self) -> PlacementVersion {
        self.version()
    }

    open spec fn placement_in_use(&self) -> Option<(PartitionId, Placement)> {
        self.placed()
    }

    open spec fn verdict(&self, next: Placement) -> Result<(), PlacementError> {
        match self.placed() {
            Some(p) => placement::checked_refresh(p.0, p.1, next),
            None => Err(PlacementError::SinglePartition),
        }
    }

    fn current_placement_version(&self) -> (r: PlacementVersion) {
        self.placement_version()
    }

    fn install_placement_metadata(&mut self, metadata: PlacementMetadata) -> (r: Result<
        (),
        PlacementError,
    >) {
        self.refresh_placement_metadata(metadata)
    }
}

/// What a transaction has to wait for.
#[derive(Debug)]
pub struct FrontierWait {
    /// The other partitions that the transaction read.
    pub required: Vec<u32>,
    /// Those of them that cannot be read at the transaction's timestamp yet.
    pub waits: Vec<(PartitionId, u64)>,
}

/// Decides what a transaction has to wait for before it commits.
pub fn remote_read_waits(
    partition_map: Option<&PartitionMap>,
    frontiers: &BTreeMap<u32, u64>,
    begin_ts: u64,
    reads: &ReadSet,
    table_mapping: &TableMapping,
    write_source: &WriteSource,
) -> (r: FrontierWait)
    ensures
        match partition_map {
            None => r.required@.len() == 0 && r.waits@.len() == 0,
            Some(map) => {
                let owners = routing::remote_owners(
                    reads.tablets(),
                    table_mapping.tables@,
                    map@,
                    write_source@,
                );
                &&& r.required@ == ordered::ascending_u32(owners)
                &&& r.waits@ == routing::stale_in(
                    ordered::ascending_u32(owners),
                    frontiers@,
                    begin_ts,
                )
            },
        },
{
    match partition_map {
        None => FrontierWait { required: Vec::new(), waits: Vec::new() },
        Some(map) => {
            let partitions = routing::remote_read_partitions(
                reads,
                table_mapping,
                map,
                write_source,
            );
            let waits = routing::stale_replica_frontiers(
                frontiers,
                begin_ts,
                reads,
                table_mapping,
                map,
                write_source,
            );
            FrontierWait { required: ordered::members_u32(&partitions), waits }
        },
    }
}

/// How partitions are listed in a message.
pub open spec fn partitions_text(partitions: Seq<u32>) -> Seq<char>
    decreases partitions.len(),
{
    if partitions.len() == 0 {
        Seq::empty()
    } else if partitions.len() == 1 {
        "PartitionId("@ + text::dec(partitions[0] as nat) + ")"@
    } else {
        partitions_text(partitions.drop_last()) + ", PartitionId("@ + text::dec(
            partitions.last() as nat,
        ) + ")"@
    }
}

/// Said to a transaction that waited in vain.
pub open spec fn wait_timed_out(timeout: Seq<char>, begin_ts: u64, partitions: Seq<u32>) -> Refusal {
    super::refused(
        "Timed out after "@ + timeout + " waiting for remote read frontiers to reach begin_ts="@
            + text::dec(begin_ts as nat) + " on partitions {"@ + partitions_text(partitions) + "}"@,
    )
}

fn push_partitions(s: &mut String, partitions: &Vec<u32>)
    ensures
        final(s)@ == old(s)@ + partitions_text(partitions@),
{
    let ghost start = s@;
    let mut i: usize = 0;
    assert(s@ =~= start + partitions_text(partitions@.take(0)));
    while i < partitions.len()
        invariant
            i <= partitions@.len(),
            s@ == start + partitions_text(partitions@.take(i as int)),
        decreases partitions@.len() - i,
    {
        let ghost before = s@;
        if i > 0 {
            s.append(", PartitionId(");
        } else {
            s.append("PartitionId(");
        }
        text::push_dec(s, partitions[i] as u64);
        s.append(")");
        assert(partitions@.take(i + 1).drop_last() =~= partitions@.take(i as int));
        assert(s@ =~= start + partitions_text(partitions@.take(i + 1)));
        i += 1;
    }
    assert(partitions@.take(i as int) =~= partitions@);
}

/// Takes in how a wait for other partitions ended, and measures it.
pub fn finish_remote_read_wait(
    metrics: &mut MetricsRecorder,
    nanos: u64,
    timed_out: bool,
    timeout: &str,
    begin_ts: u64,
    required: &Vec<u32>,
) -> (r: Result<(), CommitError>)
    ensures
        routing::objection(r) == if timed_out {
            Some(wait_timed_out(timeout@, begin_ts, required@))
        } else {
            None
        },
        final(metrics)@ == old(metrics)@ + if timed_out {
            seq![
                metrics::timed(
                    "DATABASE_REMOTE_READ_FRONTIER_WAIT_SECONDS"@,
                    nanos as int,
                    seq![("outcome"@, "timeout"@)],
                ),
                metrics::counted(
                    "DATABASE_REMOTE_READ_FRONTIER_WAIT_TIMEOUTS_TOTAL"@,
                    1,
                    metrics::unlabelled(),
                ),
            ]
        } else {
            seq![
                metrics::timed(
                    "DATABASE_REMOTE_READ_FRONTIER_WAIT_SECONDS"@,
                    nanos as int,
                    seq![("outcome"@, "success"@)],
                ),
            ]
        },
{
    let ghost before = metrics@;
    if !timed_out {
        metrics::log_remote_read_frontier_wait_seconds(metrics, "success", nanos);
        assert(metrics@ =~= before + seq![
            metrics::timed(
                "DATABASE_REMOTE_READ_FRONTIER_WAIT_SECONDS"@,
                nanos as int,
                seq![("outcome"@, "success"@)],
            ),
        ]);
        return Ok(());
    }
    metrics::log_remote_read_frontier_wait_seconds(metrics, "timeout", nanos);
    metrics::log_remote_read_frontier_wait_timeout(metrics);
    assert(metrics@ =~= before + seq![
        metrics::timed(
            "DATABASE_REMOTE_READ_FRONTIER_WAIT_SECONDS"@,
            nanos as int,
            seq![("outcome"@, "timeout"@)],
        ),
        metrics::counted(
            "DATABASE_REMOTE_READ_FRONTIER_WAIT_TIMEOUTS_TOTAL"@,
            1,
            metrics::unlabelled(),
        ),
    ]);
    let mut s: String = String::new();
    s.append("Timed out after ");
    s.append(timeout);
    s.append(" waiting for remote read frontiers to reach begin_ts=");
    text::push_dec(&mut s, begin_ts);
    s.append(" on partitions {");
    push_partitions(&mut s, required);
    s.append("}");
    assert(s@ =~= wait_timed_out(timeout@, begin_ts, required@).text);
    Err(CommitError::new(s))
}

/// Which way a transaction commits.
#[derive(Clone, Copy, Debug, PartialEq, Eq, Structural)]
pub enum CommitRoute {
    /// Through this node's committer alone.
    Local,
    /// Through a coordinator.
    Coordinated,
}

/// Decides which way a transaction commits: without placement, or where it
/// touches only this partition, through this node's committer alone.
pub fn commit_route(classification: Option<&TransactionClassification>) -> (r: CommitRoute)
    ensures
        r == match classification {
            None => CommitRoute::Local,
            Some(c) => match c@ {
                Classification::SinglePartition => CommitRoute::Local,
                _ => CommitRoute::Coordinated,
            },
        },
{
    match classification {
        None => CommitRoute::Local,
        Some(c) => match c {
            TransactionClassification::SinglePartition => CommitRoute::Local,
            TransactionClassification::RemoteSinglePartition { .. } => CommitRoute::Coordinated,
            TransactionClassification::CrossPartition { .. } => CommitRoute::Coordinated,
        },
    }
}

/// Why a document cannot be created.
#[derive(Debug)]
pub enum GeneratedIdError {
    /// A document with the id was deleted.
    Deleted(String),
    /// A document with the id exists.
    Exists(String),
    /// A row of the system's metadata exists. A fresher view of it may help.
    Retry(CommitError),
}

/// Why a document cannot be created, as contracts speak of it.
pub enum IdConflict {
    Deleted(Seq<char>),
    Exists(Seq<char>),
    Retry(Refusal),
}

impl View for GeneratedIdError {
    type V = IdConflict;

    open spec fn view(&self) -> IdConflict {
        match self {
            GeneratedIdError::Deleted(s) => IdConflict::Deleted(s@),
            GeneratedIdError::Exists(s) => IdConflict::Exists(s@),
            GeneratedIdError::Retry(e) => IdConflict::Retry(e@),
        }
    }
}

impl IdConflict {
    /// The code of the bad request that the conflict is, unless it is retried.
    pub open spec fn code(self) -> Option<Seq<char>> {
        match self {
            IdConflict::Deleted(_) => Some("DocumentDeleted"@),
            IdConflict::Exists(_) => Some("DocumentExists"@),
            IdConflict::Retry(_) => None,
        }
    }
}

impl GeneratedIdError {
    /// The code of the bad request that the conflict is, unless it is retried.
    pub fn code(&self) -> (r: Option<&'static str>)
        ensures
            match r {
                Some(code) => self@.code() == Some(code@),
                None => self@.code() is None,
            },
    {
        match self {
            GeneratedIdError::Deleted(_) => Some("DocumentDeleted"),
            GeneratedIdError::Exists(_) => Some("DocumentExists"),
            GeneratedIdError::Retry(_) => None,
        }
    }
}

/// Said of an id whose document was deleted.
pub open spec fn deleted_text(id: Seq<char>) -> Seq<char> {
    "Cannot recreate document with _id "@ + id
        + " that was deleted. Try to insert it without an _id or insert into another table."@
}

/// Said of an id whose document exists.
pub open spec fn exists_text(id: Seq<char>) -> Seq<char> {
    "Cannot create document with _id "@ + id
        + " that already exists. Try to update it with `db.patch` or `db.replace`."@
}

/// Said of a row of the system's metadata that exists.
pub open spec fn stale_metadata(id: Seq<char>, table: Seq<char>) -> Refusal {
    Refusal {
        text: "System metadata row with _id "@ + id + " in table "@ + table
            + " already exists; retrying against a fresher metadata view"@,
        occ: Some((None, None)),
    }
}

/// Whether creating a row of a table of the system that exists is worth trying
/// again.
pub fn is_retryable_system_generated_id_conflict(table_name: &TableName, document_exists: bool) -> (r: bool)
    ensures
        r == (document_exists && table_name@ == "_udf_config"@),
{
    document_exists && text::same(table_name.as_str(), "_udf_config")
}

/// Why a document with a given id cannot be created, given the latest revision
/// of the document and whether that is a document or a deletion.
pub open spec fn id_conflict(stored: StoredId, exists: bool, id: Seq<char>, tables: Seq<TableInfo>) -> IdConflict {
    if !exists {
        IdConflict::Deleted(deleted_text(id))
    } else {
        match documents::name_of(tables, stored.tablet) {
            Some(name) => if names::is_system_name(name) && name == "_udf_config"@ {
                IdConflict::Retry(stale_metadata(id, name))
            } else {
                IdConflict::Exists(exists_text(id))
            },
            None => IdConflict::Exists(exists_text(id)),
        }
    }
}

/// Says why a document cannot be created.
pub fn generated_id_conflict(stored: StoredId, exists: bool, display_id: &str, table_mapping: &TableMapping) -> (r:
    GeneratedIdError)
    ensures
        r@ == id_conflict(stored, exists, display_id@, table_mapping.tables@),
{
    if !exists {
        let mut s: String = String::new();
        s.append("Cannot recreate document with _id ");
        s.append(display_id);
        s.append(
            " that was deleted. Try to insert it without an _id or insert into another table.",
        );
        assert(s@ =~= deleted_text(display_id@));
        return GeneratedIdError::Deleted(s);
    }
    if let Some(name) = table_mapping.tablet_name(stored.tablet) {
        if name.is_system() && is_retryable_system_generated_id_conflict(name, exists) {
            let mut s: String = String::new();
            s.append("System metadata row with _id ");
            s.append(display_id);
            s.append(" in table ");
            s.append(name.as_str());
            s.append(" already exists; retrying against a fresher metadata view");
            assert(s@ =~= stale_metadata(display_id@, name@).text);
            return GeneratedIdError::Retry(
                CommitError::system_occ(s, None, &WriteSource::unknown()),
            );
        }
    }
    let mut s: String = String::new();
    s.append("Cannot create document with _id ");
    s.append(display_id);
    s.append(" that already exists. Try to update it with `db.patch` or `db.replace`.");
    assert(s@ =~= exists_text(display_id@));
    GeneratedIdError::Exists(s)
}

/// Where the generated id of a stored document is.
pub open spec fn generated_at(ids: Seq<DocumentId>, stored: StoredId) -> Option<int>
    decreases ids.len(),
{
    if ids.len() == 0 {
        None
    } else if ids[0].stored() == stored {
        Some(0)
    } else {
        match generated_at(ids.skip(1), stored) {
            Some(i) => Some(i + 1),
            None => None,
        }
    }
}

/// Finds the generated id of a stored document, which users know it by.
pub fn find_generated(ids: &Vec<DocumentId>, stored: StoredId) -> (r: Option<usize>)
    ensures
        match r {
            Some(i) => generated_at(ids@, stored) == Some(i as int) && i < ids@.len(),
            None => generated_at(ids@, stored) is None,
        },
{
    let mut i: usize = 0;
    assert(ids@.skip(0) =~= ids@);
    while i < ids.len()
        invariant
            i <= ids@.len(),
            generated_at(ids@, stored) == match generated_at(ids@.skip(i as int), stored) {
                Some(k) => Some(k + i),
                None => None,
            },
        decreases ids@.len() - i,
    {
        if ids[i].stored_id() == stored {
            return Some(i);
        }
        assert(ids@.skip(i as int).skip(1) =~= ids@.skip(i + 1));
        i += 1;
    }
    None
}

/// The timestamp at which generated ids are looked up: just after the
/// transaction began, for later writes are checked for conflicts anyway.
pub fn generated_ids_ts(begin_ts: u64) -> (r: Result<u64, CommitError>)
    ensures
        super::outcome(r) == match super::next_ts(begin_ts) {
            Some(ts) => Ok::<u64, Refusal>(ts),
            None => Err(super::overflow_refusal()),
        },
{
    if begin_ts >= super::MAX_TIMESTAMP {
        return Err(super::overflow_error());
    }
    Ok(begin_ts + 1)
}

/// Why a message did not reach the committer.
#[derive(Clone, Copy, Debug, PartialEq, Eq, Structural)]
pub enum SendFailure {
    /// There are too many messages.
    Full,
    /// The committer is gone.
    Closed,
}

/// Says why a message did not reach the committer, and counts it.
pub fn send_error(metrics: &mut MetricsRecorder, failure: SendFailure) -> (r: ErrorMetadata)
    ensures
        final(metrics)@ == old(metrics)@.push(
            match failure {
                SendFailure::Full => metrics::counted(
                    "DATABASE_COMMITTER_FULL_TOTAL"@,
                    1,
                    metrics::unlabelled(),
                ),
                SendFailure::Closed => metrics::counted(
                    "SHUTDOWN_TOTAL"@,
                    1,
                    metrics::unlabelled(),
                ),
            },
        ),
        r.class == match failure {
            SendFailure::Full => ErrorClass::Overloaded,
            SendFailure::Closed => ErrorClass::OperationalInternalServerError,
        },
        r.short_msg@ == match failure {
            SendFailure::Full => "CommitterFullError"@,
            SendFailure::Closed => "InternalServerError"@,
        },
        r.msg@ == match failure {
            SendFailure::Full =>
                "Too many concurrent commits in a short period of time. Spread your writes out over time or throttle them to avoid errors."@,
            SendFailure::Closed => "Database Shutting Down"@,
        },
{
    match failure {
        SendFailure::Full => metrics::committer_full_error(metrics),
        SendFailure::Closed => metrics::shutdown_error(metrics),
    }
}

/// Measures how installing a checkpoint went.
pub fn log_install(metrics: &mut MetricsRecorder, installed: Option<u64>)
    ensures
        final(metrics)@ == match installed {
            Some(ts) => old(metrics)@.push(
                metrics::counted(
                    "DATABASE_SNAPSHOT_INSTALL_TOTAL"@,
                    1,
                    seq![("status"@, "success"@)],
                ),
            ).push(
                metrics::gauged(
                    "DATABASE_SNAPSHOT_INSTALLED_TS_INFO"@,
                    ts as int,
                    metrics::unlabelled(),
                ),
            ),
            None => old(metrics)@.push(
                metrics::counted(
                    "DATABASE_SNAPSHOT_INSTALL_TOTAL"@,
                    1,
                    seq![("status"@, "error"@)],
                ),
            ),
        },
{
    match installed {
        Some(ts) => {
            metrics::log_snapshot_install_result(metrics, true);
            metrics::log_snapshot_installed_ts(metrics, ts);
        },
        None => {
            metrics::log_snapshot_install_result(metrics, false);
        },
    }
}

/// A client acts on the version of its placement, and on none where it has none; it
/// reaches the members that the placement names, and those it was started with where
/// that names none.
pub proof fn clients_act_on_their_placement(client: CommitterClient)
    ensures
        client.placement matches Some(p) ==> {
            &&& client.version() == p@.1.version
            &&& client.placed() == Some(p@)
            &&& (exists|k: u32| p@.1.members.contains_key(k)) ==> client.addresses() == Some(
                p@.1.members,
            )
        },
        client.placement is None ==> client.version() == PlacementVersion(0) && client.placed()
            is None,
        client.placement is None && client.node_addresses is None ==> client.addresses() is None,
        client.placement is None ==> (client.node_addresses matches Some(a) ==> client.addresses()
            == Some(a@)),
        client.placement matches Some(p) ==> ((forall|k: u32| !p@.1.members.contains_key(k))
            ==> match client.node_addresses {
            Some(a) => client.addresses() == Some(a@),
            None => client.addresses() is None,
        }),
{
    if client.placement is Some {
        let members = client.placement->0@.1.members;
        if exists|k: u32| members.contains_key(k) {
            let k = choose|k: u32| members.contains_key(k);
            assert(members.dom().contains(k));
            assert(!members.dom().is_empty());
        } else {
            assert(members.dom() =~= Set::<u32>::empty());
        }
    }
}

/// A generated id that is taken is reported as deleted exactly where the document is
/// gone; a row of the `_udf_config` table is tried again, and anything else exists.
pub proof fn taken_ids_are_told_apart(
    stored: StoredId,
    exists: bool,
    id: Seq<char>,
    tables: Seq<TableInfo>,
)
    ensures
        ({
            let conflict = id_conflict(stored, exists, id, tables);
            let retried = documents::name_of(tables, stored.tablet) == Some("_udf_config"@);
            &&& conflict is Deleted <==> !exists
            &&& conflict is Retry <==> exists && retried
            &&& conflict is Exists <==> exists && !retried
            &&& conflict is Deleted ==> conflict.code() == Some("DocumentDeleted"@)
            &&& conflict is Exists ==> conflict.code() == Some("DocumentExists"@)
            &&& conflict is Retry ==> conflict.code() is None
            &&& conflict matches IdConflict::Retry(e) ==> e.occ is Some
        }),
{
    reveal_strlit("_udf_config");
    assert("_udf_config"@[0] == '_');
}

/// A generated document is found by where it is stored, the first of those there.
pub proof fn generated_documents_are_found(ids: Seq<DocumentId>, stored: StoredId)
    ensures
        match generated_at(ids, stored) {
            Some(i) => {
                &&& 0 <= i < ids.len()
                &&& ids[i].tablet == stored.tablet && ids[i].internal == stored.internal
                &&& forall|j: int|
                    0 <= j < i ==> !((#[trigger] ids[j]).tablet == stored.tablet && ids[j].internal
                        == stored.internal)
            },
            None => forall|j: int|
                0 <= j < ids.len() ==> !((#[trigger] ids[j]).tablet == stored.tablet
                    && ids[j].internal == stored.internal),
        },
    decreases ids.len(),
{
    if ids.len() > 0 && ids[0].stored() != stored {
        let rest = ids.skip(1);
        generated_documents_are_found(rest, stored);
        match generated_at(rest, stored) {
            Some(i) => {
                assert forall|j: int| 0 <= j < i + 1 implies !((#[trigger] ids[j]).tablet
                    == stored.tablet && ids[j].internal == stored.internal) by {
                    if j > 0 {
                        assert(rest[j - 1] == ids[j]);
                    }
                }
            },
            None => {
                assert forall|j: int| 0 <= j < ids.len() implies !((#[trigger] ids[j]).tablet
                    == stored.tablet && ids[j].internal == stored.internal) by {
                    if j > 0 {
                        assert(rest[j - 1] == ids[j]);
                    }
                }
            },
        }
    }
}

/// A client is told which placements differ, and which partitions it waited for, how
/// long and for what.
pub proof fn clients_are_told_what_differs(
    requested: PlacementVersion,
    local: PlacementVersion,
    timeout: Seq<char>,
    begin_ts: u64,
    partitions: Seq<u32>,
)
    ensures
        version_mismatch(requested, local).text == "Placement version mismatch: request used "@
            + requested.text() + ", local node is on "@ + local.text()
            + ". Refresh placement metadata before retrying the write."@,
        version_mismatch(requested, local).occ is None,
        wait_timed_out(timeout, begin_ts, partitions).text == "Timed out after "@ + timeout
            + " waiting for remote read frontiers to reach begin_ts="@
            + text::dec(begin_ts as nat) + " on partitions {"@ + partitions_text(partitions)
            + "}"@,
        wait_timed_out(timeout, begin_ts, partitions).occ is None,
{
}

/// Partitions are listed one after the other.
pub proof fn partitions_are_listed_in_order(partitions: Seq<u32>, p: u32)
    ensures
        partitions_text(Seq::empty()).len() == 0,
        partitions_text(seq![p]) == "PartitionId("@ + text::dec(p as nat) + ")"@,
        partitions.len() > 0 ==> partitions_text(partitions.push(p)) == partitions_text(partitions)
            + ", PartitionId("@ + text::dec(p as nat) + ")"@,
{
    assert(partitions.push(p).drop_last() == partitions);
}

/// Whoever asked is told the id that is taken, and the table where it is to be tried
/// again.
pub proof fn taken_ids_are_named(id: Seq<char>, table: Seq<char>)
    ensures
        stale_metadata(id, table).text == "System metadata row with _id "@ + id + " in table "@
            + table + " already exists; retrying against a fresher metadata view"@,
        deleted_text(id) == "Cannot recreate document with _id "@ + id
            + " that was deleted. Try to insert it without an _id or insert into another table."@,
        exists_text(id) == "Cannot create document with _id "@ + id
            + " that already exists. Try to update it with `db.patch` or `db.replace`."@,
{
}

} // verus!
